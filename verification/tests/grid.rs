use mapf_game::deps::sparse::SparseMatrix2D;

fn grid(data: Vec<Option<Vec<u8>>>, shape: (usize, usize)) -> SparseMatrix2D {
    SparseMatrix2D { data, shape }
}

#[test]
fn new_grid_is_blank_and_unallocated() {
    let g = SparseMatrix2D::new(3, 4);
    assert_eq!(g.shape, (3, 4));
    assert_eq!(g.data, vec![None, None, None]);
    assert_eq!(g.get(0, 0), None);
    assert_eq!(g.get(2, 3), None);
    assert_eq!(g.get(3, 0), None);
    assert_eq!(g.get_checked(2, 3), 0);
    assert!(g.is_blank());
    assert_eq!(g.get_nnz(), vec![]);
    assert_eq!(g.get_nnz_sum(), 0);
    assert_eq!(g.get_nnz_list(), vec![]);
}

#[test]
fn new_by_shape_and_new_like_copy_the_shape_only() {
    let g = SparseMatrix2D::new_by_shape((2, 5));
    assert_eq!(g.shape, (2, 5));
    assert_eq!(g.data, vec![None, None]);
    let mut h = SparseMatrix2D::new(4, 1);
    h.insert(2, 0, 7);
    let like = SparseMatrix2D::new_like(&h);
    assert_eq!(like.shape, (4, 1));
    assert_eq!(like.data, vec![None, None, None, None]);
}

#[test]
fn insert_allocates_the_row_and_writes_one_cell() {
    let mut g = SparseMatrix2D::new(3, 4);
    g.insert(1, 2, 5);
    assert_eq!(g.data, vec![None, Some(vec![0, 0, 5, 0]), None]);
    assert_eq!(g.get(1, 2), Some(5));
    assert_eq!(g.get(1, 0), Some(0));
    assert_eq!(g.get(1, 4), None);
    assert_eq!(g.get(0, 2), None);
    assert_eq!(g.get_checked(1, 2), 5);
    assert_eq!(g.get_checked(0, 2), 0);
    g.insert(1, 2, 0);
    assert_eq!(g.data, vec![None, Some(vec![0, 0, 0, 0]), None]);
}

#[test]
fn insert_outside_the_shape_is_ignored() {
    let mut g = SparseMatrix2D::new(3, 4);
    g.insert(3, 0, 1);
    g.insert(0, 4, 1);
    g.insert(usize::MAX, usize::MAX, 1);
    assert_eq!(g.data, vec![None, None, None]);
}

#[test]
fn xor_inline_composes_row_by_row() {
    let mut a = grid(vec![None, Some(vec![1, 0, 2, 0]), None], (3, 4));
    let b = grid(vec![None, Some(vec![1, 1, 0, 0]), Some(vec![0, 0, 0, 3])], (3, 4));
    a.xor_inline(&b);
    assert_eq!(a.data, vec![None, Some(vec![0, 1, 2, 0]), Some(vec![0, 0, 0, 3])]);
    assert_eq!(a.shape, (3, 4));
}

#[test]
fn xor_leaves_both_operands_alone() {
    let a = grid(vec![Some(vec![1, 2]), None], (2, 2));
    let b = grid(vec![Some(vec![2, 2]), Some(vec![1, 0])], (2, 2));
    let c = a.xor(&b);
    assert_eq!(c.data, vec![Some(vec![3, 0]), Some(vec![1, 0])]);
    assert_eq!(a.data, vec![Some(vec![1, 2]), None]);
    assert_eq!(b.data, vec![Some(vec![2, 2]), Some(vec![1, 0])]);
}

#[test]
fn xor_with_itself_clears_every_cell() {
    let a = grid(vec![Some(vec![1, 2, 3]), None, Some(vec![0, 255, 7])], (3, 3));
    let c = a.xor(&a);
    assert_eq!(c.data, vec![Some(vec![0, 0, 0]), None, Some(vec![0, 0, 0])]);
    assert!(c.is_blank());
}

#[test]
fn xor_inline_by_idx_twice_cancels() {
    let mut g = grid(vec![None, Some(vec![0, 2])], (2, 2));
    g.xor_inline_by_idx(0, 1, 1);
    assert_eq!(g.data, vec![Some(vec![0, 1]), Some(vec![0, 2])]);
    g.xor_inline_by_idx(0, 1, 1);
    assert_eq!(g.data, vec![Some(vec![0, 0]), Some(vec![0, 2])]);
    g.xor_inline_by_idx(1, 1, 1);
    assert_eq!(g.get(1, 1), Some(3));
    g.xor_inline_by_idx(5, 5, 1);
    assert_eq!(g.data, vec![Some(vec![0, 0]), Some(vec![0, 3])]);
}

#[test]
fn xor_inline_by_idx_hands_back_the_grid() {
    let mut g = SparseMatrix2D::new(1, 2);
    g.xor_inline_by_idx(0, 0, 2).xor_inline_by_idx(0, 1, 1);
    assert_eq!(g.data, vec![Some(vec![2, 1])]);
}

#[test]
fn bit_reduce_zeroes_cells_with_two_or_more_bits() {
    let mut g = grid(vec![Some(vec![0, 1, 2, 3, 4, 5, 8, 255]), None, Some(vec![128, 129, 6, 16, 32, 64, 96, 7])], (3, 8));
    g.bit_reduce_inline();
    assert_eq!(
        g.data,
        vec![Some(vec![0, 1, 2, 0, 4, 0, 8, 0]), None, Some(vec![128, 0, 0, 16, 32, 64, 0, 0])]
    );
}

#[test]
fn bit_reduce_twice_is_bit_reduce_once() {
    let mut once = grid(vec![Some(vec![3, 1, 2, 7]), None], (2, 4));
    once.bit_reduce_inline();
    let mut twice = once.clone();
    twice.bit_reduce_inline();
    assert_eq!(once.data, vec![Some(vec![0, 1, 2, 0]), None]);
    assert_eq!(twice.data, once.data);
    assert!(once == twice);
}

#[test]
fn nonzero_cells_come_in_row_major_order() {
    let g = grid(vec![Some(vec![0, 2, 0]), None, Some(vec![1, 0, 3])], (3, 3));
    assert_eq!(g.get_nnz(), vec![(0, 1, 2), (2, 0, 1), (2, 2, 3)]);
    assert_eq!(g.get_nnz_list(), vec![(0, 1), (2, 0), (2, 2)]);
    assert_eq!(g.get_nnz_sum(), 3);
    assert_eq!(g.count_value(1), 1);
    assert_eq!(g.count_value(2), 1);
    assert_eq!(g.count_value(0), 3);
    assert!(!g.is_blank());
}

#[test]
fn equality_sees_shape_allocation_and_values() {
    let a = grid(vec![Some(vec![0, 0]), None], (2, 2));
    let b = grid(vec![None, None], (2, 2));
    let c = grid(vec![Some(vec![0, 0]), None], (2, 2));
    let d = grid(vec![Some(vec![0, 1]), None], (2, 2));
    assert!(a == c);
    assert!(a != b);
    assert!(a != d);
    assert!(SparseMatrix2D::new(0, 2) != SparseMatrix2D::new(0, 3));
    assert!(a.clone() == a);
}

#[test]
fn a_grid_is_written_row_by_row() {
    let g = grid(vec![Some(vec![0, 2, 10]), None, Some(vec![255, 100, 9])], (3, 3));
    assert_eq!(g.to_string(), "0 2 10 \n0 0 0 \n255 100 9 \n");
    assert_eq!(SparseMatrix2D::new(0, 3).to_string(), "");
    assert_eq!(SparseMatrix2D::new(2, 0).to_string(), "\n\n");
}

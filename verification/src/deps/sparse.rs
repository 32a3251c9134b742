//! A row-sparse grid of small unsigned integers with bitwise composition.

use crate::deps::text::{decimal, push_char, push_decimal};
use vstd::prelude::*;

verus! {

/// The mathematical content of a grid: one entry per row, `None` for a row
/// that was never allocated, otherwise the row's cells.
pub type Rows = Seq<Option<Seq<u8>>>;

/// The value stored at `(r, c)` of `rows`; an absent row, or a coordinate
/// outside the rows, reads as `0`.
pub open spec fn cell(rows: Rows, r: int, c: int) -> u8 {
    if 0 <= r < rows.len() && rows[r] is Some && 0 <= c < rows[r].unwrap().len() {
        rows[r].unwrap()[c]
    } else {
        0
    }
}

/// Every allocated row of `rows` is `width` cells wide.
pub open spec fn rows_have_width(rows: Rows, width: nat) -> bool {
    forall|r: int| 0 <= r < rows.len() && (#[trigger] rows[r]) is Some ==> rows[r].unwrap().len() == width
}

/// A row of `width` zeros.
pub open spec fn zero_row(width: nat) -> Seq<u8> {
    Seq::new(width, |c: int| 0u8)
}

/// `rows` with the cell at `(r, c)` set to `v`; a missing row is allocated
/// with `width` zeros first.
pub open spec fn with_cell(rows: Rows, r: int, c: int, v: u8, width: nat) -> Rows {
    rows.update(
        r,
        Some(
            (match rows[r] {
                Some(row) => row,
                None => zero_row(width),
            }).update(c, v),
        ),
    )
}

/// A point write of `v` at `(r, c)` into a grid of `height` by `width`
/// cells; outside the grid nothing changes.
pub open spec fn write_at(rows: Rows, height: nat, width: nat, r: int, c: int, v: u8) -> Rows {
    if 0 <= r < height && 0 <= c < width {
        with_cell(rows, r, c, v, width)
    } else {
        rows
    }
}

/// XOR of `val` into the cell at `(r, c)` of a grid of `height` by `width`
/// cells; outside the grid nothing changes.
pub open spec fn xor_at(rows: Rows, height: nat, width: nat, r: int, c: int, val: u8) -> Rows {
    write_at(rows, height, width, r, c, cell(rows, r, c) ^ val)
}

/// The rows of an all-zero grid of `height` rows: none is allocated.
pub open spec fn empty_rows(height: nat) -> Rows {
    Seq::new(height, |r: int| None::<Seq<u8>>)
}

/// One row of a bitwise XOR composition: an absent right-hand row leaves the
/// left-hand row as it is (absent included); otherwise the left-hand row is
/// allocated if need be and XOR-ed cell by cell.
pub open spec fn xor_row(a: Option<Seq<u8>>, b: Option<Seq<u8>>, width: nat) -> Option<Seq<u8>> {
    match b {
        None => a,
        Some(right) => {
            let left = match a {
                Some(row) => row,
                None => zero_row(width),
            };
            Some(Seq::new(width, |c: int| left[c] ^ right[c]))
        },
    }
}

/// The bitwise XOR composition of two grids of one shape, row by row.
pub open spec fn xor_rows(a: Rows, b: Rows, width: nat) -> Rows {
    Seq::new(a.len(), |r: int| xor_row(a[r], b[r], width))
}

/// The number of bits set in `x`.
pub open spec fn bit_count(x: u8) -> int {
    (x & 1) + ((x >> 1) & 1) + ((x >> 2) & 1) + ((x >> 3) & 1) + ((x >> 4) & 1) + ((x >> 5) & 1) + ((x
        >> 6) & 1) + ((x >> 7) & 1)
}

/// A cell value with more than one bit set marks a collision.
pub open spec fn is_collision(x: u8) -> bool {
    bit_count(x) > 1
}

/// What collision reduction leaves of a cell value.
pub open spec fn reduce_cell(x: u8) -> u8 {
    if is_collision(x) {
        0
    } else {
        x
    }
}

/// Collision reduction of a whole grid: every collision marker becomes `0`,
/// every other cell and the row allocation stay.
pub open spec fn reduce_rows(rows: Rows) -> Rows {
    Seq::new(
        rows.len(),
        |r: int|
            match rows[r] {
                Some(row) => Some(Seq::new(row.len(), |c: int| reduce_cell(row[c]))),
                None => None,
            },
    )
}

/// No cell of `rows` holds anything.
pub open spec fn is_blank(rows: Rows) -> bool {
    forall|r: int, c: int| #[trigger] cell(rows, r, c) == 0
}

/// The first `upto` cells of `row` as text: each value in decimal, a blank
/// after each.
pub open spec fn row_as_text(row: Seq<u8>, upto: int) -> Seq<char>
    decreases upto,
{
    if upto <= 0 {
        Seq::empty()
    } else {
        row_as_text(row, upto - 1) + decimal(row[upto - 1]).push(' ')
    }
}

/// The first `upto` rows of a grid of `width` columns as text, a line for
/// each row; a row that is not stored is written as zeros.
pub open spec fn rows_as_text(rows: Rows, width: nat, upto: int) -> Seq<char>
    decreases upto,
{
    if upto <= 0 {
        Seq::empty()
    } else {
        rows_as_text(rows, width, upto - 1) + match rows[upto - 1] {
            Some(row) => row_as_text(row, row.len() as int),
            None => row_as_text(zero_row(width), width as int),
        }.push('\n')
    }
}

/// `(r1, c1)` comes strictly before `(r2, c2)` in row-major order.
pub open spec fn row_major_before(r1: int, c1: int, r2: int, c2: int) -> bool {
    r1 < r2 || (r1 == r2 && c1 < c2)
}

/// `coords` lists the non-zero cells of `rows`: each entry is one, they stand
/// in row-major order without repetition, and none is missing.
pub open spec fn lists_nonzero_cells(rows: Rows, coords: Seq<(int, int)>) -> bool {
    &&& forall|k: int| 0 <= k < coords.len() ==> cell(rows, (#[trigger] coords[k]).0, coords[k].1) != 0
    &&& forall|j: int, k: int|
        0 <= j < k < coords.len() ==> row_major_before(
            (#[trigger] coords[j]).0,
            coords[j].1,
            (#[trigger] coords[k]).0,
            coords[k].1,
        )
    &&& forall|r: int, c: int| #[trigger]
        cell(rows, r, c) != 0 ==> exists|k: int| 0 <= k < coords.len() && #[trigger] coords[k] == (r, c)
}

/// How many of the first `upto` cells of `row`, which is row `r` of its
/// grid, satisfy `pred(r, c, value)`.
pub open spec fn count_in_row(row: Seq<u8>, r: int, upto: int, pred: spec_fn(int, int, u8) -> bool) -> nat
    decreases upto,
{
    if upto <= 0 {
        0
    } else {
        count_in_row(row, r, upto - 1, pred) + if pred(r, upto - 1, row[upto - 1]) {
            1nat
        } else {
            0nat
        }
    }
}

/// How many stored cells in the first `upto` rows satisfy `pred`.
pub open spec fn count_in_rows(rows: Rows, upto: int, pred: spec_fn(int, int, u8) -> bool) -> nat
    decreases upto,
{
    if upto <= 0 {
        0
    } else {
        count_in_rows(rows, upto - 1, pred) + match rows[upto - 1] {
            Some(row) => count_in_row(row, upto - 1, row.len() as int, pred),
            None => 0nat,
        }
    }
}

/// How many stored cells of `rows` satisfy `pred(r, c, value)`.
pub open spec fn count_cells(rows: Rows, pred: spec_fn(int, int, u8) -> bool) -> nat {
    count_in_rows(rows, rows.len() as int, pred)
}

/// Selects the cells that hold the value `p`.
pub open spec fn held_by(p: u8) -> spec_fn(int, int, u8) -> bool {
    |r: int, c: int, v: u8| v == p
}

/// The number of non-zero cells in a grid.
pub open spec fn nonzero_count(rows: Rows) -> nat {
    count_cells(rows, |r: int, c: int, v: u8| v != 0)
}

/// A grid of `shape.0` rows and `shape.1` columns; a row without a non-zero
/// cell need not be stored.
#[derive(Debug, Hash)]
pub struct SparseMatrix2D {
    pub data: Vec<Option<Vec<u8>>>,
    pub shape: (usize, usize),
}

impl View for SparseMatrix2D {
    type V = Rows;

    open spec fn view(&self) -> Rows {
        Seq::new(
            self.data@.len(),
            |r: int|
                match self.data@[r] {
                    Some(row) => Some(row@),
                    None => None,
                },
        )
    }
}

impl SparseMatrix2D {
    /// The stored rows agree with the declared shape.
    pub open spec fn wf(&self) -> bool {
        &&& self.data@.len() == self.shape.0
        &&& rows_have_width(self@, self.shape.1 as nat)
    }

    /// What `get` returns at `(r, c)`.
    pub open spec fn spec_get(&self, r: int, c: int) -> Option<u8> {
        if 0 <= r < self@.len() && self@[r] is Some && 0 <= c < self@[r].unwrap().len() {
            Some(self@[r].unwrap()[c])
        } else {
            None
        }
    }

    /// `(r, c)` lies inside the declared shape.
    pub open spec fn in_shape(&self, r: int, c: int) -> bool {
        0 <= r < self.shape.0 && 0 <= c < self.shape.1
    }

    /// Collision reduction: every cell whose value has two or more bits set
    /// becomes `0`.
    pub fn bit_reduce_inline(&mut self)
        ensures
            final(self)@ == reduce_rows(old(self)@),
            final(self).shape == old(self).shape,
            old(self).wf() ==> final(self).wf(),
    {
        let n = self.data.len();
        let mut i: usize = 0;
        while i < n
            invariant
                i <= n,
                n == self.data@.len(),
                self@.len() == old(self)@.len(),
                self.shape == old(self).shape,
                forall|r: int| 0 <= r < i ==> #[trigger] self@[r] == reduce_rows(old(self)@)[r],
                forall|r: int| i <= r < n ==> #[trigger] self@[r] == old(self)@[r],
            decreases n - i,
        {
            let ghost before = self@;
            match &mut self.data[i] {
                Some(row) => {
                    reduce_row(row);
                },
                None => {},
            }
            proof {
                assert(self@[i as int] =~= reduce_rows(old(self)@)[i as int]) by {
                    assert(before[i as int] == old(self)@[i as int]);
                    if before[i as int] is Some {
                        assert(self@[i as int].unwrap() =~= reduce_rows(old(self)@)[i as int].unwrap());
                    }
                }
                assert forall|r: int| 0 <= r < n && r != i implies #[trigger] self@[r] == before[r] by {}
            }
            i = i + 1;
        }
        proof {
            assert(self@ =~= reduce_rows(old(self)@));
            if old(self).wf() {
                assert forall|r: int| 0 <= r < self@.len() && (#[trigger] self@[r]) is Some implies self@[r].unwrap().len()
                    == self.shape.1 by {
                    assert(old(self)@[r] is Some);
                }
            }
        }
    }

    /// Point read: the stored value, or `None` where the row is absent or the
    /// coordinate lies outside the stored rows.
    #[inline(always)]
    pub fn get(&self, a0: usize, a1: usize) -> (r: Option<u8>)
        ensures
            r == self.spec_get(a0 as int, a1 as int),
            r is Some ==> r.unwrap() == cell(self@, a0 as int, a1 as int),
            r is None ==> cell(self@, a0 as int, a1 as int) == 0,
    {
        if a0 < self.data.len() {
            match &self.data[a0] {
                Some(row) => {
                    if a1 < row.len() {
                        Some(row[a1])
                    } else {
                        None
                    }
                },
                None => None,
            }
        } else {
            None
        }
    }

    /// Point read inside the shape: the stored value, `0` for an absent row.
    #[inline(always)]
    pub fn get_checked(&self, a0: usize, a1: usize) -> (v: u8)
        requires
            self.wf(),
            self.in_shape(a0 as int, a1 as int),
        ensures
            v == cell(self@, a0 as int, a1 as int),
    {
        match &self.data[a0] {
            Some(row) => {
                assert(self@[a0 as int] == Some(row@));
                row[a1]
            },
            None => 0,
        }
    }

    /// XORs `other` into `self`, row by row: a row that `other` lacks is left
    /// alone, any other row is allocated in `self` if need be and XOR-ed cell
    /// by cell.
    pub fn xor_inline(&mut self, other: &SparseMatrix2D)
        requires
            old(self).wf(),
            other.wf(),
            old(self).shape == other.shape,
        ensures
            final(self).wf(),
            final(self).shape == old(self).shape,
            final(self)@ == xor_rows(old(self)@, other@, old(self).shape.1 as nat),
    {
        let n = other.data.len();
        let ghost width = self.shape.1 as nat;
        let mut i: usize = 0;
        while i < n
            invariant
                i <= n,
                n == other.data@.len(),
                other.wf(),
                self.wf(),
                self.shape == old(self).shape,
                self.shape == other.shape,
                width == self.shape.1,
                forall|r: int| 0 <= r < i ==> #[trigger] self@[r] == xor_row(old(self)@[r], other@[r], width),
                forall|r: int| i <= r < n ==> #[trigger] self@[r] == old(self)@[r],
            decreases n - i,
        {
            let ghost before = self@;
            match &other.data[i] {
                Some(right) => {
                    assert(other@[i as int] == Some(right@));
                    if self.data[i].is_none() {
                        let row = zeros(self.shape.1);
                        self.data[i] = Some(row);
                    }
                    match &mut self.data[i] {
                        Some(left) => {
                            xor_into_row(left, right);
                        },
                        None => {},
                    }
                },
                None => {},
            }
            proof {
                assert(self@[i as int] == xor_row(before[i as int], other@[i as int], width));
                assert forall|r: int| 0 <= r < self@.len() && r != i implies #[trigger] self@[r] == before[r] by {}
                assert forall|r: int| 0 <= r < self@.len() && (#[trigger] self@[r]) is Some implies self@[r].unwrap().len()
                    == width by {
                    if r != i {
                        assert(self@[r] == before[r]);
                    }
                }
            }
            i = i + 1;
        }
        assert(self@ =~= xor_rows(old(self)@, other@, width));
    }

    /// A new grid that is `self` XOR `other`; `self` stays as it is.
    pub fn xor(&self, other: &SparseMatrix2D) -> (ret: SparseMatrix2D)
        requires
            self.wf(),
            other.wf(),
            self.shape == other.shape,
        ensures
            ret.wf(),
            ret.shape == self.shape,
            ret@ == xor_rows(self@, other@, self.shape.1 as nat),
    {
        let mut ret: Self = self.clone();
        ret.xor_inline(other);
        ret
    }

    /// XORs `val` into the cell at `(a0, a1)`; outside the shape nothing
    /// changes.
    pub fn xor_inline_by_idx(&mut self, a0: usize, a1: usize, val: u8) -> (ret: &mut SparseMatrix2D)
        requires
            old(self).wf(),
        ensures
            ret.wf(),
            ret.shape == old(self).shape,
            ret@ == xor_at(old(self)@, old(self).shape.0 as nat, old(self).shape.1 as nat, a0 as int, a1 as int, val),
            *final(self) == *final(ret),
    {
        let current = match self.get(a0, a1) {
            Some(v) => v,
            None => 0,
        };
        self.insert(a0, a1, current ^ val);
        self
    }

    /// An all-zero grid of `a0_len` rows and `a1_len` columns, no row
    /// allocated.
    pub fn new(a0_len: usize, a1_len: usize) -> (ret: Self)
        ensures
            ret.wf(),
            ret.shape == (a0_len, a1_len),
            ret@ == empty_rows(a0_len as nat),
    {
        let mut data: Vec<Option<Vec<u8>>> = Vec::new();
        let mut i: usize = 0;
        while i < a0_len
            invariant
                i <= a0_len,
                data@.len() == i,
                forall|r: int| 0 <= r < i ==> (#[trigger] data@[r]) is None,
            decreases a0_len - i,
        {
            data.push(None);
            i = i + 1;
        }
        let ret = SparseMatrix2D { data, shape: (a0_len, a1_len) };
        assert(ret@ =~= empty_rows(a0_len as nat));
        ret
    }

    /// An all-zero grid of the given shape.
    pub fn new_by_shape(shape: (usize, usize)) -> (ret: Self)
        ensures
            ret.wf(),
            ret.shape == shape,
            ret@ == empty_rows(shape.0 as nat),
    {
        Self::new(shape.0, shape.1)
    }

    /// An all-zero grid of the shape of `other`.
    pub fn new_like(other: &Self) -> (ret: Self)
        ensures
            ret.wf(),
            ret.shape == other.shape,
            ret@ == empty_rows(other.shape.0 as nat),
    {
        Self::new_by_shape(other.shape)
    }

    /// Point write; a coordinate outside the shape is silently ignored, and a
    /// missing row is allocated with zeros first.
    pub fn insert(&mut self, a0_idx: usize, a1_idx: usize, value: u8)
        requires
            old(self).wf(),
        ensures
            final(self).wf(),
            final(self).shape == old(self).shape,
            final(self)@ == write_at(
                old(self)@,
                old(self).shape.0 as nat,
                old(self).shape.1 as nat,
                a0_idx as int,
                a1_idx as int,
                value,
            ),
    {
        if a0_idx >= self.shape.0 || a1_idx >= self.shape.1 {
            return ;
        }
        if self.data[a0_idx].is_none() {
            let row = zeros(self.shape.1);
            self.data[a0_idx] = Some(row);
        }
        match &mut self.data[a0_idx] {
            Some(row_data) => {
                row_data[a1_idx] = value;
            },
            None => {},
        }
        proof {
            let width = old(self).shape.1 as nat;
            assert(self@ =~= with_cell(old(self)@, a0_idx as int, a1_idx as int, value, width));
            assert forall|r: int| 0 <= r < self@.len() && (#[trigger] self@[r]) is Some implies self@[r].unwrap().len()
                == width by {
                if r != a0_idx {
                    assert(self@[r] == old(self)@[r]);
                }
            }
        }
    }

    /// The non-zero cells as `(row, column, value)`, in row-major order.
    pub fn get_nnz(&self) -> (result: Vec<(usize, usize, u8)>)
        ensures
            lists_nonzero_cells(self@, result@.map_values(|t: (usize, usize, u8)| (t.0 as int, t.1 as int))),
            forall|k: int|
                0 <= k < result@.len() ==> (#[trigger] result@[k]).2 == cell(
                    self@,
                    result@[k].0 as int,
                    result@[k].1 as int,
                ),
    {
        let mut result: Vec<(usize, usize, u8)> = Vec::new();
        let ghost mut coords: Seq<(int, int)> = Seq::empty();
        let n = self.data.len();
        let mut i: usize = 0;
        while i < n
            invariant
                i <= n,
                n == self.data@.len(),
                listed_until(self@, coords, i as int, 0),
                coords.len() == result@.len(),
                forall|k: int|
                    0 <= k < result@.len() ==> (#[trigger] coords[k]) == (result@[k].0 as int, result@[k].1 as int),
                forall|k: int|
                    0 <= k < result@.len() ==> (#[trigger] result@[k]).2 == cell(
                        self@,
                        result@[k].0 as int,
                        result@[k].1 as int,
                    ),
            decreases n - i,
        {
            match &self.data[i] {
                Some(row) => {
                    assert(self@[i as int] == Some(row@));
                    let m = row.len();
                    let mut j: usize = 0;
                    while j < m
                        invariant
                            j <= m,
                            m == row@.len(),
                            i < n,
                            n == self.data@.len(),
                            self@[i as int] == Some(row@),
                            listed_until(self@, coords, i as int, j as int),
                            coords.len() == result@.len(),
                            forall|k: int|
                                0 <= k < result@.len() ==> (#[trigger] coords[k]) == (
                                    result@[k].0 as int,
                                    result@[k].1 as int,
                                ),
                            forall|k: int|
                                0 <= k < result@.len() ==> (#[trigger] result@[k]).2 == cell(
                                    self@,
                                    result@[k].0 as int,
                                    result@[k].1 as int,
                                ),
                        decreases m - j,
                    {
                        let value = row[j];
                        if value != 0 {
                            result.push((i, j, value));
                            proof {
                                lemma_listed_push(self@, coords, i as int, j as int);
                                coords = coords.push((i as int, j as int));
                            }
                        } else {
                            proof {
                                lemma_listed_skip(self@, coords, i as int, j as int);
                            }
                        }
                        j = j + 1;
                    }
                    proof {
                        lemma_listed_next_row(self@, coords, i as int, m as int);
                    }
                },
                None => {
                    proof {
                        lemma_listed_next_row(self@, coords, i as int, 0);
                    }
                },
            }
            i = i + 1;
        }
        proof {
            lemma_listed_all(self@, coords, n as int);
            assert(result@.map_values(|t: (usize, usize, u8)| (t.0 as int, t.1 as int)) =~= coords);
        }
        result
    }

    /// Whether the stored rows agree with the declared shape.
    pub fn is_well_formed(&self) -> (ok: bool)
        ensures
            ok == self.wf(),
    {
        let n = self.data.len();
        if n != self.shape.0 {
            return false;
        }
        let mut i: usize = 0;
        while i < n
            invariant
                i <= n,
                n == self.data@.len(),
                n == self.shape.0,
                forall|r: int| 0 <= r < i && (#[trigger] self@[r]) is Some ==> self@[r].unwrap().len() == self.shape.1,
            decreases n - i,
        {
            match &self.data[i] {
                Some(row) => {
                    assert(self@[i as int] == Some(row@));
                    if row.len() != self.shape.1 {
                        return false;
                    }
                },
                None => {},
            }
            i = i + 1;
        }
        true
    }

    /// The grid as text: one line per row, the values in decimal with a
    /// blank after each, and zeros for a row that is not stored.
    pub fn to_string(&self) -> (text: String)
        ensures
            text@ == rows_as_text(self@, self.shape.1 as nat, self@.len() as int),
    {
        let mut text = String::new();
        let n = self.data.len();
        let ghost width = self.shape.1 as nat;
        let mut i: usize = 0;
        while i < n
            invariant
                i <= n,
                n == self.data@.len(),
                width == self.shape.1,
                text@ == rows_as_text(self@, width, i as int),
            decreases n - i,
        {
            let ghost above = text@;
            match &self.data[i] {
                Some(row) => {
                    assert(self@[i as int] == Some(row@));
                    let m = row.len();
                    let mut j: usize = 0;
                    while j < m
                        invariant
                            j <= m,
                            m == row@.len(),
                            text@ == above + row_as_text(row@, j as int),
                        decreases m - j,
                    {
                        push_decimal(&mut text, row[j]);
                        push_char(&mut text, ' ');
                        j = j + 1;
                        assert(text@ =~= above + row_as_text(row@, j as int));
                    }
                },
                None => {
                    let m = self.shape.1;
                    let mut j: usize = 0;
                    while j < m
                        invariant
                            j <= m,
                            m == width,
                            text@ == above + row_as_text(zero_row(width), j as int),
                        decreases m - j,
                    {
                        push_decimal(&mut text, 0);
                        push_char(&mut text, ' ');
                        j = j + 1;
                        assert(text@ =~= above + row_as_text(zero_row(width), j as int));
                    }
                },
            }
            push_char(&mut text, '\n');
            i = i + 1;
            assert(text@ =~= rows_as_text(self@, width, i as int));
        }
        text
    }

    /// Whether every cell is zero.
    pub fn is_blank(&self) -> (blank: bool)
        ensures
            blank == is_blank(self@),
    {
        let n = self.data.len();
        let mut i: usize = 0;
        while i < n
            invariant
                i <= n,
                n == self.data@.len(),
                forall|r: int, c: int| r < i ==> #[trigger] cell(self@, r, c) == 0,
            decreases n - i,
        {
            match &self.data[i] {
                Some(row) => {
                    assert(self@[i as int] == Some(row@));
                    let m = row.len();
                    let mut j: usize = 0;
                    while j < m
                        invariant
                            j <= m,
                            m == row@.len(),
                            i < n,
                            n == self.data@.len(),
                            self@[i as int] == Some(row@),
                            forall|c: int| c < j ==> #[trigger] cell(self@, i as int, c) == 0,
                        decreases m - j,
                    {
                        if row[j] != 0 {
                            assert(cell(self@, i as int, j as int) != 0);
                            return false;
                        }
                        j = j + 1;
                    }
                },
                None => {},
            }
            i = i + 1;
        }
        true
    }

    /// The number of non-zero cells.
    pub fn get_nnz_sum(&self) -> (count: u64)
        requires
            self.wf(),
            self.shape.0 * self.shape.1 <= u64::MAX,
        ensures
            count == nonzero_count(self@),
    {
        let mut count: u64 = 0;
        let n = self.data.len();
        let ghost width = self.shape.1 as int;
        let ghost pred = |r: int, c: int, v: u8| v != 0;
        let mut i: usize = 0;
        while i < n
            invariant
                i <= n,
                n == self.data@.len(),
                self.wf(),
                width == self.shape.1,
                n * width <= u64::MAX,
                pred == |r: int, c: int, v: u8| v != 0,
                count == count_in_rows(self@, i as int, pred),
                count <= i * width,
            decreases n - i,
        {
            let ghost done = count_in_rows(self@, i as int, pred);
            assert((i + 1) * width <= n * width) by (nonlinear_arith)
                requires
                    i + 1 <= n,
                    0 <= width,
            ;
            assert((i + 1) * width == i * width + width) by (nonlinear_arith);
            match &self.data[i] {
                Some(row) => {
                    assert(self@[i as int] == Some(row@));
                    let m = row.len();
                    let mut j: usize = 0;
                    while j < m
                        invariant
                            j <= m,
                            m == row@.len(),
                            m == width,
                            i * width + width <= u64::MAX,
                            done <= i * width,
                            pred == |r: int, c: int, v: u8| v != 0,
                            count == done + count_in_row(row@, i as int, j as int, pred),
                            count <= i * width + j,
                        decreases m - j,
                    {
                        if row[j] != 0 {
                            count = count + 1;
                        }
                        j = j + 1;
                    }
                },
                None => {},
            }
            i = i + 1;
        }
        count
    }

    /// The number of cells that hold the value `p`.
    pub fn count_value(&self, p: u8) -> (count: u64)
        requires
            self.wf(),
            self.shape.0 * self.shape.1 <= u64::MAX,
        ensures
            count == count_cells(self@, held_by(p)),
    {
        let mut count: u64 = 0;
        let n = self.data.len();
        let ghost width = self.shape.1 as int;
        let mut i: usize = 0;
        while i < n
            invariant
                i <= n,
                n == self.data@.len(),
                self.wf(),
                width == self.shape.1,
                n * width <= u64::MAX,
                count == count_in_rows(self@, i as int, held_by(p)),
                count <= i * width,
            decreases n - i,
        {
            let ghost done = count_in_rows(self@, i as int, held_by(p));
            assert((i + 1) * width <= n * width) by (nonlinear_arith)
                requires
                    i + 1 <= n,
                    0 <= width,
            ;
            assert((i + 1) * width == i * width + width) by (nonlinear_arith);
            match &self.data[i] {
                Some(row) => {
                    assert(self@[i as int] == Some(row@));
                    let m = row.len();
                    let mut j: usize = 0;
                    while j < m
                        invariant
                            j <= m,
                            m == row@.len(),
                            m == width,
                            i * width + width <= u64::MAX,
                            done <= i * width,
                            count == done + count_in_row(row@, i as int, j as int, held_by(p)),
                            count <= i * width + j,
                        decreases m - j,
                    {
                        if row[j] == p {
                            count = count + 1;
                        }
                        j = j + 1;
                    }
                },
                None => {},
            }
            i = i + 1;
        }
        count
    }

    /// The coordinates of the non-zero cells, in row-major order.
    pub fn get_nnz_list(&self) -> (vec: Vec<(u64, u64)>)
        ensures
            lists_nonzero_cells(self@, vec@.map_values(|p: (u64, u64)| (p.0 as int, p.1 as int))),
    {
        let cells = self.get_nnz();
        let ghost coords = cells@.map_values(|t: (usize, usize, u8)| (t.0 as int, t.1 as int));
        let mut vec: Vec<(u64, u64)> = Vec::new();
        let n = cells.len();
        let mut k: usize = 0;
        while k < n
            invariant
                k <= n,
                n == cells@.len(),
                vec@.len() == k,
                forall|q: int|
                    0 <= q < k ==> (#[trigger] vec@[q]) == (cells@[q].0 as u64, cells@[q].1 as u64),
            decreases n - k,
        {
            let (a0_idx, a1_idx, _) = cells[k];
            vec.push((a0_idx as u64, a1_idx as u64));
            k = k + 1;
        }
        assert(vec@.map_values(|p: (u64, u64)| (p.0 as int, p.1 as int)) =~= coords);
        vec
    }
}

impl Clone for SparseMatrix2D {
    fn clone(&self) -> (ret: Self)
        ensures
            ret@ == self@,
            ret.shape == self.shape,
            self.wf() ==> ret.wf(),
    {
        let mut data: Vec<Option<Vec<u8>>> = Vec::new();
        let n = self.data.len();
        let mut i: usize = 0;
        while i < n
            invariant
                i <= n,
                n == self.data@.len(),
                data@.len() == i,
                forall|r: int|
                    0 <= r < i ==> (match #[trigger] data@[r] {
                        Some(row) => Some(row@),
                        None => None,
                    }) == self@[r],
            decreases n - i,
        {
            let copy = match &self.data[i] {
                Some(row) => Some(copy_row(row)),
                None => None,
            };
            data.push(copy);
            i = i + 1;
        }
        let ret = SparseMatrix2D { data, shape: self.shape };
        assert(ret@ =~= self@);
        assert(ret@.len() == ret.data@.len());
        ret
    }
}

impl PartialEq for SparseMatrix2D {
    /// Two grids are equal when they have the same shape, the same rows
    /// allocated and the same values in them.
    fn eq(&self, other: &Self) -> (r: bool) {
        if self.shape.0 != other.shape.0 || self.shape.1 != other.shape.1 {
            return false;
        }
        let n = self.data.len();
        if n != other.data.len() {
            assert(self@.len() != other@.len());
            return false;
        }
        let mut i: usize = 0;
        while i < n
            invariant
                i <= n,
                n == self.data@.len(),
                n == other.data@.len(),
                forall|r: int| 0 <= r < i ==> #[trigger] self@[r] == other@[r],
            decreases n - i,
        {
            let same = match (&self.data[i], &other.data[i]) {
                (Some(left), Some(right)) => same_row(left, right),
                (None, None) => true,
                _ => false,
            };
            if !same {
                assert(self@[i as int] != other@[i as int]);
                return false;
            }
            i = i + 1;
        }
        assert(self@ =~= other@);
        true
    }
}

impl Eq for SparseMatrix2D {

}

impl vstd::std_specs::cmp::PartialEqSpecImpl for SparseMatrix2D {
    open spec fn obeys_eq_spec() -> bool {
        true
    }

    open spec fn eq_spec(&self, other: &Self) -> bool {
        self@ == other@ && self.shape == other.shape
    }
}

/// Whether two rows hold the same cells.
fn same_row(left: &Vec<u8>, right: &Vec<u8>) -> (same: bool)
    ensures
        same == (left@ == right@),
{
    let m = left.len();
    if m != right.len() {
        return false;
    }
    let mut j: usize = 0;
    while j < m
        invariant
            j <= m,
            m == left@.len(),
            m == right@.len(),
            forall|c: int| 0 <= c < j ==> #[trigger] left@[c] == right@[c],
        decreases m - j,
    {
        if left[j] != right[j] {
            return false;
        }
        j = j + 1;
    }
    assert(left@ =~= right@);
    true
}

/// `coords` lists exactly the non-zero cells of `rows` that come before
/// `(r, c)` in row-major order, in that order.
pub open spec fn listed_until(rows: Rows, coords: Seq<(int, int)>, r: int, c: int) -> bool {
    &&& forall|k: int|
        0 <= k < coords.len() ==> cell(rows, (#[trigger] coords[k]).0, coords[k].1) != 0 && row_major_before(
            coords[k].0,
            coords[k].1,
            r,
            c,
        )
    &&& forall|j: int, k: int|
        0 <= j < k < coords.len() ==> row_major_before(
            (#[trigger] coords[j]).0,
            coords[j].1,
            (#[trigger] coords[k]).0,
            coords[k].1,
        )
    &&& forall|r2: int, c2: int| #[trigger]
        cell(rows, r2, c2) != 0 && row_major_before(r2, c2, r, c) ==> exists|k: int|
            0 <= k < coords.len() && #[trigger] coords[k] == (r2, c2)
}

proof fn lemma_listed_push(rows: Rows, coords: Seq<(int, int)>, r: int, c: int)
    requires
        listed_until(rows, coords, r, c),
        cell(rows, r, c) != 0,
    ensures
        listed_until(rows, coords.push((r, c)), r, c + 1),
{
    let next = coords.push((r, c));
    assert forall|r2: int, c2: int| #[trigger]
        cell(rows, r2, c2) != 0 && row_major_before(r2, c2, r, c + 1) implies exists|k: int|
        0 <= k < next.len() && #[trigger] next[k] == (r2, c2) by {
        if row_major_before(r2, c2, r, c) {
            let k = choose|k: int| 0 <= k < coords.len() && #[trigger] coords[k] == (r2, c2);
            assert(next[k] == (r2, c2));
        } else {
            assert(next[coords.len() as int] == (r2, c2));
        }
    }
}

proof fn lemma_listed_skip(rows: Rows, coords: Seq<(int, int)>, r: int, c: int)
    requires
        listed_until(rows, coords, r, c),
        cell(rows, r, c) == 0,
    ensures
        listed_until(rows, coords, r, c + 1),
{
    assert forall|r2: int, c2: int| #[trigger]
        cell(rows, r2, c2) != 0 && row_major_before(r2, c2, r, c + 1) implies exists|k: int|
        0 <= k < coords.len() && #[trigger] coords[k] == (r2, c2) by {
        assert(row_major_before(r2, c2, r, c));
    }
}

proof fn lemma_listed_next_row(rows: Rows, coords: Seq<(int, int)>, r: int, c: int)
    requires
        listed_until(rows, coords, r, c),
        0 <= r < rows.len(),
        match rows[r] {
            Some(row) => c == row.len(),
            None => c == 0,
        },
    ensures
        listed_until(rows, coords, r + 1, 0),
{
    assert forall|r2: int, c2: int| #[trigger]
        cell(rows, r2, c2) != 0 && row_major_before(r2, c2, r + 1, 0) implies exists|k: int|
        0 <= k < coords.len() && #[trigger] coords[k] == (r2, c2) by {
        assert(row_major_before(r2, c2, r, c));
    }
}

proof fn lemma_listed_all(rows: Rows, coords: Seq<(int, int)>, n: int)
    requires
        listed_until(rows, coords, n, 0),
        n == rows.len(),
    ensures
        lists_nonzero_cells(rows, coords),
{
    assert forall|r2: int, c2: int| #[trigger] cell(rows, r2, c2) != 0 implies exists|k: int|
        0 <= k < coords.len() && #[trigger] coords[k] == (r2, c2) by {
        assert(row_major_before(r2, c2, n, 0));
    }
}

/// A fresh row of `width` zeros.
fn zeros(width: usize) -> (row: Vec<u8>)
    ensures
        row@ == zero_row(width as nat),
{
    let mut row: Vec<u8> = Vec::new();
    let mut i: usize = 0;
    while i < width
        invariant
            i <= width,
            row@ =~= zero_row(i as nat),
        decreases width - i,
    {
        row.push(0u8);
        i = i + 1;
    }
    row
}

/// A copy of `row`.
fn copy_row(row: &Vec<u8>) -> (copy: Vec<u8>)
    ensures
        copy@ == row@,
{
    let mut copy: Vec<u8> = Vec::new();
    let mut i: usize = 0;
    while i < row.len()
        invariant
            i <= row@.len(),
            copy@ =~= row@.take(i as int),
        decreases row@.len() - i,
    {
        copy.push(row[i]);
        i = i + 1;
    }
    assert(row@.take(row@.len() as int) =~= row@);
    copy
}

/// XORs `right` into `left`, cell by cell.
fn xor_into_row(left: &mut Vec<u8>, right: &Vec<u8>)
    requires
        old(left)@.len() == right@.len(),
    ensures
        final(left)@ == Seq::new(right@.len(), |c: int| old(left)@[c] ^ right@[c]),
{
    let m = right.len();
    let mut j: usize = 0;
    while j < m
        invariant
            j <= m,
            m == right@.len(),
            left@.len() == m,
            forall|c: int| 0 <= c < j ==> #[trigger] left@[c] == old(left)@[c] ^ right@[c],
            forall|c: int| j <= c < m ==> #[trigger] left@[c] == old(left)@[c],
        decreases m - j,
    {
        left[j] = left[j] ^ right[j];
        j = j + 1;
    }
    assert(left@ =~= Seq::new(right@.len(), |c: int| old(left)@[c] ^ right@[c]));
}

/// Whether `x` has two or more bits set.
fn has_collision(x: u8) -> (b: bool)
    ensures
        b == is_collision(x),
{
    if x == 0 {
        assert(!is_collision(0u8)) by (bit_vector);
        false
    } else {
        let below = x - 1;
        assert(((x & below) != 0) == is_collision(x)) by (bit_vector)
            requires
                x != 0,
                below == x - 1,
        ;
        (x & below) != 0
    }
}

/// Collision reduction of one row.
fn reduce_row(row: &mut Vec<u8>)
    ensures
        final(row)@ == Seq::new(old(row)@.len(), |c: int| reduce_cell(old(row)@[c])),
{
    let m = row.len();
    let mut j: usize = 0;
    while j < m
        invariant
            j <= m,
            row@.len() == m,
            m == old(row)@.len(),
            forall|c: int| 0 <= c < j ==> #[trigger] row@[c] == reduce_cell(old(row)@[c]),
            forall|c: int| j <= c < m ==> #[trigger] row@[c] == old(row)@[c],
        decreases m - j,
    {
        let x = row[j];
        if has_collision(x) {
            row[j] = 0;
        }
        j = j + 1;
    }
    assert(row@ =~= Seq::new(old(row)@.len(), |c: int| reduce_cell(old(row)@[c])));
}

/// `rows` has `height` rows, each allocated one `width` cells wide.
pub open spec fn has_shape(rows: Rows, height: nat, width: nat) -> bool {
    rows.len() == height && rows_have_width(rows, width)
}

/// A point write changes the written cell and no other, and keeps the shape.
pub proof fn write_at_changes_one_cell(rows: Rows, height: nat, width: nat, r0: int, c0: int, v: u8)
    requires
        has_shape(rows, height, width),
    ensures
        has_shape(write_at(rows, height, width, r0, c0, v), height, width),
        forall|r: int, c: int| #[trigger]
            cell(write_at(rows, height, width, r0, c0, v), r, c) == if r == r0 && c == c0 && 0 <= r0 < height && 0
                <= c0 < width {
                v
            } else {
                cell(rows, r, c)
            },
{
    let after = write_at(rows, height, width, r0, c0, v);
    assert forall|r: int| 0 <= r < after.len() && (#[trigger] after[r]) is Some implies after[r].unwrap().len()
        == width by {
        if r != r0 {
            assert(after[r] == rows[r]);
        }
    }
}

/// The XOR composition of two grids of one shape holds, in every cell, the
/// XOR of the two cells, and has the same shape.
pub proof fn xor_rows_is_cellwise(a: Rows, b: Rows, height: nat, width: nat)
    requires
        has_shape(a, height, width),
        has_shape(b, height, width),
    ensures
        has_shape(xor_rows(a, b, width), height, width),
        forall|r: int, c: int| #[trigger] cell(xor_rows(a, b, width), r, c) == cell(a, r, c) ^ cell(b, r, c),
{
    let x = xor_rows(a, b, width);
    assert forall|r: int| 0 <= r < x.len() && (#[trigger] x[r]) is Some implies x[r].unwrap().len() == width by {
        if b[r] is None {
            assert(a[r] is Some);
        }
    }
    assert forall|r: int, c: int| #[trigger] cell(x, r, c) == cell(a, r, c) ^ cell(b, r, c) by {
        let left = cell(a, r, c);
        let right = cell(b, r, c);
        assert(left ^ 0u8 == left) by (bit_vector);
        assert(0u8 ^ right == right) by (bit_vector);
        if 0 <= r < height && 0 <= c < width {
            if a[r] is Some {
                assert(a[r].unwrap().len() == width);
            }
            if b[r] is Some {
                assert(b[r].unwrap().len() == width);
            }
        } else if 0 <= r < height {
            if a[r] is Some {
                assert(a[r].unwrap().len() == width);
            }
            if b[r] is Some {
                assert(b[r].unwrap().len() == width);
            }
        }
    }
}

/// Collision reduction works cell by cell and keeps the shape.
pub proof fn reduce_rows_is_cellwise(rows: Rows)
    ensures
        reduce_rows(rows).len() == rows.len(),
        forall|width: nat| rows_have_width(rows, width) ==> rows_have_width(reduce_rows(rows), width),
        forall|r: int, c: int| #[trigger] cell(reduce_rows(rows), r, c) == reduce_cell(cell(rows, r, c)),
{
    assert(!is_collision(0u8)) by (bit_vector);
    let after = reduce_rows(rows);
    assert forall|width: nat| rows_have_width(rows, width) implies rows_have_width(after, width) by {
        assert forall|r: int| 0 <= r < after.len() && (#[trigger] after[r]) is Some implies after[r].unwrap().len()
            == width by {
            assert(rows[r] is Some);
        }
    }
}

/// Collision reduction applied twice yields the same grid as applied once.
pub proof fn reduce_rows_is_idempotent(rows: Rows)
    ensures
        reduce_rows(reduce_rows(rows)) == reduce_rows(rows),
{
    assert(!is_collision(0u8)) by (bit_vector);
    let once = reduce_rows(rows);
    let twice = reduce_rows(once);
    assert forall|r: int| 0 <= r < rows.len() implies #[trigger] twice[r] == once[r] by {
        if rows[r] is Some {
            assert(twice[r].unwrap() =~= once[r].unwrap());
        }
    }
    assert(twice =~= once);
}

} // verus!

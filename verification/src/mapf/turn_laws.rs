//! What holds of every turn, whatever the map and the position.

use crate::deps::sparse::{
    cell, has_shape, reduce_cell, reduce_rows_is_cellwise, write_at_changes_one_cell, xor_at, xor_rows,
    xor_rows_is_cellwise, Rows,
};
use crate::mapf::action::{neighbor, MAPFAction};
use crate::mapf::definition::MAPFDefinition;
use crate::mapf::environment::{legal_actions, moves_from, moves_in_row, moves_in_rows, opponent, step};
use crate::mapf::state::StateView;
use vstd::prelude::*;

verus! {

/// The three planes of `state` have `height` rows of `width` cells.
pub open spec fn fits(state: StateView, height: nat, width: nat) -> bool {
    &&& has_shape(state.units_begin, height, width)
    &&& has_shape(state.units_available, height, width)
    &&& has_shape(state.units_moved, height, width)
}

/// `state` stands at a turn boundary: nothing has moved yet.
pub open spec fn at_turn_start(state: StateView) -> bool {
    &&& forall|r: int, c: int| #[trigger] cell(state.units_moved, r, c) == 0
    &&& forall|r: int, c: int| #[trigger] cell(state.units_available, r, c) == cell(state.units_begin, r, c)
}

/// XOR-ing one value into a cell changes that cell and no other, and keeps
/// the shape.
pub proof fn xor_at_changes_one_cell(rows: Rows, height: nat, width: nat, r0: int, c0: int, val: u8)
    requires
        has_shape(rows, height, width),
    ensures
        has_shape(xor_at(rows, height, width, r0, c0, val), height, width),
        forall|r: int, c: int| #[trigger]
            cell(xor_at(rows, height, width, r0, c0, val), r, c) == if r == r0 && c == c0 && 0 <= r0 < height && 0
                <= c0 < width {
                cell(rows, r, c) ^ val
            } else {
                cell(rows, r, c)
            },
{
    write_at_changes_one_cell(rows, height, width, r0, c0, cell(rows, r0, c0) ^ val);
}

/// Every action leads from a valid position of a shape to a valid position
/// of that shape.
pub proof fn step_keeps_valid(state: StateView, action: MAPFAction, height: nat, width: nat)
    requires
        state.valid(),
        fits(state, height, width),
    ensures
        step(state, action, height, width).valid(),
        fits(step(state, action, height, width), height, width),
{
    let next = step(state, action, height, width);
    let p = state.playing;
    match action {
        MAPFAction::Move(from, to) => {
            xor_at_changes_one_cell(state.units_available, height, width, from.0 as int, from.1 as int, p);
            xor_at_changes_one_cell(state.units_moved, height, width, to.0 as int, to.1 as int, p);
            assert forall|r: int, c: int| #[trigger] cell(next.units_available, r, c) < 4 by {
                let old = cell(state.units_available, r, c);
                assert(old < 4 && (p == 1 || p == 2) ==> (old ^ p) < 4) by (bit_vector);
            }
            assert forall|r: int, c: int| #[trigger] cell(next.units_moved, r, c) < 4 by {
                let old = cell(state.units_moved, r, c);
                assert(old < 4 && (p == 1 || p == 2) ==> (old ^ p) < 4) by (bit_vector);
            }
        },
        MAPFAction::Commit => {
            let merged = xor_rows(state.units_available, state.units_moved, width);
            xor_rows_is_cellwise(state.units_available, state.units_moved, height, width);
            reduce_rows_is_cellwise(merged);
            assert forall|r: int, c: int| #[trigger] cell(next.units_begin, r, c) <= 2 by {
                let a = cell(state.units_available, r, c);
                let m = cell(state.units_moved, r, c);
                assert(cell(merged, r, c) == a ^ m);
                assert(a < 4 && m < 4 ==> reduce_cell(a ^ m) <= 2) by (bit_vector);
            }
            assert forall|r: int, c: int| #[trigger] cell(next.units_moved, r, c) < 4 by {}
        },
    }
}

/// Moving a unit to a neighbour and straight back within one turn leaves no
/// trace at commit: the committed board is, cell by cell, what it would be
/// without the two moves. Where the two moves open the turn of a valid
/// position, every unit therefore stands after the commit where it stood
/// when the turn began.
pub proof fn move_and_back_cancels(
    state: StateView,
    from: (usize, usize),
    to: (usize, usize),
    height: nat,
    width: nat,
)
    requires
        fits(state, height, width),
    ensures
        ({
            let there = step(state, MAPFAction::Move(from, to), height, width);
            let back = step(there, MAPFAction::Move(to, from), height, width);
            let committed = step(back, MAPFAction::Commit, height, width);
            let plain = step(state, MAPFAction::Commit, height, width);
            &&& committed.playing == plain.playing
            &&& committed.units_moved == plain.units_moved
            &&& forall|r: int, c: int| #[trigger]
                cell(committed.units_begin, r, c) == cell(plain.units_begin, r, c)
            &&& forall|r: int, c: int| #[trigger]
                cell(committed.units_available, r, c) == cell(plain.units_available, r, c)
            &&& state.valid() && at_turn_start(state) ==> forall|r: int, c: int| #[trigger]
                cell(committed.units_begin, r, c) == cell(state.units_begin, r, c)
        }),
{
    let p = state.playing;
    let there = step(state, MAPFAction::Move(from, to), height, width);
    let back = step(there, MAPFAction::Move(to, from), height, width);
    let committed = step(back, MAPFAction::Commit, height, width);
    let plain = step(state, MAPFAction::Commit, height, width);
    xor_at_changes_one_cell(state.units_available, height, width, from.0 as int, from.1 as int, p);
    xor_at_changes_one_cell(state.units_moved, height, width, to.0 as int, to.1 as int, p);
    xor_at_changes_one_cell(there.units_available, height, width, to.0 as int, to.1 as int, p);
    xor_at_changes_one_cell(there.units_moved, height, width, from.0 as int, from.1 as int, p);
    xor_rows_is_cellwise(back.units_available, back.units_moved, height, width);
    xor_rows_is_cellwise(state.units_available, state.units_moved, height, width);
    let folded = xor_rows(back.units_available, back.units_moved, width);
    let plainly = xor_rows(state.units_available, state.units_moved, width);
    reduce_rows_is_cellwise(folded);
    reduce_rows_is_cellwise(plainly);
    assert forall|r: int, c: int| #[trigger] cell(folded, r, c) == cell(plainly, r, c) by {
        let a = cell(state.units_available, r, c);
        let m = cell(state.units_moved, r, c);
        assert(((a ^ p) ^ p) ^ ((m ^ p) ^ p) == a ^ m) by (bit_vector);
        assert((a ^ p) ^ (m ^ p) == a ^ m) by (bit_vector);
        assert(cell(there.units_available, r, c) == a || cell(there.units_available, r, c) == a ^ p);
        assert(cell(there.units_moved, r, c) == m || cell(there.units_moved, r, c) == m ^ p);
    }
    assert forall|r: int, c: int| #[trigger]
        cell(committed.units_begin, r, c) == cell(plain.units_begin, r, c) by {
        assert(cell(folded, r, c) == cell(plainly, r, c));
    }
    if state.valid() && at_turn_start(state) {
        assert forall|r: int, c: int| #[trigger]
            cell(committed.units_begin, r, c) == cell(state.units_begin, r, c) by {
            let b = cell(state.units_begin, r, c);
            assert(cell(state.units_available, r, c) == b);
            assert(cell(state.units_moved, r, c) == 0);
            assert(cell(plainly, r, c) == b ^ 0u8);
            assert(cell(committed.units_begin, r, c) == cell(plain.units_begin, r, c));
            assert(b <= 2 ==> reduce_cell(b ^ 0u8) == b) by (bit_vector);
        }
    }
}

/// A unit that arrives on a cell which the other player holds at commit
/// collides with it: after the commit the cell is empty, so both occupants
/// are off the board. The mover, if it left a cell of its own that nothing
/// has entered, is gone from there too.
pub proof fn collision_clears_cell(
    state: StateView,
    from: (usize, usize),
    to: (usize, usize),
    height: nat,
    width: nat,
)
    requires
        fits(state, height, width),
        state.playing == 1 || state.playing == 2,
        to.0 < height,
        to.1 < width,
        from != to,
        cell(state.units_available, to.0 as int, to.1 as int) ^ cell(state.units_moved, to.0 as int, to.1 as int)
            == opponent(state.playing),
    ensures
        ({
            let committed = step(
                step(state, MAPFAction::Move(from, to), height, width),
                MAPFAction::Commit,
                height,
                width,
            );
            &&& cell(committed.units_begin, to.0 as int, to.1 as int) == 0
            &&& cell(committed.units_available, to.0 as int, to.1 as int) == 0
            &&& from.0 < height && from.1 < width && cell(state.units_available, from.0 as int, from.1 as int)
                == state.playing && cell(state.units_moved, from.0 as int, from.1 as int) == 0 ==> cell(
                committed.units_begin,
                from.0 as int,
                from.1 as int,
            ) == 0
        }),
{
    let p = state.playing;
    let moved = step(state, MAPFAction::Move(from, to), height, width);
    xor_at_changes_one_cell(state.units_available, height, width, from.0 as int, from.1 as int, p);
    xor_at_changes_one_cell(state.units_moved, height, width, to.0 as int, to.1 as int, p);
    xor_rows_is_cellwise(moved.units_available, moved.units_moved, height, width);
    let folded = xor_rows(moved.units_available, moved.units_moved, width);
    reduce_rows_is_cellwise(folded);
    let a = cell(state.units_available, to.0 as int, to.1 as int);
    let m = cell(state.units_moved, to.0 as int, to.1 as int);
    assert(cell(moved.units_available, to.0 as int, to.1 as int) == a);
    assert(cell(moved.units_moved, to.0 as int, to.1 as int) == m ^ p);
    assert(cell(folded, to.0 as int, to.1 as int) == a ^ (m ^ p));
    assert(((p == 1 && a ^ m == 2) || (p == 2 && a ^ m == 1)) ==> reduce_cell(a ^ (m ^ p)) == 0) by (bit_vector);
    if from.0 < height && from.1 < width && cell(state.units_available, from.0 as int, from.1 as int) == p && cell(
        state.units_moved,
        from.0 as int,
        from.1 as int,
    ) == 0 {
        assert(cell(moved.units_available, from.0 as int, from.1 as int) == p ^ p);
        assert(cell(moved.units_moved, from.0 as int, from.1 as int) == 0);
        assert(cell(folded, from.0 as int, from.1 as int) == (p ^ p) ^ 0u8);
        assert(reduce_cell((p ^ p) ^ 0u8) == 0) by (bit_vector);
    }
}

/// `action` is a step of a unit of `playing` that stands at its departure
/// cell in `available`: it leads to an orthogonal neighbour that is on the
/// map and no obstacle.
pub open spec fn is_step(definition: &MAPFDefinition, available: Rows, playing: u8, action: MAPFAction) -> bool {
    action matches MAPFAction::Move(from, to) && {
        &&& 0 <= from.0 < available.len()
        &&& available[from.0 as int] matches Some(row) && from.1 < row.len() && row[from.1 as int] == playing
        &&& exists|dir: int| 0 <= dir < 4 && #[trigger] neighbor(from.0 as int, from.1 as int, dir) == (to.0 as int, to.1 as int)
        &&& definition.passable(to.0 as int, to.1 as int)
    }
}

proof fn lemma_moves_from_are_steps(definition: &MAPFDefinition, r: int, c: int, dirs: int, i: int)
    requires
        0 <= r <= usize::MAX,
        0 <= c <= usize::MAX,
        dirs <= 4,
        0 <= i < moves_from(definition, r, c, dirs).len(),
    ensures
        moves_from(definition, r, c, dirs)[i] matches MAPFAction::Move(from, to) && {
            &&& from == (r as usize, c as usize)
            &&& exists|dir: int| 0 <= dir < 4 && #[trigger] neighbor(r, c, dir) == (to.0 as int, to.1 as int)
            &&& definition.passable(to.0 as int, to.1 as int)
        },
    decreases dirs,
{
    if dirs > 0 {
        let earlier = moves_from(definition, r, c, dirs - 1);
        let to = neighbor(r, c, dirs - 1);
        if i < earlier.len() {
            lemma_moves_from_are_steps(definition, r, c, dirs - 1, i);
        } else {
            assert(definition.passable(to.0, to.1));
            assert(neighbor(r, c, dirs - 1) == (to.0 as usize as int, to.1 as usize as int));
        }
    }
}

proof fn lemma_moves_in_row_are_steps(
    definition: &MAPFDefinition,
    row: Seq<u8>,
    playing: u8,
    r: int,
    cols: int,
    i: int,
)
    requires
        0 <= r <= usize::MAX,
        cols <= row.len() <= usize::MAX,
        0 <= i < moves_in_row(definition, row, playing, r, cols).len(),
    ensures
        moves_in_row(definition, row, playing, r, cols)[i] matches MAPFAction::Move(from, to) && {
            &&& from.0 == r
            &&& from.1 < cols
            &&& row[from.1 as int] == playing
            &&& exists|dir: int| 0 <= dir < 4 && #[trigger] neighbor(r, from.1 as int, dir) == (to.0 as int, to.1 as int)
            &&& definition.passable(to.0 as int, to.1 as int)
        },
    decreases cols,
{
    if cols > 0 {
        let before = moves_in_row(definition, row, playing, r, cols - 1);
        if i < before.len() {
            lemma_moves_in_row_are_steps(definition, row, playing, r, cols - 1, i);
        } else {
            lemma_moves_from_are_steps(definition, r, cols - 1, 4, i - before.len());
        }
    }
}

proof fn lemma_moves_in_rows_are_steps(definition: &MAPFDefinition, available: Rows, playing: u8, n: int, i: int)
    requires
        n <= available.len() <= usize::MAX,
        forall|r: int| 0 <= r < available.len() && (#[trigger] available[r]) is Some ==> available[r].unwrap().len()
            <= usize::MAX,
        0 <= i < moves_in_rows(definition, available, playing, n).len(),
    ensures
        is_step(definition, available, playing, moves_in_rows(definition, available, playing, n)[i]),
        moves_in_rows(definition, available, playing, n)[i] matches MAPFAction::Move(from, to) && from.0 < n,
    decreases n,
{
    if n > 0 {
        let above = moves_in_rows(definition, available, playing, n - 1);
        if i < above.len() {
            lemma_moves_in_rows_are_steps(definition, available, playing, n - 1, i);
        } else {
            let row = available[n - 1].unwrap();
            lemma_moves_in_row_are_steps(definition, row, playing, n - 1, row.len() as int, i - above.len());
            let action = moves_in_rows(definition, available, playing, n)[i];
            let from = action->Move_0;
            let to = action->Move_1;
            let dir = choose|dir: int| 0 <= dir < 4 && #[trigger] neighbor(n - 1, from.1 as int, dir) == (to.0 as int, to.1 as int);
            assert(neighbor(from.0 as int, from.1 as int, dir) == (to.0 as int, to.1 as int));
        }
    }
}

/// The list of legal actions holds nothing but steps of units of the player
/// to move that have not moved yet, and then `Commit`, which is its last
/// entry and no other.
pub proof fn legal_actions_are_steps_then_commit(definition: &MAPFDefinition, state: StateView, height: nat, width: nat)
    requires
        has_shape(state.units_available, height, width),
        height <= usize::MAX,
        width <= usize::MAX,
    ensures
        ({
            let listed = legal_actions(definition, state);
            &&& listed.len() > 0
            &&& listed.last() == MAPFAction::Commit
            &&& forall|i: int|
                0 <= i < listed.len() - 1 ==> is_step(
                    definition,
                    state.units_available,
                    state.playing,
                    #[trigger] listed[i],
                )
        }),
{
    let listed = legal_actions(definition, state);
    let n = state.units_available.len() as int;
    assert forall|i: int| 0 <= i < listed.len() - 1 implies is_step(
        definition,
        state.units_available,
        state.playing,
        #[trigger] listed[i],
    ) by {
        lemma_moves_in_rows_are_steps(definition, state.units_available, state.playing, n, i);
    }
}

proof fn lemma_step_is_among_moves_from(definition: &MAPFDefinition, r: int, c: int, dirs: int, dir: int)
    requires
        0 <= dir < dirs <= 4,
        definition.passable(neighbor(r, c, dir).0, neighbor(r, c, dir).1),
    ensures
        moves_from(definition, r, c, dirs).contains(
            MAPFAction::Move((r as usize, c as usize), (neighbor(r, c, dir).0 as usize, neighbor(r, c, dir).1 as usize)),
        ),
    decreases dirs,
{
    let listed = moves_from(definition, r, c, dirs);
    let earlier = moves_from(definition, r, c, dirs - 1);
    let wanted = MAPFAction::Move(
        (r as usize, c as usize),
        (neighbor(r, c, dir).0 as usize, neighbor(r, c, dir).1 as usize),
    );
    if dir == dirs - 1 {
        assert(listed[listed.len() - 1] == wanted);
    } else {
        lemma_step_is_among_moves_from(definition, r, c, dirs - 1, dir);
        let i = choose|i: int| 0 <= i < earlier.len() && earlier[i] == wanted;
        assert(listed[i] == wanted);
    }
}

proof fn lemma_step_is_among_moves_in_row(
    definition: &MAPFDefinition,
    row: Seq<u8>,
    playing: u8,
    r: int,
    cols: int,
    c: int,
    action: MAPFAction,
)
    requires
        0 <= c < cols <= row.len(),
        row[c] == playing,
        moves_from(definition, r, c, 4).contains(action),
    ensures
        moves_in_row(definition, row, playing, r, cols).contains(action),
    decreases cols,
{
    let listed = moves_in_row(definition, row, playing, r, cols);
    let before = moves_in_row(definition, row, playing, r, cols - 1);
    if c == cols - 1 {
        let here = moves_from(definition, r, c, 4);
        let i = choose|i: int| 0 <= i < here.len() && here[i] == action;
        assert(listed[before.len() + i] == action);
    } else {
        lemma_step_is_among_moves_in_row(definition, row, playing, r, cols - 1, c, action);
        let i = choose|i: int| 0 <= i < before.len() && before[i] == action;
        assert(listed[i] == action);
    }
}

proof fn lemma_step_is_among_moves_in_rows(
    definition: &MAPFDefinition,
    available: Rows,
    playing: u8,
    n: int,
    r: int,
    action: MAPFAction,
)
    requires
        0 <= r < n <= available.len(),
        available[r] matches Some(row) && moves_in_row(definition, row, playing, r, row.len() as int).contains(action),
    ensures
        moves_in_rows(definition, available, playing, n).contains(action),
    decreases n,
{
    let listed = moves_in_rows(definition, available, playing, n);
    let above = moves_in_rows(definition, available, playing, n - 1);
    if r == n - 1 {
        let row = available[r].unwrap();
        let here = moves_in_row(definition, row, playing, r, row.len() as int);
        let i = choose|i: int| 0 <= i < here.len() && here[i] == action;
        assert(listed[above.len() + i] == action);
    } else {
        lemma_step_is_among_moves_in_rows(definition, available, playing, n - 1, r, action);
        let i = choose|i: int| 0 <= i < above.len() && above[i] == action;
        assert(listed[i] == action);
    }
}

/// Every step of a unit of the player to move that has not moved yet is
/// among the legal actions.
pub proof fn every_step_is_legal(definition: &MAPFDefinition, state: StateView, action: MAPFAction)
    requires
        is_step(definition, state.units_available, state.playing, action),
    ensures
        legal_actions(definition, state).contains(action),
{
    let from = action->Move_0;
    let to = action->Move_1;
    let r = from.0 as int;
    let c = from.1 as int;
    let row = state.units_available[r].unwrap();
    let dir = choose|dir: int| 0 <= dir < 4 && #[trigger] neighbor(r, c, dir) == (to.0 as int, to.1 as int);
    lemma_step_is_among_moves_from(definition, r, c, 4, dir);
    lemma_step_is_among_moves_in_row(definition, row, state.playing, r, row.len() as int, c, action);
    let n = state.units_available.len() as int;
    lemma_step_is_among_moves_in_rows(definition, state.units_available, state.playing, n, r, action);
    let moves = moves_in_rows(definition, state.units_available, state.playing, n);
    let i = choose|i: int| 0 <= i < moves.len() && moves[i] == action;
    assert(legal_actions(definition, state)[i] == action);
}

} // verus!

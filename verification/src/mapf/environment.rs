//! The turn engine: legal actions, their effect, and who has won.

use crate::deps::sparse::{
    cell, count_cells, count_in_row, count_in_rows, empty_rows, held_by, is_blank, reduce_rows, xor_at, xor_rows,
    Rows,
    SparseMatrix2D,
};
use crate::deps::state_definition::StateStatus;
use crate::mapf::action::{neighbor, neighbor_in, MAPFAction};
use crate::mapf::definition::{share, MAPFDefinition};
use crate::mapf::state::{cells_are_owners, MAPFState, SpecialState, StateView};
use crate::mapf::turn_laws::step_keeps_valid;
use std::sync::Arc;
use vstd::prelude::*;

verus! {

/// The moves of the unit at `(r, c)` in the first `dirs` directions, in
/// direction order: one for each neighbour that is on the map and no
/// obstacle.
pub open spec fn moves_from(definition: &MAPFDefinition, r: int, c: int, dirs: int) -> Seq<MAPFAction>
    decreases dirs,
{
    if dirs <= 0 {
        Seq::empty()
    } else {
        let earlier = moves_from(definition, r, c, dirs - 1);
        let to = neighbor(r, c, dirs - 1);
        if definition.passable(to.0, to.1) {
            earlier.push(MAPFAction::Move((r as usize, c as usize), (to.0 as usize, to.1 as usize)))
        } else {
            earlier
        }
    }
}

/// The moves of the units of `playing` in the first `cols` cells of `row`,
/// which is row `r`, from left to right.
pub open spec fn moves_in_row(
    definition: &MAPFDefinition,
    row: Seq<u8>,
    playing: u8,
    r: int,
    cols: int,
) -> Seq<MAPFAction>
    decreases cols,
{
    if cols <= 0 {
        Seq::empty()
    } else {
        moves_in_row(definition, row, playing, r, cols - 1) + if row[cols - 1] == playing {
            moves_from(definition, r, cols - 1, 4)
        } else {
            Seq::empty()
        }
    }
}

/// The moves of the units of `playing` in the first `n` rows of
/// `available`, from top to bottom.
pub open spec fn moves_in_rows(definition: &MAPFDefinition, available: Rows, playing: u8, n: int) -> Seq<
    MAPFAction,
>
    decreases n,
{
    if n <= 0 {
        Seq::empty()
    } else {
        moves_in_rows(definition, available, playing, n - 1) + match available[n - 1] {
            Some(row) => moves_in_row(definition, row, playing, n - 1, row.len() as int),
            None => Seq::empty(),
        }
    }
}

/// The legal actions of a position: every move of a unit of the player to
/// move that has not moved yet, in row-major order of the units and then in
/// direction order, and `Commit` last.
pub open spec fn legal_actions(definition: &MAPFDefinition, state: StateView) -> Seq<MAPFAction> {
    moves_in_rows(definition, state.units_available, state.playing, state.units_available.len() as int).push(
        MAPFAction::Commit,
    )
}

/// The other player.
pub open spec fn opponent(playing: u8) -> u8 {
    if playing == 1 {
        2
    } else {
        1
    }
}

/// The position after `action`, on a map of `height` by `width` cells.
///
/// A move XORs the mover into the departure cell of the available plane
/// and into the arrival cell of the moved plane. A commit folds the two
/// planes by XOR, removes every collision, starts the next turn from the
/// result and hands the move to the other player.
pub open spec fn step(state: StateView, action: MAPFAction, height: nat, width: nat) -> StateView {
    match action {
        MAPFAction::Move(from, to) => StateView {
            units_begin: state.units_begin,
            units_available: xor_at(
                state.units_available,
                height,
                width,
                from.0 as int,
                from.1 as int,
                state.playing,
            ),
            units_moved: xor_at(state.units_moved, height, width, to.0 as int, to.1 as int, state.playing),
            playing: state.playing,
        },
        MAPFAction::Commit => {
            let board = reduce_rows(xor_rows(state.units_available, state.units_moved, width));
            StateView {
                units_begin: board,
                units_available: board,
                units_moved: empty_rows(height),
                playing: opponent(state.playing),
            }
        },
    }
}

/// Selects the cells on which a unit of player `p` stands on a goal of
/// player `p`.
pub open spec fn home_of(goals: Rows, p: u8) -> spec_fn(int, int, u8) -> bool {
    |r: int, c: int, v: u8| v == p && cell(goals, r, c) == p
}

/// The number of units of player `p` on `board`.
pub open spec fn alive(board: Rows, p: u8) -> nat {
    count_cells(board, held_by(p))
}

/// The number of goals of player `p` on which one of its units stands.
pub open spec fn goals_achieved(board: Rows, goals: Rows, p: u8) -> nat {
    count_cells(board, home_of(goals, p))
}

/// The outcome of a position with the given numbers of units alive and of
/// goals achieved and required, per player.
///
/// A player wins by standing on all of its goals, of which there must be
/// one at least; player 1 is asked first. Failing that, a player whose
/// opponent has no unit left wins. Failing that, the game is drawn where
/// neither player has a goal left to achieve, and runs on otherwise.
pub open spec fn verdict(alive1: nat, alive2: nat, achieved1: nat, achieved2: nat, goals_num: Seq<u64>) -> StateStatus {
    if achieved1 == goals_num[1] && goals_num[1] > 0 {
        StateStatus::Winner(1)
    } else if achieved2 == goals_num[2] && goals_num[2] > 0 {
        StateStatus::Winner(2)
    } else if alive1 == 0 {
        StateStatus::Winner(2)
    } else if alive2 == 0 {
        StateStatus::Winner(1)
    } else if achieved1 >= goals_num[1] && achieved2 >= goals_num[2] {
        StateStatus::Draw
    } else {
        StateStatus::Running
    }
}

/// The outcome of a position on a map with the given goals: running in
/// mid-turn, otherwise the verdict on the board at turn start.
pub open spec fn status_of(state: StateView, goals: Rows, goals_num: Seq<u64>) -> StateStatus {
    if !is_blank(state.units_moved) {
        StateStatus::Running
    } else {
        verdict(
            alive(state.units_begin, 1),
            alive(state.units_begin, 2),
            goals_achieved(state.units_begin, goals, 1),
            goals_achieved(state.units_begin, goals, 2),
            goals_num,
        )
    }
}

/// The rules of the game on one map.
pub struct MAPFEnvironment {
    pub definition: Arc<MAPFDefinition>,
}

impl MAPFEnvironment {
    /// `state` is a position of this game: it is played on this map and its
    /// planes have the map's shape.
    pub open spec fn owns(&self, state: &MAPFState) -> bool {
        state.definition == self.definition && state.wf()
    }

    /// The position before the first move: every unit at its starting cell
    /// and free to move, nothing moved, player 1 to move.
    pub fn get_initial_state(&self) -> (state: MAPFState)
        requires
            self.definition.wf(),
        ensures
            state@.units_begin == self.definition.starting_positions@,
            state@.units_available == self.definition.starting_positions@,
            state@.units_moved == empty_rows(self.definition.shape.0 as nat),
            state@.playing == 1,
            state@ == self.definition.starting_state(),
            state.special_state == SpecialState::No,
            self.owns(&state),
            cells_are_owners(self.definition.starting_positions@) ==> state@.valid(),
    {
        proof {
            assert forall|r: int, c: int| #[trigger]
                cell(empty_rows(self.definition.shape.0 as nat), r, c) < 4 by {}
        }
        MAPFState {
            definition: share(&self.definition),
            units_begin: self.definition.starting_positions.clone(),
            units_available: self.definition.starting_positions.clone(),
            units_moved: SparseMatrix2D::new(self.definition.shape.0, self.definition.shape.1),
            playing: 1,
            special_state: SpecialState::No,
        }
    }

    /// The legal actions of `state`, `Commit` last.
    pub fn get_actions(&self, state: &MAPFState) -> (actions: Arc<Vec<MAPFAction>>)
        ensures
            actions@ == legal_actions(&*self.definition, state@),
            actions@.len() > 0,
            actions@.last() == MAPFAction::Commit,
    {
        let mut actions: Vec<MAPFAction> = Vec::new();
        let ghost definition = &*self.definition;
        let ghost available = state.units_available@;
        let n = state.units_available.data.len();
        let mut i: usize = 0;
        while i < n
            invariant
                i <= n,
                n == state.units_available.data@.len(),
                available == state.units_available@,
                definition == &*self.definition,
                actions@ == moves_in_rows(definition, available, state.playing, i as int),
            decreases n - i,
        {
            let ghost above = actions@;
            match &state.units_available.data[i] {
                Some(row) => {
                    assert(available[i as int] == Some(row@));
                    let m = row.len();
                    let mut j: usize = 0;
                    while j < m
                        invariant
                            j <= m,
                            m == row@.len(),
                            definition == &*self.definition,
                            actions@ == above + moves_in_row(definition, row@, state.playing, i as int, j as int),
                        decreases m - j,
                    {
                        let ghost left = actions@;
                        if row[j] == state.playing {
                            let mut dir: u8 = 0;
                            while dir < 4
                                invariant
                                    dir <= 4,
                                    j < m,
                                    m == row@.len(),
                                    definition == &*self.definition,
                                    actions@ == left + moves_from(definition, i as int, j as int, dir as int),
                                decreases 4 - dir,
                            {
                                match neighbor_in(i, j, dir, self.definition.shape) {
                                    Some((na0, na1)) => {
                                        let obstacle = self.definition.obstacles.get(na0, na1);
                                        let blocked = match obstacle {
                                            Some(v) => v != 0,
                                            None => false,
                                        };
                                        if !blocked {
                                            actions.push(MAPFAction::Move((i, j), (na0, na1)));
                                        }
                                    },
                                    None => {},
                                }
                                dir = dir + 1;
                                assert(actions@ =~= left + moves_from(definition, i as int, j as int, dir as int));
                            }
                        }
                        j = j + 1;
                        assert(actions@ =~= above + moves_in_row(
                            definition,
                            row@,
                            state.playing,
                            i as int,
                            j as int,
                        ));
                    }
                },
                None => {},
            }
            i = i + 1;
            assert(actions@ =~= moves_in_rows(definition, available, state.playing, i as int));
        }
        actions.push(MAPFAction::Commit);
        assert(available.len() == n);
        Arc::new(actions)
    }

    /// The position after `a`.
    pub fn next(&self, s: &MAPFState, a: &MAPFAction) -> (next: MAPFState)
        requires
            self.owns(s),
        ensures
            next@ == step(s@, *a, self.definition.shape.0 as nat, self.definition.shape.1 as nat),
            next.special_state == SpecialState::No,
            self.owns(&next),
            s@.valid() ==> next@.valid(),
    {
        proof {
            if s@.valid() {
                step_keeps_valid(s@, *a, self.definition.shape.0 as nat, self.definition.shape.1 as nat);
            }
        }
        match a {
            MAPFAction::Commit => {
                let mut next_starting_pos = s.units_available.xor(&s.units_moved);
                next_starting_pos.bit_reduce_inline();
                MAPFState {
                    definition: share(&s.definition),
                    units_begin: next_starting_pos.clone(),
                    units_available: next_starting_pos,
                    units_moved: SparseMatrix2D::new_by_shape(self.definition.shape),
                    playing: if s.playing == 1 {
                        2
                    } else {
                        1
                    },
                    special_state: SpecialState::No,
                }
            },
            MAPFAction::Move(stage1, stage2) => {
                let mut stage1_positions = s.units_available.clone();
                stage1_positions.xor_inline_by_idx(stage1.0, stage1.1, s.playing);
                let mut stage2_positions = s.units_moved.clone();
                stage2_positions.xor_inline_by_idx(stage2.0, stage2.1, s.playing);
                MAPFState {
                    definition: share(&self.definition),
                    units_begin: s.units_begin.clone(),
                    units_available: stage1_positions,
                    units_moved: stage2_positions,
                    playing: s.playing,
                    special_state: SpecialState::No,
                }
            },
        }
    }

    /// Who has won, if anybody. In mid-turn the game counts as running.
    pub fn get_status(&self, s: &MAPFState) -> (status: StateStatus)
        requires
            s.wf(),
        ensures
            status == status_of(s@, s.definition.goals@, s.definition.goals_num@),
    {
        if !s.units_moved.is_blank() {
            return StateStatus::Running;
        }
        let mut alive1: u128 = 0;
        let mut alive2: u128 = 0;
        let mut achieved1: u128 = 0;
        let mut achieved2: u128 = 0;
        let ghost board = s.units_begin@;
        let ghost goals = s.definition.goals@;
        let ghost width = s.units_begin.shape.1 as int;
        let n = s.units_begin.data.len();
        assert(n * width <= 0xffff_ffff_ffff_ffff * 0xffff_ffff_ffff_ffff) by (nonlinear_arith)
            requires
                0 <= n <= 0xffff_ffff_ffff_ffff,
                0 <= width <= 0xffff_ffff_ffff_ffff,
        ;
        let mut i: usize = 0;
        while i < n
            invariant
                i <= n,
                n == s.units_begin.data@.len(),
                s.units_begin.wf(),
                board == s.units_begin@,
                goals == s.definition.goals@,
                width == s.units_begin.shape.1,
                n * width <= 0xffff_ffff_ffff_ffff * 0xffff_ffff_ffff_ffff,
                alive1 == count_in_rows(board, i as int, held_by(1)),
                alive2 == count_in_rows(board, i as int, held_by(2)),
                achieved1 == count_in_rows(board, i as int, home_of(goals, 1)),
                achieved2 == count_in_rows(board, i as int, home_of(goals, 2)),
                alive1 <= i * width,
                alive2 <= i * width,
                achieved1 <= i * width,
                achieved2 <= i * width,
            decreases n - i,
        {
            let ghost seen1 = alive1;
            let ghost seen2 = alive2;
            let ghost home1 = achieved1;
            let ghost home2 = achieved2;
            assert((i + 1) * width <= n * width) by (nonlinear_arith)
                requires
                    i + 1 <= n,
                    0 <= width,
            ;
            assert((i + 1) * width == i * width + width) by (nonlinear_arith);
            match &s.units_begin.data[i] {
                Some(row) => {
                    assert(board[i as int] == Some(row@));
                    let m = row.len();
                    let mut j: usize = 0;
                    while j < m
                        invariant
                            j <= m,
                            m == row@.len(),
                            m == width,
                            goals == s.definition.goals@,
                            i * width + width <= 0xffff_ffff_ffff_ffff * 0xffff_ffff_ffff_ffff,
                            alive1 == seen1 + count_in_row(row@, i as int, j as int, held_by(1)),
                            alive2 == seen2 + count_in_row(row@, i as int, j as int, held_by(2)),
                            achieved1 == home1 + count_in_row(row@, i as int, j as int, home_of(goals, 1)),
                            achieved2 == home2 + count_in_row(row@, i as int, j as int, home_of(goals, 2)),
                            seen1 <= i * width,
                            seen2 <= i * width,
                            home1 <= i * width,
                            home2 <= i * width,
                            alive1 <= i * width + j,
                            alive2 <= i * width + j,
                            achieved1 <= i * width + j,
                            achieved2 <= i * width + j,
                        decreases m - j,
                    {
                        let value = row[j];
                        let goal = match s.definition.goals.get(i, j) {
                            Some(g) => g,
                            None => 0,
                        };
                        if value == 1 {
                            alive1 = alive1 + 1;
                            if goal == 1 {
                                achieved1 = achieved1 + 1;
                            }
                        } else if value == 2 {
                            alive2 = alive2 + 1;
                            if goal == 2 {
                                achieved2 = achieved2 + 1;
                            }
                        }
                        j = j + 1;
                    }
                },
                None => {},
            }
            i = i + 1;
        }
        let goals1 = s.definition.goals_num[1] as u128;
        let goals2 = s.definition.goals_num[2] as u128;
        if achieved1 == goals1 && goals1 > 0 {
            return StateStatus::Winner(1);
        }
        if achieved2 == goals2 && goals2 > 0 {
            return StateStatus::Winner(2);
        }
        if alive1 == 0 {
            return StateStatus::Winner(2);
        }
        if alive2 == 0 {
            return StateStatus::Winner(1);
        }
        let player1_can_win = achieved1 < goals1 && alive1 > 0;
        let player2_can_win = achieved2 < goals2 && alive2 > 0;
        if !player1_can_win && !player2_can_win {
            return StateStatus::Draw;
        }
        StateStatus::Running
    }
}

} // verus!

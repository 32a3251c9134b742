//! The immutable description of a map.

use crate::deps::sparse::{cell, count_cells, held_by, Rows, SparseMatrix2D};
use std::sync::Arc;
use vstd::prelude::*;

verus! {

/// A map: its shape, where the obstacles are, who starts where, and which
/// cells each player has to reach.
#[derive(Debug)]
pub struct MAPFDefinition {
    pub shape: (usize, usize),
    pub starting_positions: SparseMatrix2D,
    pub obstacles: SparseMatrix2D,
    pub goals: SparseMatrix2D,
    pub goals_num: [u64; 3],
}

/// The mathematical content of a map.
pub struct DefinitionView {
    pub shape: (nat, nat),
    pub starting_positions: Rows,
    pub obstacles: Rows,
    pub goals: Rows,
    pub goals_num: Seq<u64>,
}

impl View for MAPFDefinition {
    type V = DefinitionView;

    open spec fn view(&self) -> DefinitionView {
        DefinitionView {
            shape: (self.shape.0 as nat, self.shape.1 as nat),
            starting_positions: self.starting_positions@,
            obstacles: self.obstacles@,
            goals: self.goals@,
            goals_num: self.goals_num@,
        }
    }
}

impl MAPFDefinition {
    /// The three grids are well formed and have the map's shape.
    pub open spec fn wf(&self) -> bool {
        &&& self.starting_positions.wf()
        &&& self.obstacles.wf()
        &&& self.goals.wf()
        &&& self.starting_positions.shape == self.shape
        &&& self.obstacles.shape == self.shape
        &&& self.goals.shape == self.shape
    }

    /// The map is small enough for distances on it to be counted: its area
    /// fits a signed 64-bit number.
    pub open spec fn surveyable(&self) -> bool {
        self.shape.0 * self.shape.1 <= i64::MAX
    }

    /// The position before the first move on this map.
    pub open spec fn starting_state(&self) -> crate::mapf::state::StateView {
        crate::mapf::state::StateView {
            units_begin: self.starting_positions@,
            units_available: self.starting_positions@,
            units_moved: crate::deps::sparse::empty_rows(self.shape.0 as nat),
            playing: 1,
        }
    }

    /// Whether the three grids are well formed and have the map's shape.
    pub fn is_well_formed(&self) -> (ok: bool)
        ensures
            ok == self.wf(),
    {
        self.starting_positions.is_well_formed() && self.obstacles.is_well_formed() && self.goals.is_well_formed()
            && self.starting_positions.shape.0 == self.shape.0 && self.starting_positions.shape.1 == self.shape.1
            && self.obstacles.shape.0 == self.shape.0 && self.obstacles.shape.1 == self.shape.1 && self.goals.shape.0
            == self.shape.0 && self.goals.shape.1 == self.shape.1
    }

    /// Whether the area of the map fits a signed 64-bit number.
    pub fn is_surveyable(&self) -> (ok: bool)
        ensures
            ok == self.surveyable(),
    {
        let height = self.shape.0 as u128;
        let width = self.shape.1 as u128;
        assert(height * width <= 0xffff_ffff_ffff_ffff * 0xffff_ffff_ffff_ffff) by (nonlinear_arith)
            requires
                0 <= height <= 0xffff_ffff_ffff_ffff,
                0 <= width <= 0xffff_ffff_ffff_ffff,
        ;
        height * width <= 0x7fff_ffff_ffff_ffff
    }

    /// The number of goal cells that belong to player `p`.
    pub open spec fn goal_cells(&self, p: u8) -> nat {
        count_cells(self.goals@, held_by(p))
    }

    /// The recorded goal counts of the two players are the true ones, and
    /// the unused entry is zero.
    pub open spec fn counts_goals(&self) -> bool {
        &&& self.goals_num@[0] == 0
        &&& self.goals_num@[1] == self.goal_cells(1)
        &&& self.goals_num@[2] == self.goal_cells(2)
    }

    /// A unit can stand on `(r, c)`: the cell is on the map and no obstacle.
    pub open spec fn passable(&self, r: int, c: int) -> bool {
        0 <= r < self.shape.0 && 0 <= c < self.shape.1 && cell(self.obstacles@, r, c) == 0
    }
}

/// Another handle on the same map. `Arc::clone` copies the pointer, not the
/// map, so the new handle reads the same value.
#[verifier::external_body]
pub(crate) fn share(definition: &Arc<MAPFDefinition>) -> (shared: Arc<MAPFDefinition>)
    ensures
        shared == *definition,
{
    Arc::clone(definition)
}

} // verus!

//! The position of a game at a decision point.

use crate::deps::sparse::{cell, Rows, SparseMatrix2D};
use crate::mapf::definition::{share, MAPFDefinition};
use std::sync::Arc;
use vstd::prelude::*;

verus! {

/// A marker that sets a position apart from the ordinary ones.
#[derive(Clone, Copy, PartialEq, Eq, Structural, Hash, Debug)]
pub enum SpecialState {
    No,
    AnyGoal,
}

/// The mathematical content of a position.
pub struct StateView {
    /// Who stood where when the current turn began.
    pub units_begin: Rows,
    /// The units that have not moved yet in this turn.
    pub units_available: Rows,
    /// The arrivals of this turn, pending commit.
    pub units_moved: Rows,
    /// The player to move.
    pub playing: u8,
}

/// A position: the map it is played on, the three unit planes and the
/// player to move.
#[derive(Debug)]
pub struct MAPFState {
    pub definition: Arc<MAPFDefinition>,
    pub units_begin: SparseMatrix2D,
    pub units_available: SparseMatrix2D,
    pub units_moved: SparseMatrix2D,
    pub playing: u8,
    pub special_state: SpecialState,
}

impl View for MAPFState {
    type V = StateView;

    open spec fn view(&self) -> StateView {
        StateView {
            units_begin: self.units_begin@,
            units_available: self.units_available@,
            units_moved: self.units_moved@,
            playing: self.playing,
        }
    }
}

/// No cell of `rows` holds more than the two player bits.
pub open spec fn cells_below_four(rows: Rows) -> bool {
    forall|r: int, c: int| #[trigger] cell(rows, r, c) < 4
}

/// Every cell of `rows` is empty or holds one player.
pub open spec fn cells_are_owners(rows: Rows) -> bool {
    forall|r: int, c: int| #[trigger] cell(rows, r, c) <= 2
}

impl StateView {
    /// The player to move is one of the two, a cell at turn start holds at
    /// most one unit, and a cell in mid-turn at most the two player bits.
    pub open spec fn valid(self) -> bool {
        &&& (self.playing == 1 || self.playing == 2)
        &&& cells_are_owners(self.units_begin)
        &&& cells_below_four(self.units_available)
        &&& cells_below_four(self.units_moved)
    }
}

impl MAPFState {
    /// The three planes are well formed and have the shape of the map.
    pub open spec fn wf(&self) -> bool {
        &&& self.units_begin.wf()
        &&& self.units_available.wf()
        &&& self.units_moved.wf()
        &&& self.units_begin.shape == self.definition.shape
        &&& self.units_available.shape == self.definition.shape
        &&& self.units_moved.shape == self.definition.shape
    }
}

impl MAPFState {
    /// Whether the three planes are well formed and have the shape of the
    /// map.
    pub fn is_well_formed(&self) -> (ok: bool)
        ensures
            ok == self.wf(),
    {
        let shape = self.definition.shape;
        self.units_begin.is_well_formed() && self.units_available.is_well_formed() && self.units_moved.is_well_formed()
            && self.units_begin.shape.0 == shape.0 && self.units_begin.shape.1 == shape.1
            && self.units_available.shape.0 == shape.0 && self.units_available.shape.1 == shape.1
            && self.units_moved.shape.0 == shape.0 && self.units_moved.shape.1 == shape.1
    }
}

impl PartialEq for MAPFState {
    /// Two positions marked as special are equal when their marks are;
    /// otherwise two positions are equal when their three planes and the
    /// player to move are. The map is not compared.
    fn eq(&self, other: &Self) -> (r: bool) {
        if self.special_state != SpecialState::No || other.special_state != SpecialState::No {
            return self.special_state == other.special_state;
        }
        self.units_available == other.units_available && self.units_moved == other.units_moved && self.units_begin
            == other.units_begin && self.playing == other.playing
    }
}

impl Eq for MAPFState {

}

impl vstd::std_specs::cmp::PartialEqSpecImpl for MAPFState {
    open spec fn obeys_eq_spec() -> bool {
        true
    }

    open spec fn eq_spec(&self, other: &Self) -> bool {
        if self.special_state != SpecialState::No || other.special_state != SpecialState::No {
            self.special_state == other.special_state
        } else {
            &&& self@ == other@
            &&& self.units_begin.shape == other.units_begin.shape
            &&& self.units_available.shape == other.units_available.shape
            &&& self.units_moved.shape == other.units_moved.shape
        }
    }
}

impl Clone for MAPFState {
    fn clone(&self) -> (ret: Self)
        ensures
            ret@ == self@,
            ret.definition == self.definition,
            ret.special_state == self.special_state,
            self.wf() ==> ret.wf(),
    {
        MAPFState {
            definition: share(&self.definition),
            units_begin: self.units_begin.clone(),
            units_available: self.units_available.clone(),
            units_moved: self.units_moved.clone(),
            playing: self.playing,
            special_state: self.special_state,
        }
    }
}

} // verus!

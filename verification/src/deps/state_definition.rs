//! How a game position stands.

use vstd::prelude::*;

verus! {

/// The outcome of a position: still running, won by a player, or drawn.
#[derive(Debug, PartialEq, Eq, Structural, Clone, Copy)]
pub enum StateStatus {
    Running,
    Winner(u64),
    Draw,
}

} // verus!

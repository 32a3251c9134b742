//! Policies: ways to choose an action in a position.

pub mod distance;
pub mod greedy;
pub mod mcts;
pub mod random_ai;

use crate::mapf::action::MAPFAction;
use crate::mapf::environment::{legal_actions, MAPFEnvironment};
use crate::mapf::state::MAPFState;
use vstd::prelude::*;

verus! {

/// A policy: asked for the next action in a position of a game, it names a
/// legal one.
pub trait AI {
    /// Whether the policy, as it stands, can be asked about positions of
    /// `e`. A policy that keeps what it has learnt of a map can only be
    /// asked about that map again, and one that counts distances only about
    /// a map on which they can be counted.
    spec fn accepts(&self, e: &MAPFEnvironment) -> bool;

    /// The action that the policy takes in `s`.
    fn next(&mut self, s: &MAPFState, e: &MAPFEnvironment) -> (action: MAPFAction)
        requires
            old(self).accepts(e),
            e.definition.wf(),
            e.owns(s),
        ensures
            final(self).accepts(e),
            legal_actions(&*e.definition, s@).contains(action),
    ;
}

} // verus!

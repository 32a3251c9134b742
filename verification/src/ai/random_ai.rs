//! The policy that plays any legal action with equal chance.

use crate::ai::AI;
use crate::mapf::action::MAPFAction;
use crate::mapf::environment::MAPFEnvironment;
use crate::mapf::state::MAPFState;
use rand::rngs::ThreadRng;
use rand::seq::IndexedRandom;
use rand::Rng;
use vstd::prelude::*;

verus! {

/// The generator of the current thread. Nothing is known of what it holds.
#[verifier::external_type_specification]
#[verifier::external_body]
pub struct ExThreadRng(rand::rngs::ThreadRng);

/// A handle on the generator of the current thread, from `rand::rng`. It
/// fails only where the operating system has no randomness to seed the
/// generator with.
#[verifier::external_body]
pub(crate) fn thread_rng() -> ThreadRng {
    rand::rng()
}

/// One of `actions`, drawn by `IndexedRandom::choose`: nothing from an
/// empty list, otherwise the entry at an index that the generator picks
/// below the length.
#[verifier::external_body]
pub(crate) fn choose_action(rng: &mut ThreadRng, actions: &Vec<MAPFAction>) -> (chosen: Option<MAPFAction>)
    ensures
        actions@.len() == 0 ==> chosen is None,
        actions@.len() > 0 ==> chosen is Some && actions@.contains(chosen.unwrap()),
{
    actions.choose(rng).cloned()
}

/// An index below `n`, drawn by `Rng::random_range` from the range from `0`
/// up to `n`, which must not be empty.
#[verifier::external_body]
pub(crate) fn random_below(rng: &mut ThreadRng, n: usize) -> (index: usize)
    requires
        n > 0,
    ensures
        index < n,
{
    rng.random_range(0..n)
}

/// A policy that draws its action from the legal ones.
pub struct RandomAI {
    rng: ThreadRng,
}

impl RandomAI {
    /// A random policy on the generator of the current thread.
    pub fn new() -> RandomAI {
        RandomAI { rng: thread_rng() }
    }
}

impl AI for RandomAI {
    open spec fn accepts(&self, e: &MAPFEnvironment) -> bool {
        true
    }

    fn next(&mut self, s: &MAPFState, e: &MAPFEnvironment) -> (action: MAPFAction) {
        let actions = e.get_actions(s);
        let drawn = choose_action(&mut self.rng, &*actions);
        drawn.unwrap()
    }
}

} // verus!

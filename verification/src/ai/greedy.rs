//! The policy that steps toward the nearest goal.

use crate::ai::distance::{cells_of, distance, is_distance_field, survey};
use crate::ai::AI;
use crate::mapf::action::MAPFAction;
use crate::mapf::definition::MAPFDefinition;
use crate::mapf::environment::{legal_actions, MAPFEnvironment};
use crate::mapf::state::MAPFState;
use crate::mapf::turn_laws::{is_step, legal_actions_are_steps_then_commit};
use std::sync::Arc;
use vstd::prelude::*;

verus! {

/// The distance from the nearest goal of the cell that `action` leads to.
pub open spec fn target_distance(definition: &MAPFDefinition, action: MAPFAction) -> int {
    match action {
        MAPFAction::Move(from, to) => distance(definition, to.0 as int, to.1 as int),
        MAPFAction::Commit => 0,
    }
}

/// The index of the greedy choice among the first `n` of `actions`: the
/// first move whose target no other of them undercuts. There is none where
/// there is no move.
pub open spec fn best_upto(definition: &MAPFDefinition, actions: Seq<MAPFAction>, n: int) -> Option<int>
    decreases n,
{
    if n <= 0 {
        None
    } else {
        let earlier = best_upto(definition, actions, n - 1);
        if actions[n - 1] is Move {
            match earlier {
                Some(best) => if target_distance(definition, actions[best]) > target_distance(
                    definition,
                    actions[n - 1],
                ) {
                    Some(n - 1)
                } else {
                    earlier
                },
                None => Some(n - 1),
            }
        } else {
            earlier
        }
    }
}

/// The greedy choice among `actions`: the move whose target is nearest to a
/// goal, the first of them where several are, and `Commit` where `actions`
/// holds no move. A target that no walk from a goal reaches has distance
/// `-1` and so comes before all others.
pub open spec fn greedy_choice(definition: &MAPFDefinition, actions: Seq<MAPFAction>) -> MAPFAction {
    match best_upto(definition, actions, actions.len() as int) {
        Some(best) => actions[best],
        None => MAPFAction::Commit,
    }
}

/// The index that `best_upto` gives is that of a move among the first `n`
/// that none of them undercuts and that none before it equals; it gives
/// none only where none of the first `n` is a move.
pub proof fn best_upto_is_first_minimum(definition: &MAPFDefinition, actions: Seq<MAPFAction>, n: int)
    requires
        n <= actions.len(),
    ensures
        match best_upto(definition, actions, n) {
            Some(best) => {
                &&& 0 <= best < n
                &&& actions[best] is Move
                &&& forall|j: int|
                    0 <= j < n && (#[trigger] actions[j]) is Move ==> target_distance(definition, actions[best])
                        <= target_distance(definition, actions[j])
                &&& forall|j: int|
                    0 <= j < best && (#[trigger] actions[j]) is Move ==> target_distance(definition, actions[best])
                        < target_distance(definition, actions[j])
            },
            None => forall|j: int| 0 <= j < n ==> !((#[trigger] actions[j]) is Move),
        },
    decreases n,
{
    if n > 0 {
        best_upto_is_first_minimum(definition, actions, n - 1);
    }
}

/// The target of the greedy choice is no farther from a goal than the target
/// of any move among the actions, and the choice is one of the actions
/// wherever `Commit` is.
pub proof fn greedy_choice_is_nearest(definition: &MAPFDefinition, actions: Seq<MAPFAction>)
    ensures
        forall|j: int|
            0 <= j < actions.len() && (#[trigger] actions[j]) is Move ==> target_distance(
                definition,
                greedy_choice(definition, actions),
            ) <= target_distance(definition, actions[j]),
        greedy_choice(definition, actions) is Commit <==> forall|j: int|
            0 <= j < actions.len() ==> !((#[trigger] actions[j]) is Move),
        actions.contains(MAPFAction::Commit) ==> actions.contains(greedy_choice(definition, actions)),
{
    best_upto_is_first_minimum(definition, actions, actions.len() as int);
}

/// A policy that moves the unit, and in the direction, that leads nearest
/// to a goal. It surveys the map when it is first asked and keeps the
/// distances.
pub struct GreedyAI {
    grid: Arc<Option<Vec<Vec<i64>>>>,
}

impl GreedyAI {
    /// The distances that the policy keeps, if it has surveyed a map.
    pub closed spec fn cache(&self) -> Option<Seq<Seq<i64>>> {
        match *self.grid {
            Some(grid) => Some(cells_of(grid@)),
            None => None,
        }
    }

    /// A greedy policy that has not seen a map yet.
    pub fn new() -> (policy: GreedyAI)
        ensures
            policy.cache() is None,
    {
        GreedyAI { grid: Arc::new(None) }
    }
}

impl AI for GreedyAI {
    /// The policy counts distances, so the map must be one on which they can
    /// be counted, and the distances that it keeps must be those of the map.
    open spec fn accepts(&self, e: &MAPFEnvironment) -> bool {
        &&& e.definition.surveyable()
        &&& match self.cache() {
            Some(field) => is_distance_field(&*e.definition, field),
            None => true,
        }
    }

    fn next(&mut self, s: &MAPFState, e: &MAPFEnvironment) -> (action: MAPFAction)
        ensures
            final(self).cache() is Some,
            old(self).cache() is Some ==> final(self).cache() == old(self).cache(),
            action == greedy_choice(&*e.definition, legal_actions(&*e.definition, s@)),
    {
        if self.grid.is_none() {
            let distances = survey(&*s.definition);
            self.grid = Arc::new(Some(distances));
        }
        let actions = e.get_actions(s);
        let ghost definition = &*e.definition;
        let ghost listed = legal_actions(definition, s@);
        proof {
            legal_actions_are_steps_then_commit(
                definition,
                s@,
                definition.shape.0 as nat,
                definition.shape.1 as nat,
            );
            greedy_choice_is_nearest(definition, listed);
            assert(listed.contains(MAPFAction::Commit)) by {
                assert(listed[listed.len() - 1] == MAPFAction::Commit);
            }
        }
        let mut best_move: Option<MAPFAction> = None;
        let mut best_distance: Option<i64> = None;
        match &*self.grid {
            Some(grid) => {
                let ghost field = cells_of(grid@);
                let n = actions.len();
                let mut i: usize = 0;
                while i < n
                    invariant
                        i <= n,
                        n == listed.len(),
                        actions@ == listed,
                        field == cells_of(grid@),
                        is_distance_field(definition, field),
                        forall|j: int|
                            0 <= j < listed.len() - 1 ==> is_step(
                                definition,
                                s@.units_available,
                                s@.playing,
                                #[trigger] listed[j],
                            ),
                        listed.len() > 0,
                        listed.last() == MAPFAction::Commit,
                        match best_upto(definition, listed, i as int) {
                            Some(best) => 0 <= best < i && best_move == Some(listed[best]) && best_distance is Some
                                && best_distance.unwrap() == target_distance(definition, listed[best]),
                            None => best_move is None && best_distance is None,
                        },
                    decreases n - i,
                {
                    proof {
                        best_upto_is_first_minimum(definition, listed, i as int);
                    }
                    match actions[i] {
                        MAPFAction::Move(from, to) => {
                            assert(is_step(definition, s@.units_available, s@.playing, listed[i as int]));
                            assert(field[to.0 as int] == grid@[to.0 as int]@);
                            let target_distance = grid[to.0][to.1];
                            let better = match best_distance {
                                Some(d) => d > target_distance,
                                None => true,
                            };
                            if better {
                                best_move = Some(MAPFAction::Move(from, to));
                                best_distance = Some(target_distance);
                            }
                        },
                        MAPFAction::Commit => {},
                    }
                    i = i + 1;
                }
            },
            None => {
                assert(false);
            },
        }
        match best_move {
            Some(bm) => bm,
            None => MAPFAction::Commit,
        }
    }
}

} // verus!

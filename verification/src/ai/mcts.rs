//! The planner: Monte Carlo tree search under a time budget.
//!
//! The search tree is an arena: a vector of nodes that name their parent and
//! their children by index. A node is added behind all others, so a child
//! always stands behind its parent.
//!
//! Results are counted in halves of a win, so that a win is `2`, a draw or an
//! undecided playout `1` and a loss `0`, and the sum of the results of a node
//! is a whole number.

use crate::ai::greedy::{greedy_choice, GreedyAI};
use crate::ai::random_ai::random_below;
use crate::ai::AI;
use crate::deps::state_definition::StateStatus;
use crate::mapf::action::MAPFAction;
use crate::mapf::definition::MAPFDefinition;
use crate::mapf::environment::{legal_actions, status_of, step, MAPFEnvironment};
use crate::mapf::state::{MAPFState, StateView};
use rand::rngs::ThreadRng;
use crate::deps::clock::{elapsed, is_shorter, milliseconds, now};
use std::time::Duration;
use vstd::prelude::*;

verus! {

/// How much a child of a node promises, as a rank: the child of the highest
/// rank is searched next, the first of them where several share it, and a
/// child of rank `0` never.
///
/// The usual rank is the upper confidence bound: the mean result of the
/// child, plus a weight times the square root of twice the logarithm of the
/// parent's visits over the child's visits. That takes real numbers, so the
/// planner leaves it to its user, who hands over the bound as a number that
/// orders as the bound does.
pub trait ChildScore {
    /// The rank of a child with `child_visits` visits and results that sum
    /// to `child_wins` halves of a win, under a parent with `parent_visits`
    /// visits.
    fn rank(&self, parent_visits: u32, child_visits: u32, child_wins: u64) -> u64;
}

/// A node of the search tree.
pub struct MCTSNode {
    /// The position that the node stands for.
    pub state: MAPFState,
    /// The index of the parent; the root has none.
    pub parent: Option<usize>,
    /// The children so far, each with the action that leads to it.
    pub children: Vec<(MAPFAction, usize)>,
    /// How many playouts went through the node.
    pub visits: u32,
    /// The sum of their results, in halves of a win.
    pub wins: u64,
    /// The legal actions that have no child yet.
    pub unexpanded_actions: Vec<MAPFAction>,
}

/// The nodes form a tree of positions of `e`: the root stands first, every
/// other node names a parent before it, every child entry names a node
/// behind its parent that names it as parent and stands for the position
/// after the entry's action, and the actions of a node, expanded or not, are
/// legal in its position.
pub open spec fn tree_wf(nodes: Seq<MCTSNode>, e: &MAPFEnvironment) -> bool {
    &&& nodes.len() >= 1
    &&& nodes[0].parent is None
    &&& forall|i: int| 0 <= i < nodes.len() ==> e.owns(&(#[trigger] nodes[i]).state)
    &&& forall|i: int| 0 < i < nodes.len() ==> (#[trigger] nodes[i]).parent is Some && nodes[i].parent.unwrap() < i
    &&& forall|i: int, k: int|
        0 <= i < nodes.len() && 0 <= k < nodes[i].children@.len() ==> {
            let entry = #[trigger] nodes[i].children@[k];
            &&& i < entry.1 < nodes.len()
            &&& nodes[entry.1 as int].parent == Some(i as usize)
            &&& nodes[entry.1 as int].state@ == step(
                nodes[i].state@,
                entry.0,
                e.definition.shape.0 as nat,
                e.definition.shape.1 as nat,
            )
            &&& legal_actions(&*e.definition, nodes[i].state@).contains(entry.0)
        }
    &&& forall|i: int, k: int|
        0 <= i < nodes.len() && 0 <= k < nodes[i].unexpanded_actions@.len() ==> legal_actions(
            &*e.definition,
            nodes[i].state@,
        ).contains(#[trigger] nodes[i].unexpanded_actions@[k])
}

/// No node has more visits than `most`, and the results of a node sum to at
/// most a win for each visit.
pub open spec fn counts_within(nodes: Seq<MCTSNode>, most: int) -> bool {
    forall|i: int| 0 <= i < nodes.len() ==> (#[trigger] nodes[i]).visits <= most && nodes[i].wins <= 2 * nodes[i].visits
}

/// The index of the first of the first `n` ranks that is positive and that
/// none of them exceeds; none where all are `0`.
pub open spec fn first_best_upto(ranks: Seq<u64>, n: int) -> Option<int>
    decreases n,
{
    if n <= 0 {
        None
    } else {
        let earlier = first_best_upto(ranks, n - 1);
        let top = match earlier {
            Some(best) => ranks[best],
            None => 0,
        };
        if ranks[n - 1] > top {
            Some(n - 1)
        } else {
            earlier
        }
    }
}

/// `first_best_upto` gives the first maximum, if it is positive.
pub proof fn first_best_is_first_maximum(ranks: Seq<u64>, n: int)
    requires
        n <= ranks.len(),
    ensures
        match first_best_upto(ranks, n) {
            Some(best) => {
                &&& 0 <= best < n
                &&& ranks[best] > 0
                &&& forall|j: int| 0 <= j < n ==> (#[trigger] ranks[j]) <= ranks[best]
                &&& forall|j: int| 0 <= j < best ==> (#[trigger] ranks[j]) < ranks[best]
            },
            None => forall|j: int| 0 <= j < n ==> (#[trigger] ranks[j]) == 0,
        },
    decreases n,
{
    if n > 0 {
        first_best_is_first_maximum(ranks, n - 1);
    }
}

/// The index of the highest positive rank, the first where several share
/// it.
pub fn first_best(ranks: &Vec<u64>) -> (best: Option<usize>)
    ensures
        match best {
            Some(k) => first_best_upto(ranks@, ranks@.len() as int) == Some(k as int),
            None => first_best_upto(ranks@, ranks@.len() as int) is None,
        },
        best matches Some(k) ==> k < ranks@.len(),
{
    let mut best: Option<usize> = None;
    let mut top: u64 = 0;
    let n = ranks.len();
    let mut i: usize = 0;
    while i < n
        invariant
            i <= n,
            n == ranks@.len(),
            match best {
                Some(k) => first_best_upto(ranks@, i as int) == Some(k as int) && k < i && top == ranks@[k as int],
                None => first_best_upto(ranks@, i as int) is None && top == 0,
            },
        decreases n - i,
    {
        if ranks[i] > top {
            top = ranks[i];
            best = Some(i);
        }
        i = i + 1;
    }
    best
}

/// The index of the first of the first `n` values that none of them exceeds;
/// there is none only where `n` is `0`.
pub open spec fn first_most_upto(values: Seq<u64>, n: int) -> Option<int>
    decreases n,
{
    if n <= 0 {
        None
    } else {
        match first_most_upto(values, n - 1) {
            Some(best) => if values[n - 1] > values[best] {
                Some(n - 1)
            } else {
                Some(best)
            },
            None => Some(n - 1),
        }
    }
}

/// `first_most_upto` gives the first maximum, and gives one wherever there is
/// a value.
pub proof fn first_most_is_first_maximum(values: Seq<u64>, n: int)
    requires
        n <= values.len(),
    ensures
        match first_most_upto(values, n) {
            Some(best) => {
                &&& 0 <= best < n
                &&& forall|j: int| 0 <= j < n ==> (#[trigger] values[j]) <= values[best]
                &&& forall|j: int| 0 <= j < best ==> (#[trigger] values[j]) < values[best]
            },
            None => n <= 0,
        },
    decreases n,
{
    if n > 0 {
        first_most_is_first_maximum(values, n - 1);
    }
}

/// The index of the highest value, the first where several share it; none
/// where there is no value.
pub fn first_most(values: &Vec<u64>) -> (best: Option<usize>)
    ensures
        match best {
            Some(k) => first_most_upto(values@, values@.len() as int) == Some(k as int),
            None => first_most_upto(values@, values@.len() as int) is None,
        },
        best matches Some(k) ==> k < values@.len(),
        best is None <==> values@.len() == 0,
{
    let mut best: Option<usize> = None;
    let mut top: u64 = 0;
    let n = values.len();
    let mut i: usize = 0;
    while i < n
        invariant
            i <= n,
            n == values@.len(),
            best is None <==> i == 0,
            match best {
                Some(k) => first_most_upto(values@, i as int) == Some(k as int) && k < i && top == values@[k as int],
                None => first_most_upto(values@, i as int) is None,
            },
        decreases n - i,
    {
        let better = match best {
            Some(_) => values[i] > top,
            None => true,
        };
        if better {
            top = values[i];
            best = Some(i);
        }
        i = i + 1;
    }
    best
}

/// The visits of the children of a node, in the order of the children.
pub open spec fn visits_of_children(nodes: Seq<MCTSNode>, index: int) -> Seq<u64> {
    Seq::new(nodes[index].children@.len(), |k: int| nodes[nodes[index].children@[k].1 as int].visits as u64)
}

/// The action that the search recommends at node `index`: the action of the
/// child with the most visits, the first where several share them, be they
/// none at all, and `Commit` where the node has no child.
pub open spec fn recommended(nodes: Seq<MCTSNode>, index: int) -> MAPFAction {
    let visits = visits_of_children(nodes, index);
    match first_most_upto(visits, visits.len() as int) {
        Some(k) => nodes[index].children@[k].0,
        None => MAPFAction::Commit,
    }
}

/// The result of a playout of at most `steps` greedy actions from `state`,
/// seen by player `me`, in halves of a win: `2` where `me` wins, `0` where
/// the other player does, `1` for a draw and where the steps run out.
pub open spec fn rollout(definition: &MAPFDefinition, state: StateView, steps: nat, me: u8) -> u8
    decreases steps,
{
    if steps == 0 {
        1
    } else {
        match status_of(state, definition.goals@, definition.goals_num@) {
            StateStatus::Running => rollout(
                definition,
                step(
                    state,
                    greedy_choice(definition, legal_actions(definition, state)),
                    definition.shape.0 as nat,
                    definition.shape.1 as nat,
                ),
                (steps - 1) as nat,
                me,
            ),
            StateStatus::Winner(winner) => if winner == me {
                2
            } else {
                0
            },
            StateStatus::Draw => 1,
        }
    }
}

/// Node `i` lies on the way from node `from` up to the root: it is `from`
/// or one of its forebears.
pub open spec fn on_way_up(nodes: Seq<MCTSNode>, from: int, i: int) -> bool
    decreases from,
{
    if i == from {
        true
    } else if 0 < from < nodes.len() && nodes[from].parent is Some && nodes[from].parent.unwrap() < from {
        on_way_up(nodes, nodes[from].parent.unwrap() as int, i)
    } else {
        false
    }
}

/// The node `is` is the node `was` with one more visit and `result` more in
/// its results, and nothing else changed.
pub open spec fn credited(was: MCTSNode, is: MCTSNode, result: u8) -> bool {
    &&& is.visits == was.visits + 1
    &&& is.wins == was.wins + result
    &&& is.state == was.state
    &&& is.parent == was.parent
    &&& is.children == was.children
    &&& is.unexpanded_actions == was.unexpanded_actions
}

/// Every node but the root has been visited.
pub open spec fn all_visited(nodes: Seq<MCTSNode>) -> bool {
    forall|i: int| 0 < i < nodes.len() ==> (#[trigger] nodes[i]).visits >= 1
}

proof fn lemma_way_is_bounded(nodes: Seq<MCTSNode>, from: int, i: int)
    requires
        on_way_up(nodes, from, i),
    ensures
        i <= from,
    decreases from,
{
    if i != from {
        lemma_way_is_bounded(nodes, nodes[from].parent.unwrap() as int, i);
    }
}

proof fn lemma_way_goes_on(nodes: Seq<MCTSNode>, from: int, a: int)
    requires
        on_way_up(nodes, from, a),
        0 < a < nodes.len(),
        nodes[a].parent is Some,
        nodes[a].parent.unwrap() < a,
    ensures
        on_way_up(nodes, from, nodes[a].parent.unwrap() as int),
    decreases from,
{
    let p = nodes[a].parent.unwrap() as int;
    if from == a {
        assert(on_way_up(nodes, p, p));
    } else {
        let up = nodes[from].parent.unwrap() as int;
        lemma_way_goes_on(nodes, up, a);
        lemma_way_is_bounded(nodes, up, a);
    }
}

proof fn lemma_way_is_a_chain(nodes: Seq<MCTSNode>, from: int, a: int, i: int)
    requires
        on_way_up(nodes, from, a),
        on_way_up(nodes, from, i),
        i < a,
    ensures
        0 < a < nodes.len(),
        nodes[a].parent is Some,
        nodes[a].parent.unwrap() < a,
        on_way_up(nodes, nodes[a].parent.unwrap() as int, i),
    decreases from,
{
    if from != a {
        let up = nodes[from].parent.unwrap() as int;
        lemma_way_is_bounded(nodes, up, a);
        lemma_way_is_a_chain(nodes, up, a, i);
    }
}

proof fn lemma_way_goes_to_root(nodes: Seq<MCTSNode>, from: int)
    requires
        0 <= from < nodes.len(),
        forall|i: int| 0 < i < nodes.len() ==> (#[trigger] nodes[i]).parent is Some && nodes[i].parent.unwrap() < i,
    ensures
        on_way_up(nodes, from, 0),
    decreases from,
{
    if from > 0 {
        lemma_way_goes_to_root(nodes, nodes[from].parent.unwrap() as int);
    }
}

/// `after` is the tree `before` with a new child of node `node` for its
/// unexpanded action at `k`: the action has left the unexpanded ones of the
/// node, the others keeping their order; a new last node stands for the
/// position after the action, names `node` as its parent, has no visit, no
/// result and no child, and has the legal actions of its position as its
/// unexpanded ones; the entry of the action and the new index has joined the
/// children of `node` as the last; and nothing else has changed.
pub open spec fn grown_at(before: Seq<MCTSNode>, after: Seq<MCTSNode>, node: int, k: int, e: &MAPFEnvironment) -> bool {
    let n = before.len() as int;
    let action = before[node].unexpanded_actions@[k];
    &&& 0 <= k < before[node].unexpanded_actions@.len()
    &&& after.len() == n + 1
    &&& after[n].state@ == step(
        before[node].state@,
        action,
        e.definition.shape.0 as nat,
        e.definition.shape.1 as nat,
    )
    &&& after[n].parent == Some(node as usize)
    &&& after[n].visits == 0
    &&& after[n].wins == 0
    &&& after[n].children@.len() == 0
    &&& after[n].unexpanded_actions@ == legal_actions(&*e.definition, after[n].state@)
    &&& after[node].children@ == before[node].children@.push((action, n as usize))
    &&& after[node].unexpanded_actions@ == before[node].unexpanded_actions@.remove(k)
    &&& after[node].visits == before[node].visits
    &&& after[node].wins == before[node].wins
    &&& after[node].parent == before[node].parent
    &&& after[node].state == before[node].state
    &&& forall|i: int| 0 <= i < n && i != node ==> #[trigger] after[i] == before[i]
}

/// A copy of `actions`.
fn copy_actions(actions: &Vec<MAPFAction>) -> (copy: Vec<MAPFAction>)
    ensures
        copy@ == actions@,
{
    let mut copy: Vec<MAPFAction> = Vec::new();
    let n = actions.len();
    let mut i: usize = 0;
    while i < n
        invariant
            i <= n,
            n == actions@.len(),
            copy@ == actions@.take(i as int),
        decreases n - i,
    {
        copy.push(actions[i]);
        assert(copy@ =~= actions@.take(i + 1));
        i = i + 1;
    }
    assert(actions@.take(n as int) =~= actions@);
    copy
}

/// A tree of one node, the root, for the position `s`.
pub fn plant(s: &MAPFState, e: &MAPFEnvironment) -> (nodes: Vec<MCTSNode>)
    requires
        e.owns(s),
    ensures
        tree_wf(nodes@, e),
        counts_within(nodes@, 0),
        nodes@.len() == 1,
        nodes@[0].state@ == s@,
        nodes@[0].visits == 0,
        nodes@[0].children@.len() == 0,
        nodes@[0].unexpanded_actions@ == legal_actions(&*e.definition, s@),
{
    let actions = e.get_actions(s);
    let root = MCTSNode {
        state: s.clone(),
        parent: None,
        children: Vec::new(),
        visits: 0,
        wins: 0,
        unexpanded_actions: copy_actions(&*actions),
    };
    let mut nodes: Vec<MCTSNode> = Vec::new();
    nodes.push(root);
    nodes
}

/// Gives node `node_index` a child for its unexpanded action at
/// `action_index`: the action leaves the unexpanded ones, and a new node for
/// the position after it joins the tree as the last. Returns its index.
pub fn expand_at(node_index: usize, action_index: usize, nodes: &mut Vec<MCTSNode>, env: &MAPFEnvironment) -> (new_node_index:
    usize)
    requires
        tree_wf(old(nodes)@, env),
        node_index < old(nodes)@.len(),
        action_index < old(nodes)@[node_index as int].unexpanded_actions@.len(),
    ensures
        tree_wf(final(nodes)@, env),
        new_node_index == old(nodes)@.len(),
        final(nodes)@.len() == old(nodes)@.len() + 1,
        final(nodes)@[new_node_index as int].state@ == step(
            old(nodes)@[node_index as int].state@,
            old(nodes)@[node_index as int].unexpanded_actions@[action_index as int],
            env.definition.shape.0 as nat,
            env.definition.shape.1 as nat,
        ),
        final(nodes)@[new_node_index as int].parent == Some(node_index),
        final(nodes)@[new_node_index as int].visits == 0,
        final(nodes)@[new_node_index as int].wins == 0,
        final(nodes)@[new_node_index as int].children@.len() == 0,
        final(nodes)@[new_node_index as int].unexpanded_actions@ == legal_actions(
            &*env.definition,
            final(nodes)@[new_node_index as int].state@,
        ),
        final(nodes)@[node_index as int].children@ == old(nodes)@[node_index as int].children@.push(
            (old(nodes)@[node_index as int].unexpanded_actions@[action_index as int], new_node_index),
        ),
        final(nodes)@[node_index as int].unexpanded_actions@ == old(nodes)@[node_index as int].unexpanded_actions@.remove(
            action_index as int,
        ),
        forall|i: int|
            0 <= i < old(nodes)@.len() ==> {
                &&& (#[trigger] final(nodes)@[i]).visits == old(nodes)@[i].visits
                &&& final(nodes)@[i].wins == old(nodes)@[i].wins
                &&& final(nodes)@[i].parent == old(nodes)@[i].parent
                &&& final(nodes)@[i].state == old(nodes)@[i].state
                &&& i != node_index ==> final(nodes)@[i] == old(nodes)@[i]
            },
        grown_at(old(nodes)@, final(nodes)@, node_index as int, action_index as int, env),
{
    let ghost before = nodes@;
    let action = nodes[node_index].unexpanded_actions.remove(action_index);
    let ghost removed = nodes@;
    assert(legal_actions(&*env.definition, before[node_index as int].state@).contains(action));
    let new_state = env.next(&nodes[node_index].state, &action);
    let new_node_index = nodes.len();
    let actions = env.get_actions(&new_state);
    let new_node = MCTSNode {
        state: new_state,
        parent: Some(node_index),
        children: Vec::new(),
        visits: 0,
        wins: 0,
        unexpanded_actions: copy_actions(&*actions),
    };
    nodes.push(new_node);
    nodes[node_index].children.push((action, new_node_index));
    proof {
        let after = nodes@;
        assert forall|i: int| 0 <= i < before.len() && i != node_index implies #[trigger] after[i] == before[i] by {
            assert(removed[i] == before[i]);
        }
        assert forall|i: int, k: int| 0 <= i < after.len() && 0 <= k < after[i].children@.len() implies {
            let entry = #[trigger] after[i].children@[k];
            &&& i < entry.1 < after.len()
            &&& after[entry.1 as int].parent == Some(i as usize)
            &&& after[entry.1 as int].state@ == step(
                after[i].state@,
                entry.0,
                env.definition.shape.0 as nat,
                env.definition.shape.1 as nat,
            )
            &&& legal_actions(&*env.definition, after[i].state@).contains(entry.0)
        } by {
            if i == node_index && k == before[i].children@.len() {
            } else {
                assert(after[i].children@[k] == before[i].children@[k]);
                let entry = before[i].children@[k];
                assert(entry.1 < before.len());
            }
        }
        assert forall|i: int, k: int|
            0 <= i < after.len() && 0 <= k < after[i].unexpanded_actions@.len() implies legal_actions(
            &*env.definition,
            after[i].state@,
        ).contains(#[trigger] after[i].unexpanded_actions@[k]) by {
            if i == node_index {
                if k < action_index {
                    assert(after[i].unexpanded_actions@[k] == before[i].unexpanded_actions@[k]);
                } else {
                    assert(after[i].unexpanded_actions@[k] == before[i].unexpanded_actions@[k + 1]);
                }
            } else if i == new_node_index {
            } else {
                assert(after[i].unexpanded_actions@[k] == before[i].unexpanded_actions@[k]);
            }
        }
    }
    new_node_index
}

/// Adds one playout with `result` to node `node_index` of a tree of `e` and
/// to all its forebears up to the root, whoever is to move there.
pub fn backpropagate(node_index: usize, result: u8, nodes: &mut Vec<MCTSNode>, e: &MAPFEnvironment)
    requires
        tree_wf(old(nodes)@, e),
        node_index < old(nodes)@.len(),
        result <= 2,
        old(nodes)@[0].visits < u32::MAX,
        counts_within(old(nodes)@, old(nodes)@[0].visits as int),
    ensures
        tree_wf(final(nodes)@, e),
        final(nodes)@.len() == old(nodes)@.len(),
        final(nodes)@[0].visits == old(nodes)@[0].visits + 1,
        counts_within(final(nodes)@, final(nodes)@[0].visits as int),
        final(nodes)@[node_index as int].visits == old(nodes)@[node_index as int].visits + 1,
        final(nodes)@[node_index as int].wins == old(nodes)@[node_index as int].wins + result,
        forall|i: int|
            0 <= i < old(nodes)@.len() ==> if on_way_up(old(nodes)@, node_index as int, i) {
                credited(old(nodes)@[i], #[trigger] final(nodes)@[i], result)
            } else {
                final(nodes)@[i] == old(nodes)@[i]
            },
{
    let ghost before = nodes@;
    let ghost most = nodes@[0].visits as int;
    let mut index = node_index;
    proof {
        assert forall|i: int| 0 <= i < before.len() && on_way_up(before, node_index as int, i) implies i
            <= node_index by {
            lemma_way_is_bounded(before, node_index as int, i);
        }
    }
    loop
        invariant_except_break
            forall|i: int|
                0 <= i < before.len() ==> if on_way_up(before, node_index as int, i) && i > index {
                    credited(before[i], #[trigger] nodes@[i], result)
                } else {
                    nodes@[i] == before[i]
                },
        invariant
            index < nodes@.len(),
            index <= node_index,
            node_index < before.len(),
            nodes@.len() == before.len(),
            tree_wf(before, e),
            most == before[0].visits,
            most < u32::MAX,
            result <= 2,
            counts_within(before, most),
            on_way_up(before, node_index as int, index as int),
        ensures
            index == 0,
            forall|i: int|
                0 <= i < before.len() ==> if on_way_up(before, node_index as int, i) {
                    credited(before[i], #[trigger] nodes@[i], result)
                } else {
                    nodes@[i] == before[i]
                },
        decreases index,
    {
        let ghost held = nodes@;
        assert(nodes@[index as int] == before[index as int]);
        nodes[index].visits = nodes[index].visits + 1;
        nodes[index].wins = nodes[index].wins + result as u64;
        proof {
            assert forall|i: int| 0 <= i < before.len() && i != index implies #[trigger] nodes@[i] == held[i] by {}
            assert(credited(before[index as int], nodes@[index as int], result));
        }
        match nodes[index].parent {
            Some(parent) => {
                proof {
                    assert(index > 0);
                    assert(before[index as int].parent is Some && before[index as int].parent.unwrap() < index);
                    lemma_way_goes_on(before, node_index as int, index as int);
                    assert forall|i: int| 0 <= i < before.len() implies if on_way_up(before, node_index as int, i) && i
                        > parent {
                        credited(before[i], #[trigger] nodes@[i], result)
                    } else {
                        nodes@[i] == before[i]
                    } by {
                        if on_way_up(before, node_index as int, i) && parent < i < index {
                            lemma_way_is_a_chain(before, node_index as int, index as int, i);
                            lemma_way_is_bounded(before, parent as int, i);
                        }
                    }
                }
                index = parent;
            },
            None => {
                assert(index == 0) by {
                    if index > 0 {
                        assert(before[index as int].parent is Some);
                    }
                }
                break ;
            },
        }
    }
    proof {
        let after = nodes@;
        lemma_way_goes_to_root(before, node_index as int);
        assert(on_way_up(before, node_index as int, node_index as int));
        assert(credited(before[0], after[0], result));
        assert(credited(before[node_index as int], after[node_index as int], result));
        assert forall|i: int| 0 <= i < after.len() implies (#[trigger] after[i]).visits <= most + 1 && after[i].wins <= 2
            * after[i].visits by {
            assert(before[i].visits <= most && before[i].wins <= 2 * before[i].visits);
            if on_way_up(before, node_index as int, i) {
                assert(credited(before[i], after[i], result));
            }
        }
        assert forall|i: int| 0 <= i < after.len() implies after[i].state == before[i].state && after[i].parent
            == before[i].parent && after[i].children == before[i].children && (#[trigger] after[i]).unexpanded_actions
            == before[i].unexpanded_actions by {
            if on_way_up(before, node_index as int, i) {
                assert(credited(before[i], after[i], result));
            }
        }
        assert forall|i: int, k: int| 0 <= i < after.len() && 0 <= k < after[i].children@.len() implies {
            let entry = #[trigger] after[i].children@[k];
            &&& i < entry.1 < after.len()
            &&& after[entry.1 as int].parent == Some(i as usize)
            &&& after[entry.1 as int].state@ == step(
                after[i].state@,
                entry.0,
                e.definition.shape.0 as nat,
                e.definition.shape.1 as nat,
            )
            &&& legal_actions(&*e.definition, after[i].state@).contains(entry.0)
        } by {
            assert(after[i].children@[k] == before[i].children@[k]);
            let entry = before[i].children@[k];
            assert(entry.1 < before.len());
        }
        assert forall|i: int, k: int|
            0 <= i < after.len() && 0 <= k < after[i].unexpanded_actions@.len() implies legal_actions(
            &*e.definition,
            after[i].state@,
        ).contains(#[trigger] after[i].unexpanded_actions@[k]) by {
            assert(after[i].unexpanded_actions@[k] == before[i].unexpanded_actions@[k]);
        }
    }
}

/// The action that the search recommends at node `root_index` of a tree of
/// `e`.
pub fn best_action(root_index: usize, nodes: &Vec<MCTSNode>, e: &MAPFEnvironment) -> (action: MAPFAction)
    requires
        tree_wf(nodes@, e),
        root_index < nodes@.len(),
    ensures
        action == recommended(nodes@, root_index as int),
        legal_actions(&*e.definition, nodes@[root_index as int].state@).contains(action),
        nodes@[root_index as int].children@.len() == 0 ==> action == MAPFAction::Commit,
        nodes@[root_index as int].children@.len() > 0 ==> exists|k: int|
            0 <= k < nodes@[root_index as int].children@.len() && (#[trigger] nodes@[root_index as int].children@[k]).0
                == action,
{
    let root = &nodes[root_index];
    let mut visits: Vec<u64> = Vec::new();
    let n = root.children.len();
    let mut k: usize = 0;
    while k < n
        invariant
            k <= n,
            root_index < nodes@.len(),
            root == &nodes@[root_index as int],
            n == root.children@.len(),
            tree_wf(nodes@, e),
            visits@ == visits_of_children(nodes@, root_index as int).take(k as int),
        decreases n - k,
    {
        let child_index = root.children[k].1;
        assert(child_index < nodes@.len());
        visits.push(nodes[child_index].visits as u64);
        assert(visits@ =~= visits_of_children(nodes@, root_index as int).take(k + 1));
        k = k + 1;
    }
    assert(visits@ =~= visits_of_children(nodes@, root_index as int));
    proof {
        let listed = legal_actions(&*e.definition, nodes@[root_index as int].state@);
        assert(listed[listed.len() - 1] == MAPFAction::Commit);
    }
    match first_most(&visits) {
        Some(best) => root.children[best].0,
        None => MAPFAction::Commit,
    }
}

/// The planner: it grows a search tree from the position it is asked about
/// for as long as its time allows, and plays the action that it looked at
/// most.
pub struct MCTSAI<S: ChildScore> {
    rng: ThreadRng,
    scorer: S,
    simulation_limit: u32,
    time_limit: Duration,
    me: u8,
}

impl<S: ChildScore> MCTSAI<S> {
    /// The player for whom the planner counts the results.
    pub closed spec fn searcher(&self) -> u8 {
        self.me
    }

    /// The most steps that a playout takes.
    pub closed spec fn playout_steps(&self) -> u32 {
        self.simulation_limit
    }

    /// A planner for player `us` that ranks children by `scorer`, plays
    /// playouts of at most `simulation_limit` steps and thinks for
    /// `time_limit_ms` milliseconds.
    pub fn new(us: u8, scorer: S, simulation_limit: u32, time_limit_ms: u64) -> (planner: Self)
        ensures
            planner.searcher() == us,
            planner.playout_steps() == simulation_limit,
            planner.ranking() == scorer,
    {
        MCTSAI {
            me: us,
            rng: crate::ai::random_ai::thread_rng(),
            scorer,
            simulation_limit,
            time_limit: milliseconds(time_limit_ms),
        }
    }

    /// The child of node `node_index` to search next: the planner asks its
    /// ranking for the rank of every child and takes the child of the highest,
    /// the first of them; there is none where no child has a positive rank.
    pub fn select_child(&self, node_index: usize, nodes: &Vec<MCTSNode>, env: &MAPFEnvironment) -> (child: Option<
        usize,
    >)
        requires
            tree_wf(nodes@, env),
            node_index < nodes@.len(),
        ensures
            exists|ranks: Seq<u64>| #[trigger]
                are_ranks(self.ranking(), nodes@, node_index as int, ranks) && child == choice_by(
                    nodes@,
                    node_index as int,
                    ranks,
                ),
            child matches Some(c) ==> node_index < c < nodes@.len() && exists|k: int|
                0 <= k < nodes@[node_index as int].children@.len() && (#[trigger] nodes@[node_index as int].children@[k]).1
                    == c,
            nodes@[node_index as int].children@.len() == 0 ==> child is None,
    {
        let node = &nodes[node_index];
        let mut ranks: Vec<u64> = Vec::new();
        let n = node.children.len();
        let mut k: usize = 0;
        while k < n
            invariant
                k <= n,
                node_index < nodes@.len(),
                node == &nodes@[node_index as int],
                n == node.children@.len(),
                tree_wf(nodes@, env),
                ranks@.len() == k,
                forall|j: int| 0 <= j < k ==> is_rank(self.ranking(), nodes@, node_index as int, j, #[trigger] ranks@[j]),
            decreases n - k,
        {
            let child_index = node.children[k].1;
            assert(child_index < nodes@.len());
            let child = &nodes[child_index];
            let rank = self.scorer.rank(node.visits, child.visits, child.wins);
            assert(is_rank(self.ranking(), nodes@, node_index as int, k as int, rank));
            ranks.push(rank);
            k = k + 1;
        }
        proof {
            assert(are_ranks(self.ranking(), nodes@, node_index as int, ranks@));
            first_best_is_first_maximum(ranks@, ranks@.len() as int);
        }
        match first_best(&ranks) {
            Some(best) => Some(node.children[best].1),
            None => None,
        }
    }

    /// How the planner ranks children.
    pub closed spec fn ranking(&self) -> S {
        self.scorer
    }

    /// Gives node `node_index` a child for one of its unexpanded actions,
    /// drawn at random, and returns the index of the child. Nothing happens
    /// where the node has no unexpanded action.
    pub fn expand(&mut self, node_index: usize, nodes: &mut Vec<MCTSNode>, env: &MAPFEnvironment) -> (child: Option<
        usize,
    >)
        requires
            tree_wf(old(nodes)@, env),
            node_index < old(nodes)@.len(),
        ensures
            tree_wf(final(nodes)@, env),
            final(self).searcher() == old(self).searcher(),
            final(self).playout_steps() == old(self).playout_steps(),
            final(self).ranking() == old(self).ranking(),
            child is None <==> old(nodes)@[node_index as int].unexpanded_actions@.len() == 0,
            child is None ==> final(nodes)@ == old(nodes)@,
            child matches Some(c) ==> c == old(nodes)@.len() && exists|k: int| #[trigger]
                grown_at(old(nodes)@, final(nodes)@, node_index as int, k, env),
    {
        let pending = nodes[node_index].unexpanded_actions.len();
        if pending == 0 {
            return None;
        }
        let action_index = random_below(&mut self.rng, pending);
        let new_node_index = expand_at(node_index, action_index, nodes, env);
        assert(grown_at(old(nodes)@, nodes@, node_index as int, action_index as int, env));
        Some(new_node_index)
    }

    /// Plays the position out with greedy actions, for as many steps as the
    /// planner allows at most, and returns the result in halves of a win.
    pub fn simulate(&self, state: &MAPFState, env: &MAPFEnvironment) -> (result: u8)
        requires
            env.definition.wf(),
            env.definition.surveyable(),
            env.owns(state),
        ensures
            result == rollout(&*env.definition, state@, self.playout_steps() as nat, self.searcher()),
            result <= 2,
    {
        let mut current_state = state.clone();
        let mut random_ai = GreedyAI::new();
        let ghost definition = &*env.definition;
        let mut i: u32 = 0;
        while i < self.simulation_limit
            invariant
                i <= self.simulation_limit,
                definition == &*env.definition,
                env.definition.wf(),
                env.definition.surveyable(),
                env.owns(&current_state),
                random_ai.accepts(env),
                rollout(definition, current_state@, (self.simulation_limit - i) as nat, self.me) == rollout(
                    definition,
                    state@,
                    self.simulation_limit as nat,
                    self.me,
                ),
            decreases self.simulation_limit - i,
        {
            match env.get_status(&current_state) {
                StateStatus::Running => {
                    let action = random_ai.next(&current_state, env);
                    current_state = env.next(&current_state, &action);
                },
                StateStatus::Winner(winner) => {
                    return if winner == self.me as u64 {
                        2
                    } else {
                        0
                    };
                },
                StateStatus::Draw => {
                    return 1;
                },
            }
            i = i + 1;
        }
        1
    }

    /// One round of the search on a tree of `env`: goes down from the root
    /// by rank to a node that has an unexpanded action or no child, gives it
    /// a child if the game still runs there, plays the position out, and
    /// adds the result to every node on the way back. The root gains exactly
    /// one visit.
    pub fn search_once(&mut self, nodes: &mut Vec<MCTSNode>, env: &MAPFEnvironment)
        requires
            env.definition.wf(),
            env.definition.surveyable(),
            tree_wf(old(nodes)@, env),
            counts_within(old(nodes)@, old(nodes)@[0].visits as int),
            old(nodes)@[0].visits < u32::MAX,
        ensures
            tree_wf(final(nodes)@, env),
            counts_within(final(nodes)@, final(nodes)@[0].visits as int),
            final(nodes)@[0].visits == old(nodes)@[0].visits + 1,
            final(nodes)@[0].state == old(nodes)@[0].state,
            final(nodes)@.len() == old(nodes)@.len() || final(nodes)@.len() == old(nodes)@.len() + 1,
            final(self).searcher() == old(self).searcher(),
            final(self).playout_steps() == old(self).playout_steps(),
            final(self).ranking() == old(self).ranking(),
            all_visited(old(nodes)@) ==> all_visited(final(nodes)@),
            exists|path: Seq<int>, grown: Seq<MCTSNode>, reached: int| #[trigger]
                is_round(
                    old(self).ranking(),
                    old(nodes)@,
                    path,
                    grown,
                    final(nodes)@,
                    reached,
                    env,
                    old(self).playout_steps() as nat,
                    old(self).searcher(),
                ),
            exists|reached: int|
                0 <= reached < final(nodes)@.len() && #[trigger] counted_at(
                    old(nodes)@,
                    final(nodes)@,
                    reached,
                    rollout(
                        &*env.definition,
                        final(nodes)@[reached].state@,
                        old(self).playout_steps() as nat,
                        old(self).searcher(),
                    ),
                ),
            old(nodes)@[0].unexpanded_actions@.len() > 0 && status_of(
                old(nodes)@[0].state@,
                env.definition.goals@,
                env.definition.goals_num@,
            ) == StateStatus::Running ==> final(nodes)@.len() == old(nodes)@.len() + 1
                && final(nodes)@[old(nodes)@.len() as int].parent == Some(0usize),
    {
        let ghost before = nodes@;
        let ghost scorer = self.ranking();
        let ghost mut path: Seq<int> = seq![0int];
        let mut current_index: usize = 0;
        while nodes[current_index].unexpanded_actions.is_empty() && !nodes[current_index].children.is_empty()
            invariant
                current_index < nodes@.len(),
                nodes@ == before,
                tree_wf(nodes@, env),
                scorer == self.ranking(),
                descends(scorer, before, path),
                path.last() == current_index,
            ensures
                current_index < nodes@.len(),
                nodes@ == before,
                descends(scorer, before, path),
                path.last() == current_index,
                stops_at(scorer, before, current_index as int),
            decreases nodes@.len() - current_index,
        {
            match self.select_child(current_index, nodes, env) {
                Some(child) => {
                    proof {
                        let ranks = choose|ranks: Seq<u64>| #[trigger]
                            are_ranks(scorer, before, current_index as int, ranks) && Some(child) == choice_by(
                                before,
                                current_index as int,
                                ranks,
                            );
                        assert(selects(scorer, before, current_index as int, ranks, Some(child as int as usize)));
                        assert(before[current_index as int].unexpanded_actions@.len() == 0);
                        assert(before[current_index as int].children@.len() > 0);
                        assert(steps_down(scorer, before, current_index as int, child as int));
                        lemma_descend(scorer, before, path, child as int);
                        path = path.push(child as int);
                    }
                    current_index = child;
                },
                None => {
                    proof {
                        let ranks = choose|ranks: Seq<u64>| #[trigger]
                            are_ranks(scorer, before, current_index as int, ranks) && None::<usize> == choice_by(
                                before,
                                current_index as int,
                                ranks,
                            );
                        assert(selects(scorer, before, current_index as int, ranks, None));
                    }
                    break ;
                },
            }
        }
        let ghost target = current_index as int;
        let status = env.get_status(&nodes[current_index].state);
        match status {
            StateStatus::Running => {
                match self.expand(current_index, nodes, env) {
                    Some(child) => {
                        current_index = child;
                    },
                    None => {},
                }
            },
            _ => {},
        }
        let ghost grown = nodes@;
        let ghost reached = current_index as int;
        assert(counts_within(grown, grown[0].visits as int));
        let result = self.simulate(&nodes[current_index].state, env);
        backpropagate(current_index, result, nodes, env);
        proof {
            lemma_round(before, grown, nodes@, target, reached, result, env);
            assert(is_round(
                scorer,
                before,
                path,
                grown,
                nodes@,
                reached,
                env,
                self.playout_steps() as nat,
                self.searcher(),
            ));
            if before[0].unexpanded_actions@.len() > 0 {
                assert(path.len() == 1) by {
                    if path.len() > 1 {
                        assert(steps_down(scorer, before, path[0], path[1]));
                    }
                }
            }
        }
    }
}

impl<S: ChildScore> AI for MCTSAI<S> {
    /// The planner plays out with greedy actions, so it can be asked about a
    /// map on which distances can be counted.
    open spec fn accepts(&self, e: &MAPFEnvironment) -> bool {
        e.definition.surveyable()
    }

    /// Searches from `s` until the time is up, or until the root has as many
    /// visits as can be counted, and recommends an action: that of the child
    /// of the root that the search looked at most, and `Commit` where the
    /// time was up before the root had a child.
    fn next(&mut self, s: &MAPFState, e: &MAPFEnvironment) -> (action: MAPFAction)
        ensures
            final(self).searcher() == old(self).searcher(),
            final(self).playout_steps() == old(self).playout_steps(),
            final(self).ranking() == old(self).ranking(),
            exists|nodes: Seq<MCTSNode>| #[trigger]
                tree_wf(nodes, e) && all_visited(nodes) && nodes[0].state@ == s@ && action == recommended(nodes, 0),
    {
        let start_time = now();
        let mut nodes = plant(s, e);
        while is_shorter(&elapsed(&start_time), &self.time_limit) && nodes[0].visits < u32::MAX
            invariant
                e.definition.wf(),
                e.definition.surveyable(),
                tree_wf(nodes@, e),
                all_visited(nodes@),
                counts_within(nodes@, nodes@[0].visits as int),
                nodes@[0].state@ == s@,
                self.searcher() == old(self).searcher(),
                self.playout_steps() == old(self).playout_steps(),
                self.ranking() == old(self).ranking(),
            decreases u32::MAX - nodes@[0].visits,
        {
            self.search_once(&mut nodes, e);
        }
        let action = best_action(0, &nodes, e);
        assert(tree_wf(nodes@, e) && all_visited(nodes@) && nodes@[0].state@ == s@ && action == recommended(nodes@, 0));
        action
    }
}

/// `rank` is a rank that `scorer` may give to child `k` of node `index`: what
/// a call of its `rank` may return for the visits of the node and the visits
/// and results of the child.
pub open spec fn is_rank<S: ChildScore>(scorer: S, nodes: Seq<MCTSNode>, index: int, k: int, rank: u64) -> bool {
    let child = nodes[nodes[index].children@[k].1 as int];
    call_ensures(S::rank, (&scorer, nodes[index].visits, child.visits, child.wins), rank)
}

/// `ranks` holds, for every child of node `index` in their order, a rank
/// that `scorer` may give to it.
pub open spec fn are_ranks<S: ChildScore>(scorer: S, nodes: Seq<MCTSNode>, index: int, ranks: Seq<u64>) -> bool {
    &&& ranks.len() == nodes[index].children@.len()
    &&& forall|k: int| 0 <= k < ranks.len() ==> is_rank(scorer, nodes, index, k, #[trigger] ranks[k])
}

/// The child of node `index` that the ranks of its children select: the one
/// of the highest positive rank, the first where several share it.
pub open spec fn choice_by(nodes: Seq<MCTSNode>, index: int, ranks: Seq<u64>) -> Option<usize> {
    match first_best_upto(ranks, ranks.len() as int) {
        Some(k) => Some(nodes[index].children@[k].1),
        None => None,
    }
}

/// `ranks` are ranks of the children of node `index`, and `child` is what they
/// select.
pub open spec fn selects<S: ChildScore>(
    scorer: S,
    nodes: Seq<MCTSNode>,
    index: int,
    ranks: Seq<u64>,
    child: Option<usize>,
) -> bool {
    are_ranks(scorer, nodes, index, ranks) && child == choice_by(nodes, index, ranks)
}

/// The search goes down from node `from` to node `to`: `from` has no
/// unexpanded action left and has a child, and `to` is the child that the
/// ranks of its children select.
pub open spec fn steps_down<S: ChildScore>(scorer: S, nodes: Seq<MCTSNode>, from: int, to: int) -> bool {
    &&& 0 <= from < nodes.len()
    &&& 0 <= to < nodes.len()
    &&& nodes[from].unexpanded_actions@.len() == 0
    &&& nodes[from].children@.len() > 0
    &&& exists|ranks: Seq<u64>| #[trigger] selects(scorer, nodes, from, ranks, Some(to as usize))
}

/// The search does not go down from node `at`: it has an unexpanded action,
/// or no child, or no child that its ranks select.
pub open spec fn stops_at<S: ChildScore>(scorer: S, nodes: Seq<MCTSNode>, at: int) -> bool {
    ||| nodes[at].unexpanded_actions@.len() > 0
    ||| nodes[at].children@.len() == 0
    ||| exists|ranks: Seq<u64>| #[trigger] selects(scorer, nodes, at, ranks, None)
}

/// `path` is a way down from the root by rank.
pub open spec fn descends<S: ChildScore>(scorer: S, nodes: Seq<MCTSNode>, path: Seq<int>) -> bool {
    &&& path.len() >= 1
    &&& path[0] == 0
    &&& 0 <= path.last() < nodes.len()
    &&& forall|j: int| 0 <= j < path.len() - 1 ==> steps_down(scorer, nodes, #[trigger] path[j], path[j + 1])
}

/// The counts of `after` are those of `before`, a node that `before` lacks
/// starting from nothing, with one visit and `result` added on the way from
/// node `reached` up to the root and nowhere else.
pub open spec fn counted_at(before: Seq<MCTSNode>, after: Seq<MCTSNode>, reached: int, result: u8) -> bool {
    &&& (reached >= before.len()) == (after.len() == before.len() + 1)
    &&& after.len() == before.len() || after.len() == before.len() + 1
    &&& forall|i: int|
        0 <= i < after.len() ==> {
            let visits = if i < before.len() {
                before[i].visits as int
            } else {
                0
            };
            let wins = if i < before.len() {
                before[i].wins as int
            } else {
                0
            };
            if on_way_up(after, reached, i) {
                (#[trigger] after[i]).visits == visits + 1 && after[i].wins == wins + result
            } else {
                after[i].visits == visits && after[i].wins == wins
            }
        }
}

/// One round of the search leads from the tree `before` to the tree `after`:
/// the search goes down `path` by rank and stops at its end; where the game
/// still runs there and an action is left unexpanded, the tree grows by a
/// child of that node for one of these actions, and the child is the node
/// reached; otherwise the tree stays as it is and the end of the path is the
/// node reached. The position of the node reached is played out, and the
/// result is credited to every node on the way from it up to the root and to
/// no other.
pub open spec fn is_round<S: ChildScore>(
    scorer: S,
    before: Seq<MCTSNode>,
    path: Seq<int>,
    grown: Seq<MCTSNode>,
    after: Seq<MCTSNode>,
    reached: int,
    e: &MAPFEnvironment,
    steps: nat,
    me: u8,
) -> bool {
    let target = path.last();
    let grows = before[target].unexpanded_actions@.len() > 0 && status_of(
        before[target].state@,
        e.definition.goals@,
        e.definition.goals_num@,
    ) == StateStatus::Running;
    &&& descends(scorer, before, path)
    &&& stops_at(scorer, before, target)
    &&& if grows {
        reached == before.len() && exists|k: int| #[trigger] grown_at(before, grown, target, k, e)
    } else {
        reached == target && grown == before
    }
    &&& 0 <= reached < grown.len()
    &&& after.len() == grown.len()
    &&& forall|i: int|
        0 <= i < grown.len() ==> if on_way_up(grown, reached, i) {
            credited(grown[i], #[trigger] after[i], rollout(&*e.definition, grown[reached].state@, steps, me))
        } else {
            after[i] == grown[i]
        }
}

proof fn lemma_descend<S: ChildScore>(scorer: S, nodes: Seq<MCTSNode>, path: Seq<int>, child: int)
    requires
        descends(scorer, nodes, path),
        steps_down(scorer, nodes, path.last(), child),
    ensures
        descends(scorer, nodes, path.push(child)),
{
    let longer = path.push(child);
    assert forall|j: int| 0 <= j < longer.len() - 1 implies steps_down(scorer, nodes, #[trigger] longer[j], longer[j + 1]) by {
        if j < path.len() - 1 {
            assert(steps_down(scorer, nodes, path[j], path[j + 1]));
        }
    }
}

proof fn lemma_same_way(before: Seq<MCTSNode>, after: Seq<MCTSNode>, from: int, i: int)
    requires
        before.len() == after.len(),
        forall|j: int| 0 <= j < before.len() ==> (#[trigger] after[j]).parent == before[j].parent,
    ensures
        on_way_up(after, from, i) == on_way_up(before, from, i),
    decreases from,
{
    if i != from && 0 < from < before.len() && before[from].parent is Some && before[from].parent.unwrap() < from {
        lemma_same_way(before, after, before[from].parent.unwrap() as int, i);
    }
}

proof fn lemma_round(
    before: Seq<MCTSNode>,
    grown: Seq<MCTSNode>,
    after: Seq<MCTSNode>,
    target: int,
    reached: int,
    result: u8,
    e: &MAPFEnvironment,
)
    requires
        tree_wf(grown, e),
        0 <= target < before.len(),
        0 <= reached < grown.len(),
        grown == before && reached == target || reached == before.len() && exists|k: int| #[trigger]
            grown_at(before, grown, target, k, e),
        after.len() == grown.len(),
        forall|i: int|
            0 <= i < grown.len() ==> if on_way_up(grown, reached, i) {
                credited(grown[i], #[trigger] after[i], result)
            } else {
                after[i] == grown[i]
            },
    ensures
        counted_at(before, after, reached, result),
        all_visited(before) ==> all_visited(after),
        after[0].state == before[0].state,
{
    assert forall|i: int| 0 <= i < grown.len() implies (#[trigger] after[i]).parent == grown[i].parent by {
        if on_way_up(grown, reached, i) {
            assert(credited(grown[i], after[i], result));
        }
    }
    assert forall|i: int| 0 <= i < after.len() implies on_way_up(after, reached, i) == on_way_up(grown, reached, i) by {
        lemma_same_way(grown, after, reached, i);
    }
    assert(on_way_up(grown, reached, reached));
    if grown != before {
        let k = choose|k: int| #[trigger] grown_at(before, grown, target, k, e);
        assert(grown_at(before, grown, target, k, e));
    }
    assert forall|i: int| 0 <= i < after.len() implies {
        let visits = if i < before.len() {
            before[i].visits as int
        } else {
            0
        };
        let wins = if i < before.len() {
            before[i].wins as int
        } else {
            0
        };
        if on_way_up(after, reached, i) {
            (#[trigger] after[i]).visits == visits + 1 && after[i].wins == wins + result
        } else {
            after[i].visits == visits && after[i].wins == wins
        }
    } by {
        if on_way_up(grown, reached, i) {
            assert(credited(grown[i], after[i], result));
        }
    }
    if all_visited(before) {
        assert forall|i: int| 0 < i < after.len() implies (#[trigger] after[i]).visits >= 1 by {
            if on_way_up(grown, reached, i) {
                assert(credited(grown[i], after[i], result));
            } else {
                assert(i < before.len());
                assert(before[i].visits >= 1);
            }
        }
    }
    lemma_way_goes_to_root(grown, reached);
    assert(credited(grown[0], after[0], result));
}

} // verus!

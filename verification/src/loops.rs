//! Playing a game out between two policies.

use crate::ai::AI;
use crate::deps::clock::{elapsed, is_shorter, now, seconds};
use crate::deps::state_definition::StateStatus;
use crate::mapf::action::MAPFAction;
use crate::mapf::definition::MAPFDefinition;
use crate::mapf::environment::{legal_actions, status_of, step, MAPFEnvironment};
use crate::mapf::state::{MAPFState, StateView};
use std::time::Duration;
use vstd::prelude::*;

verus! {

/// The game took longer than the time it was given.
#[derive(Debug)]
pub struct TimeoutError {}

/// The game was not over after the most actions it was given.
#[derive(Debug)]
pub struct NotFinished {}

/// Why a game has no winner.
#[derive(Debug)]
pub enum EvaluateError {
    Timeout(TimeoutError),
    NotFinished(NotFinished),
}

/// The limits of a game: how long it may take, and how many actions.
pub struct EvaluateAIParams {
    pub timeout: Duration,
    pub max_iters: u64,
}

impl Default for EvaluateAIParams {
    /// Five minutes and a hundred thousand actions.
    fn default() -> (params: Self)
        ensures
            params.max_iters == 100_000,
    {
        EvaluateAIParams { timeout: seconds(300), max_iters: 100_000 }
    }
}

/// How often a game is to be played.
pub struct GatherArgs {
    pub loops: u64,
}

impl Default for GatherArgs {
    /// A hundred times.
    fn default() -> (args: Self)
        ensures
            args.loops == 100,
    {
        GatherArgs { loops: 100 }
    }
}

/// The position after `actions`, one after the other, on a map of `height`
/// by `width` cells.
pub open spec fn play(state: StateView, actions: Seq<MAPFAction>, height: nat, width: nat) -> StateView
    decreases actions.len(),
{
    if actions.len() == 0 {
        state
    } else {
        step(play(state, actions.drop_last(), height, width), actions.last(), height, width)
    }
}

/// Every one of `actions` is legal in the position in which it is taken,
/// starting from `state`.
#[verifier::opaque]
pub open spec fn all_legal(definition: &MAPFDefinition, state: StateView, actions: Seq<MAPFAction>) -> bool {
    forall|i: int|
        0 <= i < actions.len() ==> legal_actions(
            definition,
            play(state, actions.take(i), definition.shape.0 as nat, definition.shape.1 as nat),
        ).contains(#[trigger] actions[i])
}

/// `actions` is a game that `winner` wins: a run of legal actions from the
/// initial position that ends with a commit after which `winner` has won.
pub open spec fn is_won_game(definition: &MAPFDefinition, initial: StateView, actions: Seq<MAPFAction>, winner: u64) -> bool {
    &&& actions.len() > 0
    &&& actions.last() == MAPFAction::Commit
    &&& all_legal(definition, initial, actions)
    &&& status_of(
        play(initial, actions, definition.shape.0 as nat, definition.shape.1 as nat),
        definition.goals@,
        definition.goals_num@,
    ) == StateStatus::Winner(winner)
}

/// There is a game on the map that `winner` wins.
pub open spec fn can_win(definition: &MAPFDefinition, winner: u64) -> bool {
    exists|actions: Seq<MAPFAction>| is_won_game(definition, definition.starting_state(), actions, winner)
}

proof fn lemma_play_on(definition: &MAPFDefinition, initial: StateView, played: Seq<MAPFAction>, action: MAPFAction)
    requires
        all_legal(definition, initial, played),
        legal_actions(
            definition,
            play(initial, played, definition.shape.0 as nat, definition.shape.1 as nat),
        ).contains(action),
    ensures
        all_legal(definition, initial, played.push(action)),
        play(initial, played.push(action), definition.shape.0 as nat, definition.shape.1 as nat) == step(
            play(initial, played, definition.shape.0 as nat, definition.shape.1 as nat),
            action,
            definition.shape.0 as nat,
            definition.shape.1 as nat,
        ),
{
    let height = definition.shape.0 as nat;
    let width = definition.shape.1 as nat;
    reveal(all_legal);
    let longer = played.push(action);
    assert(longer.drop_last() =~= played);
    assert forall|i: int| 0 <= i < longer.len() implies legal_actions(
        definition,
        play(initial, longer.take(i), height, width),
    ).contains(#[trigger] longer[i]) by {
        if i < played.len() {
            assert(longer.take(i) =~= played.take(i));
        } else {
            assert(longer.take(i) =~= played);
        }
    }
}

/// The winner that `action` has brought about, if it has: the position is
/// judged after a commit only, and only a win ends the game.
pub fn winner_after(mapf: &MAPFEnvironment, state: &MAPFState, action: &MAPFAction) -> (winner: Option<u64>)
    requires
        state.wf(),
    ensures
        winner == match (*action, status_of(state@, state.definition.goals@, state.definition.goals_num@)) {
            (MAPFAction::Commit, StateStatus::Winner(w)) => Some(w),
            _ => None,
        },
{
    match action {
        MAPFAction::Commit => {
            match mapf.get_status(state) {
                StateStatus::Winner(w) => Some(w),
                _ => None,
            }
        },
        _ => None,
    }
}

/// Plays one game: the policies act in turn, the first of `actors` for
/// player 1 and the second for player 2, from the initial position, until a
/// commit leaves a winner. The game is given up when the time of `params` is
/// over after an action, and when its number of actions is used up.
///
/// Whatever comes back, a game of legal actions was played to that end.
pub fn evaluate_ai(mapf: &MAPFEnvironment, actors: Vec<Box<dyn AI>>, params: EvaluateAIParams) -> (result: Result<
    u64,
    EvaluateError,
>)
    requires
        mapf.definition.wf(),
        actors@.len() >= 2,
        forall|i: int| 0 <= i < 2 ==> (#[trigger] actors@[i]).accepts(mapf),
    ensures
        match result {
            Ok(winner) => can_win(&*mapf.definition, winner),
            Err(_) => true,
        },
        ends_a_game(&*mapf.definition, params.max_iters, result),
        params.max_iters == 0 ==> result matches Err(EvaluateError::NotFinished(_)),
{
    let ghost limit = params.max_iters;
    let (result, trace) = evaluate_ai_traced(mapf, actors, params);
    proof {
        lemma_game_ends(&*mapf.definition, limit, trace@, result);
        match result {
            Ok(winner) => {
                reveal(undecided);
                assert(is_won_game(&*mapf.definition, mapf.definition.starting_state(), trace@, winner));
            },
            Err(_) => {},
        }
    }
    result
}

/// Plays one game as `evaluate_ai` does, and hands back with its end the
/// actions that were played, in their order.
pub fn evaluate_ai_traced(mapf: &MAPFEnvironment, mut actors: Vec<Box<dyn AI>>, params: EvaluateAIParams) -> (outcome: (
    Result<u64, EvaluateError>,
    Vec<MAPFAction>,
))
    requires
        mapf.definition.wf(),
        actors@.len() >= 2,
        forall|i: int| 0 <= i < 2 ==> (#[trigger] actors@[i]).accepts(mapf),
    ensures
        ends_as(&*mapf.definition, outcome.1@, params.max_iters, outcome.0),
{
    let mut state = mapf.get_initial_state();
    let mut trace: Vec<MAPFAction> = Vec::new();
    let ghost definition = &*mapf.definition;
    let ghost initial = state@;
    let ghost height = definition.shape.0 as nat;
    let ghost width = definition.shape.1 as nat;
    proof {
        reveal(all_legal);
        reveal(undecided);
    }
    let start = now();
    let mut iteration: u64 = 0;
    while iteration < params.max_iters
        invariant
            definition == &*mapf.definition,
            height == definition.shape.0,
            width == definition.shape.1,
            initial == mapf.definition.starting_state(),
            mapf.definition.wf(),
            actors@.len() >= 2,
            forall|i: int| 0 <= i < 2 ==> (#[trigger] actors@[i]).accepts(mapf),
            mapf.owns(&state),
            state@.playing == 1 || state@.playing == 2,
            state@ == play(initial, trace@, height, width),
            trace@.len() == iteration,
            iteration <= params.max_iters,
            all_legal(definition, initial, trace@),
            undecided(definition, trace@, trace@.len() as int),
        decreases params.max_iters - iteration,
    {
        let playing = state.playing;
        let seat = (playing - 1) as usize;
        let action = actors[seat].next(&state, mapf);
        proof {
            lemma_play_on(definition, initial, trace@, action);
            lemma_prefixes_stay(definition, trace@, action);
        }
        trace.push(action);
        state = mapf.next(&state, &action);
        match winner_after(mapf, &state, &action) {
            Some(w) => {
                return (Ok(w), trace);
            },
            None => {},
        }
        proof {
            lemma_still_undecided(definition, trace@);
        }
        if is_shorter(&params.timeout, &elapsed(&start)) {
            return (Err(EvaluateError::Timeout(TimeoutError {  })), trace);
        }
        iteration = iteration + 1;
    }
    proof {
        lemma_undecided_to_the_end(definition, trace@);
    }
    (Err(EvaluateError::NotFinished(NotFinished {  })), trace)
}

/// The winner that the last of `actions`, played from the initial position,
/// has brought about, if it has: the position is judged after a commit only,
/// and only a win counts.
pub open spec fn winner_of(definition: &MAPFDefinition, actions: Seq<MAPFAction>) -> Option<u64> {
    if actions.len() > 0 && actions.last() == MAPFAction::Commit {
        match status_of(
            play(definition.starting_state(), actions, definition.shape.0 as nat, definition.shape.1 as nat),
            definition.goals@,
            definition.goals_num@,
        ) {
            StateStatus::Winner(w) => Some(w),
            _ => None,
        }
    } else {
        None
    }
}

/// None of the first `upto` of `actions` has brought about a winner.
#[verifier::opaque]
pub open spec fn undecided(definition: &MAPFDefinition, actions: Seq<MAPFAction>, upto: int) -> bool {
    forall|k: int| 1 <= k <= upto && k <= actions.len() ==> winner_of(definition, #[trigger] actions.take(k)) is None
}

/// `actions` is how a game of at most `limit` actions goes: every action is
/// legal where it is taken, and none but the last may bring about a winner.
pub open spec fn is_game(definition: &MAPFDefinition, actions: Seq<MAPFAction>, limit: u64) -> bool {
    &&& actions.len() <= limit
    &&& all_legal(definition, definition.starting_state(), actions)
    &&& undecided(definition, actions, actions.len() - 1)
}

/// `actions` is a game that ends as `result` says: with a winner where its
/// last action has brought one about; unfinished where all `limit` actions
/// are used up without one; and out of time after an action, without one.
pub open spec fn ends_as(
    definition: &MAPFDefinition,
    actions: Seq<MAPFAction>,
    limit: u64,
    result: Result<u64, EvaluateError>,
) -> bool {
    &&& is_game(definition, actions, limit)
    &&& match result {
        Ok(winner) => winner_of(definition, actions) == Some(winner),
        Err(EvaluateError::NotFinished(_)) => actions.len() == limit && winner_of(definition, actions) is None,
        Err(EvaluateError::Timeout(_)) => actions.len() >= 1 && winner_of(definition, actions) is None,
    }
}

/// There is a game of at most `limit` actions that ends as `result` says.
pub open spec fn ends_a_game(definition: &MAPFDefinition, limit: u64, result: Result<u64, EvaluateError>) -> bool {
    exists|actions: Seq<MAPFAction>| ends_as(definition, actions, limit, result)
}

proof fn lemma_prefixes_stay(definition: &MAPFDefinition, played: Seq<MAPFAction>, action: MAPFAction)
    requires
        undecided(definition, played, played.len() as int),
    ensures
        undecided(definition, played.push(action), played.len() as int),
{
    reveal(undecided);
    let longer = played.push(action);
    assert forall|k: int| 1 <= k <= played.len() implies winner_of(definition, #[trigger] longer.take(k)) is None by {
        assert(longer.take(k) =~= played.take(k));
    }
}

proof fn lemma_still_undecided(definition: &MAPFDefinition, played: Seq<MAPFAction>)
    requires
        played.len() > 0,
        undecided(definition, played, played.len() - 1),
        winner_of(definition, played) is None,
    ensures
        undecided(definition, played, played.len() as int),
{
    reveal(undecided);
    assert forall|k: int| 1 <= k <= played.len() implies winner_of(definition, #[trigger] played.take(k)) is None by {
        if k == played.len() {
            assert(played.take(k) =~= played);
        }
    }
}

proof fn lemma_undecided_to_the_end(definition: &MAPFDefinition, played: Seq<MAPFAction>)
    requires
        undecided(definition, played, played.len() as int),
    ensures
        undecided(definition, played, played.len() - 1),
        winner_of(definition, played) is None,
{
    reveal(undecided);
    if played.len() > 0 {
        assert(played.take(played.len() as int) =~= played);
    }
}

proof fn lemma_game_ends(
    definition: &MAPFDefinition,
    limit: u64,
    played: Seq<MAPFAction>,
    result: Result<u64, EvaluateError>,
)
    requires
        ends_as(definition, played, limit, result),
    ensures
        ends_a_game(definition, limit, result),
{
}

/// Plays `f` as often as `args` says and gathers what it returns, in the
/// order of the plays.
pub fn gather<F: Fn() -> Result<u64, EvaluateError>>(f: F, args: GatherArgs) -> (results: Vec<Result<u64, EvaluateError>>)
    requires
        f.requires(()),
    ensures
        results@.len() == args.loops,
        forall|i: int| 0 <= i < results@.len() ==> f.ensures((), #[trigger] results@[i]),
{
    let mut results: Vec<Result<u64, EvaluateError>> = Vec::new();
    let mut epoch: u64 = 0;
    while epoch < args.loops
        invariant
            epoch <= args.loops,
            f.requires(()),
            results@.len() == epoch,
            forall|i: int| 0 <= i < results@.len() ==> f.ensures((), #[trigger] results@[i]),
        decreases args.loops - epoch,
    {
        results.push(f());
        epoch = epoch + 1;
    }
    results
}

} // verus!

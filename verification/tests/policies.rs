use mapf_game::ai::distance::survey;
use mapf_game::ai::greedy::GreedyAI;
use mapf_game::ai::mcts::{
    backpropagate, best_action, expand_at, first_best, first_most, plant, ChildScore, MCTSAI,
};
use mapf_game::ai::random_ai::RandomAI;
use mapf_game::ai::AI;
use mapf_game::deps::sparse::SparseMatrix2D;
use mapf_game::deps::state_definition::StateStatus;
use mapf_game::loops::{
    evaluate_ai, evaluate_ai_traced, gather, EvaluateAIParams, EvaluateError, GatherArgs, NotFinished,
};
use mapf_game::mapf::action::MAPFAction;
use mapf_game::mapf::definition::MAPFDefinition;
use mapf_game::mapf::environment::MAPFEnvironment;
use std::sync::Arc;
use std::time::Duration;

const HALL: &str = "#######\n#B2.1A#\n#######\n";

struct Ucb {
    exploration_weight: f64,
}

impl ChildScore for Ucb {
    fn rank(&self, parent_visits: u32, child_visits: u32, child_wins: u64) -> u64 {
        let wins = child_wins as f64 / 2.0;
        let exploitation = wins / child_visits as f64;
        let exploration = (2.0 * (parent_visits as f64).ln() / child_visits as f64).sqrt();
        let score = exploitation + self.exploration_weight * exploration;
        if score.is_nan() || score == f64::NEG_INFINITY {
            return 0;
        }
        let bits = score.to_bits();
        let key = if bits >> 63 == 1 { !bits } else { bits | (1 << 63) };
        key.max(1)
    }
}

fn planner(us: u8, simulation_limit: u32, time_limit_ms: u64) -> MCTSAI<Ucb> {
    MCTSAI::new(us, Ucb { exploration_weight: 1.414 }, simulation_limit, time_limit_ms)
}

fn greedy_pair() -> Vec<Box<dyn AI>> {
    vec![Box::new(GreedyAI::new()), Box::new(GreedyAI::new())]
}

fn strip(starting: Vec<u8>, obstacles: Vec<u8>, goals: Vec<u8>, goals_num: [u64; 3]) -> MAPFEnvironment {
    let width = starting.len();
    MAPFEnvironment {
        definition: Arc::new(MAPFDefinition {
            shape: (1, width),
            starting_positions: SparseMatrix2D { data: vec![Some(starting)], shape: (1, width) },
            obstacles: SparseMatrix2D { data: vec![Some(obstacles)], shape: (1, width) },
            goals: SparseMatrix2D { data: vec![Some(goals)], shape: (1, width) },
            goals_num,
        }),
    }
}

#[test]
fn distances_count_steps_from_the_nearest_goal() {
    let env = MAPFEnvironment::new_from_text(HALL).unwrap();
    assert_eq!(
        survey(&env.definition),
        vec![vec![-1; 7], vec![-1, 0, 1, 2, 1, 0, -1], vec![-1; 7]]
    );
    let open = MAPFEnvironment::new_from_text("....\n.#..\n.#.A\n").unwrap();
    assert_eq!(
        survey(&open.definition),
        vec![vec![5, 4, 3, 2], vec![6, -1, 2, 1], vec![7, -1, 1, 0]]
    );
    let none = MAPFEnvironment::new_from_text("1.2\n").unwrap();
    assert_eq!(survey(&none.definition), vec![vec![-1, -1, -1]]);
}

#[test]
fn a_goal_on_an_obstacle_still_starts_the_count() {
    let env = strip(vec![0, 0, 0], vec![1, 0, 0], vec![1, 0, 0], [0, 1, 0]);
    assert_eq!(survey(&env.definition), vec![vec![0, 1, 2]]);
    let walled = strip(vec![0, 0, 0], vec![0, 1, 0], vec![1, 0, 0], [0, 1, 0]);
    assert_eq!(survey(&walled.definition), vec![vec![0, -1, -1]]);
}

#[test]
fn test_ai_greedy() {
    let env = MAPFEnvironment::new_from_text(HALL).unwrap();
    let state = env.get_initial_state();
    let mut greedy_ai = GreedyAI::new();
    let m = greedy_ai.next(&state, &env);
    assert_eq!(m, MAPFAction::Move((1, 4), (1, 5)));
}

#[test]
fn greedy_keeps_the_first_of_equal_moves() {
    let env = strip(vec![0, 1, 0], vec![0, 0, 0], vec![1, 0, 2], [0, 1, 1]);
    let state = env.get_initial_state();
    let mut greedy = GreedyAI::new();
    assert_eq!(greedy.next(&state, &env), MAPFAction::Move((0, 1), (0, 2)));
    assert_eq!(greedy.next(&state, &env), MAPFAction::Move((0, 1), (0, 2)));
}

#[test]
fn greedy_takes_the_nearest_target_of_all_units() {
    let env = MAPFEnvironment::new_from_text("1...A\n.....\n...1.\n").unwrap();
    let state = env.get_initial_state();
    let mut greedy = GreedyAI::new();
    assert_eq!(greedy.next(&state, &env), MAPFAction::Move((2, 3), (2, 4)));
    let after = env.next(&state, &MAPFAction::Move((2, 3), (2, 4)));
    assert_eq!(greedy.next(&after, &env), MAPFAction::Move((0, 0), (0, 1)));
}

#[test]
fn greedy_commits_when_nothing_can_move() {
    let env = strip(vec![1], vec![0], vec![0], [0, 0, 0]);
    let state = env.get_initial_state();
    assert_eq!(GreedyAI::new().next(&state, &env), MAPFAction::Commit);
    let hall = MAPFEnvironment::new_from_text(HALL).unwrap();
    let moved = hall.next(&hall.get_initial_state(), &MAPFAction::Move((1, 4), (1, 5)));
    assert_eq!(GreedyAI::new().next(&moved, &hall), MAPFAction::Commit);
}

#[test]
fn greedy_ranks_a_cell_without_a_way_first() {
    let env = strip(vec![0, 1, 0], vec![0, 1, 0], vec![0, 0, 1], [0, 1, 0]);
    assert_eq!(survey(&env.definition), vec![vec![-1, -1, 0]]);
    let state = env.get_initial_state();
    assert_eq!(GreedyAI::new().next(&state, &env), MAPFAction::Move((0, 1), (0, 0)));
}

#[test]
fn random_plays_a_legal_action() {
    let env = MAPFEnvironment::new_from_text(HALL).unwrap();
    let state = env.get_initial_state();
    let actions = env.get_actions(&state);
    assert_eq!(
        *actions,
        vec![
            MAPFAction::Move((1, 4), (1, 5)),
            MAPFAction::Move((1, 4), (1, 3)),
            MAPFAction::Commit
        ]
    );
    let mut random = RandomAI::new();
    let mut seen = [false; 3];
    for _ in 0..200 {
        let a = random.next(&state, &env);
        let at = actions.iter().position(|b| *b == a);
        assert!(at.is_some());
        seen[at.unwrap()] = true;
    }
    assert_eq!(seen, [true; 3]);
    let stuck = strip(vec![1], vec![0], vec![0], [0, 0, 0]);
    assert_eq!(random.next(&stuck.get_initial_state(), &stuck), MAPFAction::Commit);
}

#[test]
fn the_first_highest_rank_wins() {
    assert_eq!(first_best(&vec![]), None);
    assert_eq!(first_best(&vec![0, 0]), None);
    assert_eq!(first_best(&vec![1, 3, 3, 2]), Some(1));
    assert_eq!(first_best(&vec![0, 0, 1]), Some(2));
    assert_eq!(first_best(&vec![u64::MAX, 5, u64::MAX]), Some(0));
}

#[test]
fn the_tree_grows_behind_and_counts_upward() {
    let env = MAPFEnvironment::new_from_text(HALL).unwrap();
    let state = env.get_initial_state();
    let mut nodes = plant(&state, &env);
    assert_eq!(nodes.len(), 1);
    assert_eq!(nodes[0].parent, None);
    assert_eq!(nodes[0].visits, 0);
    assert_eq!(nodes[0].unexpanded_actions, *env.get_actions(&state));
    assert_eq!(best_action(0, &nodes, &env), MAPFAction::Commit);

    let back = expand_at(0, 1, &mut nodes, &env);
    assert_eq!(back, 1);
    assert_eq!(nodes.len(), 2);
    assert_eq!(nodes[1].parent, Some(0));
    assert_eq!(nodes[1].unexpanded_actions, vec![MAPFAction::Commit]);
    assert!(nodes[1].state == env.next(&state, &MAPFAction::Move((1, 4), (1, 3))));
    assert_eq!(nodes[0].children, vec![(MAPFAction::Move((1, 4), (1, 3)), 1)]);
    assert_eq!(
        nodes[0].unexpanded_actions,
        vec![MAPFAction::Move((1, 4), (1, 5)), MAPFAction::Commit]
    );
    assert_eq!(best_action(0, &nodes, &env), MAPFAction::Move((1, 4), (1, 3)));

    backpropagate(1, 2, &mut nodes, &env);
    assert_eq!((nodes[1].visits, nodes[1].wins), (1, 2));
    assert_eq!((nodes[0].visits, nodes[0].wins), (1, 2));
    assert_eq!(best_action(0, &nodes, &env), MAPFAction::Move((1, 4), (1, 3)));

    let forth = expand_at(0, 0, &mut nodes, &env);
    assert_eq!(forth, 2);
    backpropagate(2, 0, &mut nodes, &env);
    assert_eq!(best_action(0, &nodes, &env), MAPFAction::Move((1, 4), (1, 3)));
    backpropagate(2, 1, &mut nodes, &env);
    assert_eq!((nodes[2].visits, nodes[2].wins), (2, 1));
    assert_eq!((nodes[1].visits, nodes[1].wins), (1, 2));
    assert_eq!((nodes[0].visits, nodes[0].wins), (3, 3));
    assert_eq!(best_action(0, &nodes, &env), MAPFAction::Move((1, 4), (1, 5)));

    let below = expand_at(2, 0, &mut nodes, &env);
    assert_eq!(below, 3);
    assert_eq!(nodes[3].parent, Some(2));
    assert_eq!(nodes[3].state.playing, 2);
    backpropagate(3, 2, &mut nodes, &env);
    assert_eq!((nodes[3].visits, nodes[3].wins), (1, 2));
    assert_eq!((nodes[2].visits, nodes[2].wins), (3, 3));
    assert_eq!((nodes[0].visits, nodes[0].wins), (4, 5));
    assert_eq!((nodes[1].visits, nodes[1].wins), (1, 2));
}

#[test]
fn the_planner_selects_by_rank_and_expands_what_is_left() {
    let env = MAPFEnvironment::new_from_text(HALL).unwrap();
    let state = env.get_initial_state();
    let mut nodes = plant(&state, &env);
    let mut mcts = planner(1, 50, 100);
    assert_eq!(mcts.select_child(0, &nodes, &env), None);
    let mut children = vec![];
    for _ in 0..3 {
        let child = mcts.expand(0, &mut nodes, &env).unwrap();
        backpropagate(child, 1, &mut nodes, &env);
        children.push(child);
    }
    assert_eq!(children, vec![1, 2, 3]);
    assert_eq!(mcts.expand(0, &mut nodes, &env), None);
    assert_eq!(nodes.len(), 4);
    assert!(nodes[0].unexpanded_actions.is_empty());
    assert_eq!(mcts.select_child(0, &nodes, &env), Some(1));
    backpropagate(2, 2, &mut nodes, &env);
    backpropagate(1, 0, &mut nodes, &env);
    backpropagate(3, 0, &mut nodes, &env);
    assert_eq!(mcts.select_child(0, &nodes, &env), Some(2));
}

#[test]
fn a_playout_is_judged_for_the_searching_player() {
    let env = MAPFEnvironment::new_from_text(HALL).unwrap();
    let state = env.get_initial_state();
    assert_eq!(planner(1, 50, 100).simulate(&state, &env), 2);
    assert_eq!(planner(2, 50, 100).simulate(&state, &env), 0);
    assert_eq!(planner(1, 0, 100).simulate(&state, &env), 1);
    assert_eq!(planner(1, 1, 100).simulate(&state, &env), 1);
    assert_eq!(planner(1, 2, 100).simulate(&state, &env), 1);
    assert_eq!(planner(1, 3, 100).simulate(&state, &env), 2);
    let passed = env.next(&state, &MAPFAction::Commit);
    assert_eq!(planner(1, 50, 100).simulate(&passed, &env), 0);
    assert_eq!(planner(2, 50, 100).simulate(&passed, &env), 2);
    let drawn = strip(vec![1, 0, 2], vec![0, 0, 0], vec![0, 0, 0], [0, 0, 0]);
    assert_eq!(planner(1, 50, 100).simulate(&drawn.get_initial_state(), &drawn), 1);
}

#[test]
fn one_round_of_search_visits_the_root_once() {
    let env = MAPFEnvironment::new_from_text(HALL).unwrap();
    let state = env.get_initial_state();
    let mut nodes = plant(&state, &env);
    let mut mcts = planner(1, 50, 100);
    for round in 1..=20u32 {
        mcts.search_once(&mut nodes, &env);
        assert_eq!(nodes[0].visits, round);
        assert!(nodes.iter().all(|n| n.visits <= round && n.wins <= 2 * n.visits as u64));
    }
    assert_eq!(best_action(0, &nodes, &env), MAPFAction::Move((1, 4), (1, 5)));
}

#[test]
fn test_ai_mcts() {
    let env = MAPFEnvironment::new_from_text(HALL).unwrap();
    let state = env.get_initial_state();
    let mut mcts_ai = planner(1, 50, 100);
    let m = mcts_ai.next(&state, &env);
    assert!(matches!(m, MAPFAction::Move(_, _) | MAPFAction::Commit));
}

#[test]
fn test_ai_correct() {
    let env = MAPFEnvironment::new_from_text(HALL).unwrap();
    let state = env.get_initial_state();
    let mut greedy_ai = planner(1, 100, 1000);
    let m = greedy_ai.next(&state, &env);
    assert_eq!(m, MAPFAction::Move((1, 4), (1, 5)));
}

#[test]
fn test_ai_full_game() {
    let env = MAPFEnvironment::new_from_text(HALL).unwrap();
    let mut state = env.get_initial_state();
    let mut mcts = planner(1, 100, 1000);
    let mut random_ai = RandomAI::new();

    while env.get_status(&state) == StateStatus::Running {
        let a;

        match state.playing {
            1 => {
                a = mcts.next(&state, &env);
            }
            2 => {
                a = random_ai.next(&state, &env);
            }
            _ => {
                panic!("eh?")
            }
        }

        println!(
            "Player {} ({}) did {:?}",
            state.playing,
            if state.playing == 1 { "mcts" } else { "random" },
            a
        );
        state = env.next(&state, &a);

        println!("{}", state.to_string());
        println!();
    }

    println!("======Status======");
    println!("{:?}", env.get_status(&state));
    println!();
}

#[test]
fn without_time_the_planner_commits() {
    let env = MAPFEnvironment::new_from_text(HALL).unwrap();
    let state = env.get_initial_state();
    assert_eq!(planner(1, 50, 0).next(&state, &env), MAPFAction::Commit);
}

#[test]
fn two_greedy_players_play_the_hall_out() {
    let env = MAPFEnvironment::new_from_text(HALL).unwrap();
    let result = evaluate_ai(&env, greedy_pair(), EvaluateAIParams::default());
    assert!(matches!(result, Ok(1)));
    let longer = MAPFEnvironment::new_from_text("#########\n#B.2.1.A#\n#########\n").unwrap();
    let result = evaluate_ai(&longer, greedy_pair(), EvaluateAIParams::default());
    assert!(matches!(result, Ok(1)));
    let behind = MAPFEnvironment::new_from_text("#########\n#B2..1.A#\n#########\n").unwrap();
    let result = evaluate_ai(&behind, greedy_pair(), EvaluateAIParams::default());
    assert!(matches!(result, Ok(2)));
}

#[test]
fn a_game_ends_with_its_limits() {
    let env = MAPFEnvironment::new_from_text(HALL).unwrap();
    let long = Duration::from_secs(300);
    for max_iters in 0..2 {
        let result = evaluate_ai(
            &env,
            greedy_pair(),
            EvaluateAIParams { timeout: long, max_iters },
        );
        assert!(matches!(result, Err(EvaluateError::NotFinished(_))));
    }
    let result = evaluate_ai(
        &env,
        greedy_pair(),
        EvaluateAIParams { timeout: long, max_iters: 2 },
    );
    assert!(matches!(result, Ok(1)));
    let walled = strip(vec![1, 0, 2], vec![0, 1, 0], vec![0, 0, 0], [0, 0, 0]);
    let result = evaluate_ai(
        &walled,
        greedy_pair(),
        EvaluateAIParams { timeout: Duration::ZERO, max_iters: u64::MAX },
    );
    assert!(matches!(result, Err(EvaluateError::Timeout(_))));
    let result = evaluate_ai(&walled, greedy_pair(), EvaluateAIParams { timeout: long, max_iters: 50 });
    assert!(matches!(result, Err(EvaluateError::NotFinished(_))));
    let clash = strip(vec![1, 0, 2], vec![0, 0, 0], vec![0, 0, 0], [0, 0, 0]);
    let result = evaluate_ai(
        &clash,
        greedy_pair(),
        EvaluateAIParams { timeout: long, max_iters: 50 },
    );
    assert!(matches!(result, Ok(2)));
}

#[test]
fn the_defaults_are_as_documented() {
    let params = EvaluateAIParams::default();
    assert_eq!(params.max_iters, 100_000);
    assert_eq!(params.timeout, Duration::from_secs(300));
    assert_eq!(GatherArgs::default().loops, 100);
}

#[test]
fn gather_plays_as_often_as_asked() {
    let env = MAPFEnvironment::new_from_text(HALL).unwrap();
    let play = || {
        let actors: Vec<Box<dyn AI>> = vec![Box::new(GreedyAI::new()), Box::new(RandomAI::new())];
        evaluate_ai(&env, actors, EvaluateAIParams::default())
    };
    let results = gather(play, GatherArgs { loops: 5 });
    assert_eq!(results.len(), 5);
    assert!(results.iter().all(|r| matches!(r, Ok(1) | Ok(2))));
    let none = gather(|| Err(EvaluateError::NotFinished(NotFinished {})), GatherArgs { loops: 0 });
    assert!(none.is_empty());
    let counted = std::cell::Cell::new(0u64);
    let results = gather(
        || {
            counted.set(counted.get() + 1);
            Ok(counted.get())
        },
        GatherArgs { loops: 3 },
    );
    assert!(matches!(results[..], [Ok(1), Ok(2), Ok(3)]));
}

#[test]
fn the_first_highest_count_wins_even_at_zero() {
    assert_eq!(first_most(&vec![]), None);
    assert_eq!(first_most(&vec![0, 0]), Some(0));
    assert_eq!(first_most(&vec![1, 3, 3, 2]), Some(1));
    assert_eq!(first_most(&vec![0, 0, 1]), Some(2));
    assert_eq!(first_most(&vec![u64::MAX, 5, u64::MAX]), Some(0));
}

#[test]
fn unvisited_children_are_recommended_in_their_order() {
    let env = MAPFEnvironment::new_from_text(HALL).unwrap();
    let state = env.get_initial_state();
    let mut nodes = plant(&state, &env);
    assert_eq!(best_action(0, &nodes, &env), MAPFAction::Commit);
    expand_at(0, 2, &mut nodes, &env);
    expand_at(0, 0, &mut nodes, &env);
    assert_eq!(
        nodes[0].children,
        vec![(MAPFAction::Commit, 1), (MAPFAction::Move((1, 4), (1, 5)), 2)]
    );
    assert_eq!(best_action(0, &nodes, &env), MAPFAction::Commit);
    expand_at(1, 0, &mut nodes, &env);
    assert_eq!(best_action(1, &nodes, &env), nodes[1].children[0].0);
    backpropagate(2, 0, &mut nodes, &env);
    assert_eq!(best_action(0, &nodes, &env), MAPFAction::Move((1, 4), (1, 5)));
    assert_eq!((nodes[1].visits, nodes[3].visits), (0, 0));
}

#[test]
fn a_playout_is_credited_on_the_way_up_only() {
    let env = MAPFEnvironment::new_from_text(HALL).unwrap();
    let state = env.get_initial_state();
    let mut nodes = plant(&state, &env);
    expand_at(0, 0, &mut nodes, &env);
    expand_at(0, 0, &mut nodes, &env);
    expand_at(1, 0, &mut nodes, &env);
    expand_at(3, 0, &mut nodes, &env);
    assert_eq!(
        nodes.iter().map(|n| n.parent).collect::<Vec<_>>(),
        vec![None, Some(0), Some(0), Some(1), Some(3)]
    );
    backpropagate(4, 2, &mut nodes, &env);
    assert_eq!(
        nodes.iter().map(|n| (n.visits, n.wins)).collect::<Vec<_>>(),
        vec![(1, 2), (1, 2), (0, 0), (1, 2), (1, 2)]
    );
    backpropagate(2, 1, &mut nodes, &env);
    backpropagate(3, 0, &mut nodes, &env);
    assert_eq!(
        nodes.iter().map(|n| (n.visits, n.wins)).collect::<Vec<_>>(),
        vec![(3, 3), (2, 2), (1, 1), (2, 2), (1, 2)]
    );
}

#[test]
fn a_round_grows_the_tree_where_the_game_runs() {
    let env = MAPFEnvironment::new_from_text(HALL).unwrap();
    let state = env.get_initial_state();
    let mut nodes = plant(&state, &env);
    let mut mcts = planner(1, 50, 100);
    for round in 1..=3usize {
        mcts.search_once(&mut nodes, &env);
        assert_eq!(nodes.len(), round + 1);
        assert_eq!(nodes[round].parent, Some(0));
        assert_eq!(nodes[round].visits, 1);
        assert_eq!(nodes[0].children.len(), round);
        assert_eq!(nodes[0].unexpanded_actions.len(), 3 - round);
    }
    let total: u64 = nodes[1..].iter().map(|n| n.wins).sum();
    assert_eq!(nodes[0].wins, total);
    assert_eq!(total, 2);
    for _ in 0..30 {
        let before = nodes.len();
        mcts.search_once(&mut nodes, &env);
        assert!(nodes.len() == before || nodes.len() == before + 1);
        assert!(nodes[1..].iter().all(|n| n.visits >= 1));
        assert!(nodes.iter().all(|n| n.unexpanded_actions.len() + n.children.len() <= 3));
    }
}

#[test]
fn a_game_hands_out_what_was_played() {
    let env = MAPFEnvironment::new_from_text(HALL).unwrap();
    let (result, played) = evaluate_ai_traced(&env, greedy_pair(), EvaluateAIParams::default());
    assert!(matches!(result, Ok(1)));
    assert_eq!(played, vec![MAPFAction::Move((1, 4), (1, 5)), MAPFAction::Commit]);
    let long = Duration::from_secs(300);
    let (result, played) = evaluate_ai_traced(&env, greedy_pair(), EvaluateAIParams { timeout: long, max_iters: 1 });
    assert!(matches!(result, Err(EvaluateError::NotFinished(_))));
    assert_eq!(played, vec![MAPFAction::Move((1, 4), (1, 5))]);
    let (result, played) = evaluate_ai_traced(&env, greedy_pair(), EvaluateAIParams { timeout: long, max_iters: 0 });
    assert!(matches!(result, Err(EvaluateError::NotFinished(_))));
    assert!(played.is_empty());
    let behind = MAPFEnvironment::new_from_text("#########\n#B2..1.A#\n#########\n").unwrap();
    let (result, played) = evaluate_ai_traced(&behind, greedy_pair(), EvaluateAIParams::default());
    assert!(matches!(result, Ok(2)));
    assert_eq!(
        played,
        vec![
            MAPFAction::Move((1, 5), (1, 6)),
            MAPFAction::Commit,
            MAPFAction::Move((1, 2), (1, 1)),
            MAPFAction::Commit,
        ]
    );
}

use mapf_game::deps::sparse::SparseMatrix2D;
use mapf_game::deps::state_definition::StateStatus;
use mapf_game::mapf::action::MAPFAction;
use mapf_game::mapf::definition::MAPFDefinition;
use mapf_game::mapf::environment::MAPFEnvironment;
use mapf_game::mapf::state::{MAPFState, SpecialState};
use std::sync::Arc;

fn rows(at: [Vec<u8>; 3]) -> Vec<Option<Vec<u8>>> {
    let [a, b, c] = at;
    vec![None, None, None, Some(a), Some(b), Some(c), None, None, None, None]
}

fn hall() -> MAPFEnvironment {
    MAPFEnvironment {
        definition: Arc::new(MAPFDefinition {
            shape: (10, 10),
            starting_positions: SparseMatrix2D {
                data: rows([
                    vec![1, 0, 0, 0, 0, 0, 0, 0, 0, 2],
                    vec![1, 0, 0, 0, 0, 0, 0, 0, 0, 2],
                    vec![1, 0, 0, 0, 0, 0, 0, 0, 0, 2],
                ]),
                shape: (10, 10),
            },
            obstacles: SparseMatrix2D {
                data: rows([
                    vec![0, 0, 0, 0, 1, 1, 1, 0, 0, 0],
                    vec![0, 0, 0, 0, 1, 1, 1, 0, 0, 0],
                    vec![0, 0, 0, 0, 1, 1, 1, 0, 0, 0],
                ]),
                shape: (10, 10),
            },
            goals: SparseMatrix2D {
                data: rows([
                    vec![0, 0, 2, 0, 0, 0, 0, 0, 1, 0],
                    vec![0, 0, 2, 0, 0, 0, 0, 0, 1, 0],
                    vec![0, 0, 2, 0, 0, 0, 0, 0, 1, 0],
                ]),
                shape: (10, 10),
            },
            goals_num: [0, 3, 3],
        }),
    }
}

#[test]
fn test_init() {
    let problem = hall();
    problem.get_initial_state();
}

#[test]
fn test_move() {
    let problem = hall();
    let initial = problem.get_initial_state();

    let action = MAPFAction::Move((3, 0), (3, 1));

    let next = problem.next(&initial, &action);

    assert_eq!(next.units_available.get(3, 0).unwrap(), 0);
    assert_eq!(next.units_available.get(3, 1).unwrap(), 0);

    assert_eq!(next.units_moved.get(3, 0).unwrap(), 0);
    assert_eq!(next.units_moved.get(3, 1).unwrap(), 1);

    println!("{}", next.to_string());

    let commited = problem.next(&next, &MAPFAction::Commit);
    problem.get_status(&commited);
}

#[test]
fn initial_state_is_the_starting_board() {
    let problem = hall();
    let state = problem.get_initial_state();
    assert_eq!(state.playing, 1);
    assert_eq!(state.units_begin.data, problem.definition.starting_positions.data);
    assert_eq!(state.units_available.data, problem.definition.starting_positions.data);
    assert_eq!(state.units_moved.data, vec![None; 10]);
    assert_eq!(state.units_moved.shape, (10, 10));
    assert_eq!(problem.get_status(&state), StateStatus::Running);
}

#[test]
fn actions_end_with_commit() {
    let problem = hall();
    let state = problem.get_initial_state();
    let actions = problem.get_actions(&state);
    assert_eq!(
        *actions,
        vec![
            MAPFAction::Move((3, 0), (3, 1)),
            MAPFAction::Move((3, 0), (4, 0)),
            MAPFAction::Move((3, 0), (2, 0)),
            MAPFAction::Move((4, 0), (4, 1)),
            MAPFAction::Move((4, 0), (5, 0)),
            MAPFAction::Move((4, 0), (3, 0)),
            MAPFAction::Move((5, 0), (5, 1)),
            MAPFAction::Move((5, 0), (6, 0)),
            MAPFAction::Move((5, 0), (4, 0)),
            MAPFAction::Commit,
        ]
    );
}

fn strip(starting: Vec<u8>, obstacles: Vec<u8>, goals: Vec<u8>, goals_num: [u64; 3]) -> MAPFEnvironment {
    let width = starting.len();
    MAPFEnvironment {
        definition: Arc::new(MAPFDefinition {
            shape: (1, width),
            starting_positions: SparseMatrix2D { data: vec![Some(starting)], shape: (1, width) },
            obstacles: SparseMatrix2D { data: vec![Some(obstacles)], shape: (1, width) },
            goals: SparseMatrix2D { data: vec![Some(goals)], shape: (1, width) },
            goals_num,
        }),
    }
}

fn at_turn_start(problem: &MAPFEnvironment, board: Vec<Option<Vec<u8>>>, playing: u8) -> MAPFState {
    let shape = problem.definition.shape;
    MAPFState {
        definition: problem.definition.clone(),
        units_begin: SparseMatrix2D { data: board.clone(), shape },
        units_available: SparseMatrix2D { data: board, shape },
        units_moved: SparseMatrix2D::new(shape.0, shape.1),
        playing,
        special_state: SpecialState::No,
    }
}

#[test]
fn a_move_leaves_the_turn_open() {
    let problem = hall();
    let initial = problem.get_initial_state();
    let next = problem.next(&initial, &MAPFAction::Move((3, 0), (3, 1)));
    assert_eq!(next.playing, 1);
    assert_eq!(next.units_begin.data, initial.units_begin.data);
    assert_eq!(next.units_available.get(4, 0), Some(1));
    assert_eq!(next.units_moved.get(4, 0), None);
    assert_eq!(problem.get_status(&next), StateStatus::Running);
    let actions = problem.get_actions(&next);
    assert_eq!(
        *actions,
        vec![
            MAPFAction::Move((4, 0), (4, 1)),
            MAPFAction::Move((4, 0), (5, 0)),
            MAPFAction::Move((4, 0), (3, 0)),
            MAPFAction::Move((5, 0), (5, 1)),
            MAPFAction::Move((5, 0), (6, 0)),
            MAPFAction::Move((5, 0), (4, 0)),
            MAPFAction::Commit,
        ]
    );
}

#[test]
fn commit_folds_the_move_and_passes_the_turn() {
    let problem = hall();
    let initial = problem.get_initial_state();
    let moved = problem.next(&initial, &MAPFAction::Move((3, 0), (3, 1)));
    let committed = problem.next(&moved, &MAPFAction::Commit);
    assert_eq!(committed.playing, 2);
    assert_eq!(committed.units_begin.get(3, 0), Some(0));
    assert_eq!(committed.units_begin.get(3, 1), Some(1));
    assert_eq!(committed.units_begin.get(3, 9), Some(2));
    assert_eq!(committed.units_available.data, committed.units_begin.data);
    assert_eq!(committed.units_moved.data, vec![None; 10]);
    assert_eq!(problem.get_status(&committed), StateStatus::Running);
    let back = problem.next(&committed, &MAPFAction::Commit);
    assert_eq!(back.playing, 1);
}

#[test]
fn a_move_and_its_way_back_cancel_at_commit() {
    let problem = hall();
    let initial = problem.get_initial_state();
    let there = problem.next(&initial, &MAPFAction::Move((3, 0), (3, 1)));
    let back = problem.next(&there, &MAPFAction::Move((3, 1), (3, 0)));
    let committed = problem.next(&back, &MAPFAction::Commit);
    for r in 0..10 {
        for c in 0..10 {
            assert_eq!(
                committed.units_begin.get(r, c).unwrap_or(0),
                initial.units_begin.get(r, c).unwrap_or(0)
            );
        }
    }
    assert_eq!(committed.units_begin.get(3, 0), Some(1));
    assert_eq!(committed.units_begin.get(3, 1), Some(0));
    assert_eq!(committed.playing, 2);
}

#[test]
fn units_of_two_owners_on_one_cell_annihilate() {
    let problem = strip(vec![1, 2, 0], vec![0, 0, 0], vec![0, 0, 0], [0, 0, 0]);
    let initial = problem.get_initial_state();
    let moved = problem.next(&initial, &MAPFAction::Move((0, 0), (0, 1)));
    assert_eq!(moved.units_available.data, vec![Some(vec![0, 2, 0])]);
    assert_eq!(moved.units_moved.data, vec![Some(vec![0, 1, 0])]);
    let committed = problem.next(&moved, &MAPFAction::Commit);
    assert_eq!(committed.units_begin.data, vec![Some(vec![0, 0, 0])]);
    assert_eq!(committed.units_available.data, vec![Some(vec![0, 0, 0])]);
    assert_eq!(problem.get_status(&committed), StateStatus::Winner(2));
}

#[test]
fn two_arrivals_of_one_owner_cancel() {
    let problem = strip(vec![1, 0, 1], vec![0, 0, 0], vec![0, 0, 0], [0, 0, 0]);
    let initial = problem.get_initial_state();
    let one = problem.next(&initial, &MAPFAction::Move((0, 0), (0, 1)));
    let two = problem.next(&one, &MAPFAction::Move((0, 2), (0, 1)));
    assert_eq!(two.units_moved.data, vec![Some(vec![0, 0, 0])]);
    let committed = problem.next(&two, &MAPFAction::Commit);
    assert_eq!(committed.units_begin.data, vec![Some(vec![0, 0, 0])]);
}

#[test]
fn moves_stop_at_obstacles_and_at_the_border() {
    let problem = strip(vec![1, 0, 0, 2], vec![0, 1, 0, 0], vec![0, 0, 0, 0], [0, 0, 0]);
    let initial = problem.get_initial_state();
    assert_eq!(*problem.get_actions(&initial), vec![MAPFAction::Commit]);
    let second = problem.next(&initial, &MAPFAction::Commit);
    assert_eq!(
        *problem.get_actions(&second),
        vec![MAPFAction::Move((0, 3), (0, 2)), MAPFAction::Commit]
    );
}

#[test]
fn a_move_outside_the_map_changes_nothing() {
    let problem = strip(vec![1, 2], vec![0, 0], vec![0, 0], [0, 0, 0]);
    let initial = problem.get_initial_state();
    let next = problem.next(&initial, &MAPFAction::Move((5, 5), (7, 7)));
    assert_eq!(next.units_available.data, initial.units_available.data);
    assert_eq!(next.units_moved.data, vec![None]);
}

#[test]
fn standing_on_all_own_goals_wins() {
    let problem = hall();
    let first = at_turn_start(
        &problem,
        rows([
            vec![0, 0, 0, 0, 0, 0, 0, 0, 1, 2],
            vec![0, 0, 0, 0, 0, 0, 0, 0, 1, 2],
            vec![0, 0, 0, 0, 0, 0, 0, 0, 1, 2],
        ]),
        2,
    );
    assert_eq!(problem.get_status(&first), StateStatus::Winner(1));
    let second = at_turn_start(
        &problem,
        rows([
            vec![1, 0, 2, 0, 0, 0, 0, 0, 0, 0],
            vec![1, 0, 2, 0, 0, 0, 0, 0, 0, 0],
            vec![1, 0, 2, 0, 0, 0, 0, 0, 0, 0],
        ]),
        1,
    );
    assert_eq!(problem.get_status(&second), StateStatus::Winner(2));
    let both = at_turn_start(
        &problem,
        rows([
            vec![0, 0, 2, 0, 0, 0, 0, 0, 1, 0],
            vec![0, 0, 2, 0, 0, 0, 0, 0, 1, 0],
            vec![0, 0, 2, 0, 0, 0, 0, 0, 1, 0],
        ]),
        1,
    );
    assert_eq!(problem.get_status(&both), StateStatus::Winner(1));
    let two_of_three = at_turn_start(
        &problem,
        rows([
            vec![0, 0, 0, 0, 0, 0, 0, 0, 1, 2],
            vec![0, 0, 0, 0, 0, 0, 0, 0, 1, 2],
            vec![0, 0, 0, 0, 0, 0, 0, 1, 0, 2],
        ]),
        1,
    );
    assert_eq!(problem.get_status(&two_of_three), StateStatus::Running);
}

#[test]
fn standing_on_the_goals_of_the_other_does_not_count() {
    let problem = hall();
    let swapped = at_turn_start(
        &problem,
        rows([
            vec![0, 0, 1, 0, 0, 0, 0, 0, 2, 0],
            vec![0, 0, 1, 0, 0, 0, 0, 0, 2, 0],
            vec![0, 0, 1, 0, 0, 0, 0, 0, 2, 0],
        ]),
        1,
    );
    assert_eq!(problem.get_status(&swapped), StateStatus::Running);
}

#[test]
fn a_side_without_units_loses() {
    let problem = hall();
    let only_first = at_turn_start(
        &problem,
        rows([
            vec![1, 0, 0, 0, 0, 0, 0, 0, 0, 0],
            vec![0, 0, 0, 0, 0, 0, 0, 0, 0, 0],
            vec![0, 0, 0, 0, 0, 0, 0, 0, 0, 0],
        ]),
        1,
    );
    assert_eq!(problem.get_status(&only_first), StateStatus::Winner(1));
    let only_second = at_turn_start(
        &problem,
        rows([
            vec![0, 0, 0, 0, 0, 0, 0, 0, 0, 2],
            vec![0, 0, 0, 0, 0, 0, 0, 0, 0, 0],
            vec![0, 0, 0, 0, 0, 0, 0, 0, 0, 0],
        ]),
        1,
    );
    assert_eq!(problem.get_status(&only_second), StateStatus::Winner(2));
    let nobody = at_turn_start(&problem, vec![None; 10], 1);
    assert_eq!(problem.get_status(&nobody), StateStatus::Winner(2));
}

#[test]
fn a_game_without_goals_is_drawn_while_both_live() {
    let problem = strip(vec![1, 0, 2], vec![0, 0, 0], vec![0, 0, 0], [0, 0, 0]);
    let initial = problem.get_initial_state();
    assert_eq!(problem.get_status(&initial), StateStatus::Draw);
    let one_sided = strip(vec![1, 0, 2], vec![0, 0, 0], vec![0, 1, 0], [0, 1, 0]);
    assert_eq!(one_sided.get_status(&one_sided.get_initial_state()), StateStatus::Running);
}

#[test]
fn states_compare_by_planes_and_player() {
    let problem = hall();
    let a = problem.get_initial_state();
    let b = problem.get_initial_state();
    assert!(a == b);
    let moved = problem.next(&a, &MAPFAction::Move((3, 0), (3, 1)));
    assert!(a != moved);
    let there_and_back = problem.next(&moved, &MAPFAction::Move((3, 1), (3, 0)));
    assert!(a != there_and_back);
    let mut marked = a.clone();
    marked.special_state = SpecialState::AnyGoal;
    let mut other = moved.clone();
    other.special_state = SpecialState::AnyGoal;
    assert!(marked == other);
    assert!(marked != a);
    assert!(a.clone() == a);
}

#[test]
fn a_position_is_drawn_cell_by_cell() {
    let problem = strip(vec![1, 0, 2, 0, 0], vec![0, 0, 0, 1, 0], vec![0, 2, 0, 0, 0], [0, 0, 1]);
    let initial = problem.get_initial_state();
    assert_eq!(initial.to_string(), "1    B    2    #    .    \n\n");
    let moved = problem.next(&initial, &MAPFAction::Move((0, 0), (0, 1)));
    assert_eq!(moved.to_string(), "<-   001B 2    #    .    \n\n");
    let clash = problem.next(&initial, &MAPFAction::Move((0, 0), (0, 2)));
    assert_eq!(clash.to_string(), "<-   B    \u{2694}21 #    .    \n\n");
    let far = problem.next(&initial, &MAPFAction::Move((0, 0), (0, 4)));
    assert_eq!(far.to_string(), "<-   B    2    #    1\u{1f4a8}  \n\n");
}

#[test]
fn malformed_grids_and_maps_are_told_apart() {
    let problem = hall();
    assert!(problem.definition.is_well_formed());
    assert!(problem.definition.is_surveyable());
    assert!(problem.get_initial_state().is_well_formed());
    assert!(!SparseMatrix2D { data: vec![None], shape: (2, 2) }.is_well_formed());
    assert!(!SparseMatrix2D { data: vec![Some(vec![0]), None], shape: (2, 2) }.is_well_formed());
    assert!(SparseMatrix2D { data: vec![Some(vec![0, 0]), None], shape: (2, 2) }.is_well_formed());
    let mut state = problem.get_initial_state();
    state.units_moved = SparseMatrix2D::new(10, 9);
    assert!(!state.is_well_formed());
    let huge = MAPFDefinition {
        shape: (usize::MAX, usize::MAX),
        starting_positions: SparseMatrix2D::new(0, 0),
        obstacles: SparseMatrix2D::new(0, 0),
        goals: SparseMatrix2D::new(0, 0),
        goals_num: [0, 0, 0],
    };
    assert!(!huge.is_well_formed());
    assert_eq!(huge.is_surveyable(), usize::BITS < 64);
}

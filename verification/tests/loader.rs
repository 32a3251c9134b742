use mapf_game::mapf::environment::MAPFEnvironment;
use mapf_game::mapf::loader::MapParseError;

const HALL: &str = "#######\n#B2.1A#\n#######\n";

const FIXTURES: [&str; 5] = [
    HALL,
    "..........\n..........\n..........\n1.B.###.A2\n1.B.###.A2\n1.B.###.A2\n..........\n..........\n..........\n..........\n",
    "1\n",
    ".#.\n9Z8\n.#.\n",
    "A.1.2.B\n#######\nB.2.1.A\n",
];

fn error_of(text: &str) -> MapParseError {
    match MAPFEnvironment::new_from_text(text) {
        Ok(_) => panic!("the text reads as a map"),
        Err(e) => e,
    }
}

fn normalize(s: &str) -> String {
    s.lines().map(str::trim_end).filter(|l| !l.is_empty()).collect::<Vec<_>>().join("\n")
}

#[test]
fn test_load_maps() {
    for text in FIXTURES {
        let result = MAPFEnvironment::new_from_text(text);
        assert!(result.is_ok(), "Failed to load map {:?}: {:?}", text, result.err());
        let rendered = result.unwrap().to_string();
        println!("See: \n{}", rendered);
    }
}

#[test]
fn test_map_round_trip() {
    for text in FIXTURES {
        let env = MAPFEnvironment::new_from_text(text).expect("Failed to parse map");
        let rendered = env.to_string();
        assert_eq!(normalize(text), normalize(&rendered), "Mismatch on map {:?}", text);
    }
}

#[test]
fn a_written_map_reads_as_the_same_map() {
    for text in FIXTURES {
        let first = MAPFEnvironment::new_from_text(text).unwrap();
        let second = MAPFEnvironment::new_from_text(&first.to_string()).unwrap();
        assert_eq!(first.definition.shape, second.definition.shape);
        assert!(first.definition.starting_positions == second.definition.starting_positions);
        assert!(first.definition.obstacles == second.definition.obstacles);
        assert!(first.definition.goals == second.definition.goals);
        assert_eq!(first.definition.goals_num, second.definition.goals_num);
    }
}

#[test]
fn a_map_is_read_plane_by_plane() {
    let env = MAPFEnvironment::new_from_text(HALL).unwrap();
    let map = &env.definition;
    assert_eq!(map.shape, (3, 7));
    assert_eq!(
        map.obstacles.data,
        vec![Some(vec![1; 7]), Some(vec![1, 0, 0, 0, 0, 0, 1]), Some(vec![1; 7])]
    );
    assert_eq!(map.obstacles.shape, (3, 7));
    assert_eq!(map.starting_positions.data, vec![None, Some(vec![0, 0, 2, 0, 1, 0, 0]), None]);
    assert_eq!(map.starting_positions.shape, (3, 7));
    assert_eq!(map.goals.data, vec![None, Some(vec![0, 2, 0, 0, 0, 1, 0]), None]);
    assert_eq!(map.goals.shape, (3, 7));
    assert_eq!(map.goals_num, [0, 1, 1]);
    assert_eq!(env.to_string(), HALL);
}

#[test]
fn digits_and_letters_keep_their_numbers() {
    let env = MAPFEnvironment::new_from_text("09\nAZ\nCB").unwrap();
    let map = &env.definition;
    assert_eq!(map.shape, (3, 2));
    assert_eq!(map.starting_positions.data, vec![Some(vec![0, 9]), None, None]);
    assert_eq!(map.goals.data, vec![None, Some(vec![1, 26]), Some(vec![3, 2])]);
    assert_eq!(map.obstacles.data, vec![None, None, None]);
    assert_eq!(map.goals_num, [0, 1, 1]);
    assert_eq!(env.to_string(), ".9\nAZ\nCB\n");
}

#[test]
fn goals_are_counted_per_player() {
    let env = MAPFEnvironment::new_from_text("AAB\nA.B\n").unwrap();
    assert_eq!(env.definition.goals_num, [0, 3, 2]);
}

#[test]
fn blank_lines_and_carriage_returns_are_skipped() {
    let env = MAPFEnvironment::new_from_text("\n   \n.1\r\n\t\n\u{2003}\u{a0}\n#A\r\n\r\n").unwrap();
    assert_eq!(env.definition.shape, (2, 2));
    assert_eq!(env.to_string(), ".1\n#A\n");
    let open = MAPFEnvironment::new_from_text(".1\n#A").unwrap();
    assert_eq!(open.to_string(), ".1\n#A\n");
}

#[test]
fn a_text_without_lines_is_no_map() {
    assert_eq!(error_of(""), MapParseError::EmptyGrid);
    assert_eq!(error_of("\n"), MapParseError::EmptyGrid);
    assert_eq!(error_of("  \n\t\r\n \u{3000}"), MapParseError::EmptyGrid);
}

#[test]
fn lines_of_unequal_width_are_no_map() {
    assert_eq!(error_of("..\n...\n"), MapParseError::InconsistentWidth { line: 1 });
    assert_eq!(error_of("...\n\n...\n..\n"), MapParseError::InconsistentWidth { line: 2 });
    assert_eq!(error_of("..\n\u{e9}.\n"), MapParseError::InconsistentWidth { line: 1 });
    assert_eq!(error_of("..\n. \n.x.\n"), MapParseError::InvalidCharacter { ch: ' ', column: 1, line: 1 });
}

#[test]
fn a_stray_character_is_no_map() {
    assert_eq!(error_of("..x"), MapParseError::InvalidCharacter { ch: 'x', column: 2, line: 0 });
    assert_eq!(error_of("..\n.a\n"), MapParseError::InvalidCharacter { ch: 'a', column: 1, line: 1 });
    assert_eq!(error_of(".1\n\u{e9}\n"), MapParseError::InvalidCharacter { ch: '\u{e9}', column: 0, line: 1 });
    assert_eq!(error_of("..\r"), MapParseError::InvalidCharacter { ch: '\r', column: 2, line: 0 });
    assert_eq!(error_of("x\n..\n"), MapParseError::InvalidCharacter { ch: 'x', column: 0, line: 0 });
    assert_eq!(error_of(".@"), MapParseError::InvalidCharacter { ch: '@', column: 1, line: 0 });
    assert_eq!(error_of(".["), MapParseError::InvalidCharacter { ch: '[', column: 1, line: 0 });
    assert_eq!(error_of(".:"), MapParseError::InvalidCharacter { ch: ':', column: 1, line: 0 });
    assert_eq!(error_of("./"), MapParseError::InvalidCharacter { ch: '/', column: 1, line: 0 });
}

#[test]
fn a_loaded_game_starts_from_the_map() {
    let env = MAPFEnvironment::new_from_text(HALL).unwrap();
    let state = env.get_initial_state();
    assert_eq!(state.units_begin.data, vec![None, Some(vec![0, 0, 2, 0, 1, 0, 0]), None]);
    assert_eq!(state.playing, 1);
}

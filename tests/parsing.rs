use lle_core::{parse, ParseError, WorldState};

fn ok(text: &str) -> WorldState {
    match parse(text, "level") {
        Ok(w) => w,
        Err(e) => panic!("unexpected error {e:?}"),
    }
}

#[test]
fn parse_simple_level() {
    let w = ok("S0 . G\nX @ G\n");
    assert_eq!(w.agents_positions, vec![(0, 0)]);
    assert_eq!(w.gems_collected, vec![false, false]);
}

#[test]
fn parse_sizes_match_tiles() {
    let w = ok("S1 S0 G . X\nG  V  G X X\n\n");
    assert_eq!(w.agents_positions.len(), 2);
    assert_eq!(w.agents_positions, vec![(0, 0), (0, 1)]);
    assert_eq!(w.gems_collected.len(), 3);
    assert!(w.gems_collected.iter().all(|g| !g));
}

#[test]
fn parse_is_deterministic() {
    let text = "S0 G X\n. S1 X";
    let a = ok(text);
    let b = ok(text);
    assert!(a == b);
    assert_eq!(a.hash_value(), b.hash_value());
}

#[test]
fn parse_handles_blanks_and_crlf() {
    let w = ok("\n  S0\t X \r\n\n G   X\r\n");
    assert_eq!(w.agents_positions, vec![(0, 0)]);
    assert_eq!(w.gems_collected, vec![false]);
}

#[test]
fn parse_multi_digit_agent_numbers() {
    let w = ok("S10 S2 X X");
    assert_eq!(w.agents_positions, vec![(0, 0), (0, 1)]);
}

#[test]
fn empty_text_is_empty_world() {
    assert!(matches!(parse("", "level"), Err(ParseError::EmptyWorld)));
    assert!(matches!(parse(" \n\t\n", "level"), Err(ParseError::EmptyWorld)));
}

#[test]
fn empty_world_checked_before_name() {
    assert!(matches!(parse("", "bad name"), Err(ParseError::EmptyWorld)));
}

#[test]
fn invalid_file_name() {
    match parse("S0 X", "my level") {
        Err(ParseError::InvalidFileName { file_name }) => assert_eq!(file_name, "my level"),
        other => panic!("unexpected {other:?}"),
    }
    assert!(matches!(
        parse("S0 X", ""),
        Err(ParseError::InvalidFileName { .. })
    ));
    assert!(parse("S0 X", "lvl-1.txt").is_ok());
}

#[test]
fn short_row_gives_inconsistent_dimensions() {
    match parse("S0 . .\nX . .\n. .\n. . .", "level") {
        Err(ParseError::InconsistentDimensions {
            expected_n_cols,
            actual_n_cols,
            row,
        }) => {
            assert_eq!(expected_n_cols, 3);
            assert_eq!(actual_n_cols, 2);
            assert_eq!(row, 2);
        }
        other => panic!("unexpected {other:?}"),
    }
}

#[test]
fn dimensions_checked_before_tiles() {
    assert!(matches!(
        parse("S0 ? .\nX .", "level"),
        Err(ParseError::InconsistentDimensions { row: 1, .. })
    ));
}

#[test]
fn invalid_tile_reports_token_and_place() {
    match parse("S0 . .\nX Q7 .", "level") {
        Err(ParseError::InvalidTile { tile_str, line, col }) => {
            assert_eq!(tile_str, "Q7");
            assert_eq!(line, 1);
            assert_eq!(col, 1);
        }
        other => panic!("unexpected {other:?}"),
    }
    assert!(matches!(
        parse("S", "level"),
        Err(ParseError::InvalidTile { line: 0, col: 0, .. })
    ));
    assert!(matches!(
        parse("S0x X", "level"),
        Err(ParseError::InvalidTile { .. })
    ));
    assert!(matches!(
        parse("S99999999999999999999999 X", "level"),
        Err(ParseError::InvalidTile { .. })
    ));
}

#[test]
fn duplicate_start_tile() {
    match parse(". S1 X\nX . S1", "level") {
        Err(ParseError::DuplicateStartTile {
            agent_id,
            start1,
            start2,
        }) => {
            assert_eq!(agent_id, 1);
            assert_eq!(start1, (0, 1));
            assert_eq!(start2, (1, 2));
        }
        other => panic!("unexpected {other:?}"),
    }
}

#[test]
fn duplicate_start_tile_same_number_written_differently() {
    assert!(matches!(
        parse("S0 S00 X X", "level"),
        Err(ParseError::DuplicateStartTile {
            agent_id: 0,
            start1: (0, 0),
            start2: (0, 1)
        })
    ));
}

#[test]
fn no_agents() {
    assert!(matches!(parse(". G X", "level"), Err(ParseError::NoAgents)));
}

#[test]
fn not_enough_exit_tiles() {
    match parse("S0 S1 X", "level") {
        Err(ParseError::NotEnoughExitTiles { n_starts, n_exits }) => {
            assert_eq!(n_starts, 2);
            assert_eq!(n_exits, 1);
        }
        other => panic!("unexpected {other:?}"),
    }
}

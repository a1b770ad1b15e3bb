use dungeon_solver::puzzle::{count_value, ParseError, ParsedBoard};
use dungeon_solver::text::{is_whitespace, text_lines, trim_range, trimmed_copy};

const PUZZLE_TEXT: &str = "88888242\n5m.......\n7........\n5.......t\n7........\n5........\n7........\n5........\n7.....m..\n";

#[test]
fn parse_reads_counts_and_marks() {
    let puzzle = ParsedBoard::parse(PUZZLE_TEXT).unwrap();
    assert_eq!(puzzle.col_constraints, [8, 8, 8, 8, 8, 2, 4, 2]);
    assert_eq!(puzzle.row_constraints, [5, 7, 5, 7, 5, 7, 5, 7]);
    for x in 0..8 {
        for y in 0..8 {
            assert_eq!(puzzle.monster_locations[x][y], (x, y) == (0, 0) || (x, y) == (5, 7));
            assert_eq!(puzzle.treasure_locations[x][y], (x, y) == (7, 2));
        }
    }
}

#[test]
fn parse_ignores_blanks_around_the_text_and_each_line() {
    let padded = "\n\n  00000000 \r\n\t0........\r\n0........\n0........  \n0........\n   0........\n0........\n0........\n0......m.\n \n";
    let puzzle = ParsedBoard::parse(padded).unwrap();
    assert_eq!(puzzle.col_constraints, [0; 8]);
    assert_eq!(puzzle.row_constraints, [0; 8]);
    assert!(puzzle.monster_locations[6][7]);
    assert_eq!(puzzle.all_monster_positions(), vec![(6, 7)]);
}

#[test]
fn parse_takes_any_other_character_for_an_unmarked_cell() {
    let text = "00000000\n0.x#5M T.\n0........\n0........\n0........\n0........\n0........\n0........\n0........";
    let puzzle = ParsedBoard::parse(text).unwrap();
    assert_eq!(puzzle.monster_locations, [[false; 8]; 8]);
    assert_eq!(puzzle.treasure_locations, [[false; 8]; 8]);
}

#[test]
fn parse_rejects_a_wrong_number_of_lines() {
    assert_eq!(ParsedBoard::parse("").unwrap_err(), ParseError::LineCount);
    assert_eq!(ParsedBoard::parse("   \n  ").unwrap_err(), ParseError::LineCount);
    assert_eq!(ParsedBoard::parse("00000000").unwrap_err(), ParseError::LineCount);
    let eight = "00000000\n0........\n0........\n0........\n0........\n0........\n0........\n0........";
    assert_eq!(ParsedBoard::parse(eight).unwrap_err(), ParseError::LineCount);
    let ten = "00000000\n0........\n0........\n0........\n0........\n0........\n0........\n0........\n0........\n0........";
    assert_eq!(ParsedBoard::parse(ten).unwrap_err(), ParseError::LineCount);
    let gap = "00000000\n0........\n0........\n0........\n\n0........\n0........\n0........\n0........\n0........";
    assert_eq!(ParsedBoard::parse(gap).unwrap_err(), ParseError::LineCount);
}

#[test]
fn parse_rejects_a_line_of_the_wrong_length() {
    let short_heading = "0000000\n0........\n0........\n0........\n0........\n0........\n0........\n0........\n0........";
    assert_eq!(ParsedBoard::parse(short_heading).unwrap_err(), ParseError::LineLength);
    let long_heading = "000000000\n0........\n0........\n0........\n0........\n0........\n0........\n0........\n0........";
    assert_eq!(ParsedBoard::parse(long_heading).unwrap_err(), ParseError::LineLength);
    let short_row = "00000000\n0........\n0........\n0.......\n0........\n0........\n0........\n0........\n0........";
    assert_eq!(ParsedBoard::parse(short_row).unwrap_err(), ParseError::LineLength);
    let long_row = "00000000\n0........\n0........\n0........\n0........\n0........\n0........\n0........\n0.........";
    assert_eq!(ParsedBoard::parse(long_row).unwrap_err(), ParseError::LineLength);
    let empty_row = "00000000\n0........\n0........\n0........\n \n0........\n0........\n0........\n0........";
    assert_eq!(ParsedBoard::parse(empty_row).unwrap_err(), ParseError::LineLength);
    // The length is judged before the counts are read.
    let both = "0000000x\n0........\n0........\n0........\n0........\n0........\n0........\n0........\n0.......";
    assert_eq!(ParsedBoard::parse(both).unwrap_err(), ParseError::LineLength);
}

#[test]
fn parse_rejects_a_count_that_is_no_digit_up_to_eight() {
    let letter = "0000a000\n0........\n0........\n0........\n0........\n0........\n0........\n0........\n0........";
    assert_eq!(ParsedBoard::parse(letter).unwrap_err(), ParseError::BadConstraint);
    let nine = "00000009\n0........\n0........\n0........\n0........\n0........\n0........\n0........\n0........";
    assert_eq!(ParsedBoard::parse(nine).unwrap_err(), ParseError::BadConstraint);
    let row = "00000000\n0........\n0........\n.........\n0........\n0........\n0........\n0........\n0........";
    assert_eq!(ParsedBoard::parse(row).unwrap_err(), ParseError::BadConstraint);
    let nine_row = "00000000\n0........\n0........\n0........\n0........\n0........\n0........\n0........\n9........";
    assert_eq!(ParsedBoard::parse(nine_row).unwrap_err(), ParseError::BadConstraint);
}

#[test]
fn parse_rejects_counts_that_add_up_differently() {
    let more_columns = "10000000\n0........\n0........\n0........\n0........\n0........\n0........\n0........\n0........";
    assert_eq!(ParsedBoard::parse(more_columns).unwrap_err(), ParseError::TotalsDiffer);
    let more_rows = "00000000\n0........\n0........\n0........\n0........\n0........\n0........\n0........\n2........";
    assert_eq!(ParsedBoard::parse(more_rows).unwrap_err(), ParseError::TotalsDiffer);
    let equal = "10010000\n0........\n0........\n0........\n0........\n0........\n0........\n0........\n2........";
    assert!(ParsedBoard::parse(equal).is_ok());
    let full = "88888888\n8........\n8........\n8........\n8........\n8........\n8........\n8........\n8........";
    assert!(ParsedBoard::parse(full).is_ok());
}

#[test]
fn count_value_reads_the_digits_up_to_eight() {
    assert_eq!(count_value('0'), Some(0));
    assert_eq!(count_value('5'), Some(5));
    assert_eq!(count_value('8'), Some(8));
    assert_eq!(count_value('9'), None);
    assert_eq!(count_value('/'), None);
    assert_eq!(count_value('m'), None);
    assert_eq!(count_value(' '), None);
}

#[test]
fn all_monster_positions_go_column_by_column() {
    let mut monster_locations = [[false; 8]; 8];
    monster_locations[3][1] = true;
    monster_locations[0][7] = true;
    monster_locations[3][0] = true;
    monster_locations[7][7] = true;
    monster_locations[0][0] = true;
    let puzzle = ParsedBoard {
        col_constraints: [0; 8],
        row_constraints: [0; 8],
        monster_locations,
        treasure_locations: [[true; 8]; 8],
    };
    assert_eq!(puzzle.all_monster_positions(), vec![(0, 0), (0, 7), (3, 0), (3, 1), (7, 7)]);
}

#[test]
fn all_monster_positions_of_a_puzzle_without_monsters() {
    let puzzle = ParsedBoard {
        col_constraints: [1; 8],
        row_constraints: [1; 8],
        monster_locations: [[false; 8]; 8],
        treasure_locations: [[false; 8]; 8],
    };
    assert!(puzzle.all_monster_positions().is_empty());
}

#[test]
fn text_lines_cuts_at_line_feeds_and_trims() {
    let lines = text_lines("  ab \n c d\r\n\n e\t\n");
    let expected: Vec<Vec<char>> =
        vec!["ab".chars().collect(), "c d".chars().collect(), Vec::new(), "e".chars().collect()];
    assert_eq!(lines, expected);
    assert_eq!(text_lines(""), vec![Vec::<char>::new()]);
    assert_eq!(text_lines(" \n\t "), vec![Vec::<char>::new()]);
    assert_eq!(text_lines("x"), vec![vec!['x']]);
}

#[test]
fn trimming_agrees_with_trim_of_std() {
    let samples = ["", " ", "a", "  a", "a  ", " a b ", "\u{3000}x\u{a0}", "\u{2003}\u{85}", "\u{200b}a"];
    for sample in samples {
        let chars: Vec<char> = sample.chars().collect();
        let expected: Vec<char> = sample.trim().chars().collect();
        assert_eq!(trimmed_copy(&chars, 0, chars.len()), expected);
        let (from, to) = trim_range(&chars, 0, chars.len());
        assert_eq!(&chars[from..to], &expected[..]);
    }
}

#[test]
fn is_whitespace_agrees_with_std() {
    for code in 0..0x3100u32 {
        if let Some(c) = char::from_u32(code) {
            assert_eq!(is_whitespace(c), c.is_whitespace());
        }
    }
    assert!(!is_whitespace('\u{10FFFF}'));
}

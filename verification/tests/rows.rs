use dungeon_solver::grid::{board_bits, with_column, Board};
use dungeon_solver::rows::RowMasks;
use dungeon_solver::search::{count_row_walls, exceeds_rows};

fn rows_board_from_rows(rows: [&str; 8]) -> Board {
    let mut board = Board::new();
    for x in 0..8 {
        let mut column = [false; 8];
        for y in 0..8 {
            column[y] = rows[y].as_bytes()[x] == b'#';
        }
        board = with_column(&board, column);
    }
    board
}

#[test]
fn row_masks_pick_every_eighth_bit() {
    let masks = RowMasks::new();
    for y in 0..8 {
        assert_eq!(masks.row_mask(y), 0x0101_0101_0101_0101u64 << y);
    }
}

#[test]
fn count_row_walls_counts_along_a_row() {
    let board = rows_board_from_rows([
        "########",
        "........",
        "#.#.#.#.",
        ".......#",
        "........",
        "........",
        "........",
        "##......",
    ]);
    let expected = [8u8, 0, 4, 1, 0, 0, 0, 2];
    for y in 0..8 {
        assert_eq!(count_row_walls(&board, y), expected[y]);
    }
}

#[test]
fn exceeds_rows_is_false_at_the_limit_and_true_above_it() {
    let board = rows_board_from_rows([
        "########",
        "........",
        "#.#.#.#.",
        ".......#",
        "........",
        "........",
        "........",
        "##......",
    ]);
    assert!(!exceeds_rows(&board, &[8, 0, 4, 1, 0, 0, 0, 2]));
    assert!(!exceeds_rows(&board, &[8, 8, 8, 8, 8, 8, 8, 8]));
    assert!(exceeds_rows(&board, &[7, 0, 4, 1, 0, 0, 0, 2]));
    assert!(exceeds_rows(&board, &[8, 0, 4, 1, 0, 0, 0, 1]));
    assert!(exceeds_rows(&board, &[8, 0, 4, 0, 0, 0, 0, 2]));
}

#[test]
fn packed_row_check_agrees_with_the_check_by_columns() {
    let masks = RowMasks::new();
    let board = rows_board_from_rows([
        "#......#",
        ".#....#.",
        "..#..#..",
        "...##...",
        "...##...",
        "..#..#..",
        ".#....#.",
        "#......#",
    ]);
    let (bits, _) = board_bits(&board);
    let limits: [[u8; 8]; 5] = [
        [2, 2, 2, 2, 2, 2, 2, 2],
        [2, 2, 2, 1, 2, 2, 2, 2],
        [8, 8, 8, 8, 8, 8, 8, 1],
        [0, 0, 0, 0, 0, 0, 0, 0],
        [3, 3, 3, 3, 3, 3, 3, 3],
    ];
    let expected = [false, true, true, true, false];
    for i in 0..limits.len() {
        assert_eq!(masks.exceeded(bits, &limits[i]), expected[i]);
        assert_eq!(exceeds_rows(&board, &limits[i]), expected[i]);
    }
}

#[test]
fn packed_row_check_on_a_partial_board() {
    let masks = RowMasks::new();
    let one = with_column(&Board::new(), [true, false, false, false, false, false, false, false]);
    let two = with_column(&one, [true, false, false, false, false, false, false, false]);
    let limit: [u8; 8] = [1, 0, 0, 0, 0, 0, 0, 0];
    assert!(!masks.exceeded(board_bits(&one).0, &limit));
    assert!(masks.exceeded(board_bits(&two).0, &limit));
    assert!(!exceeds_rows(&one, &limit));
    assert!(exceeds_rows(&two, &limit));
}

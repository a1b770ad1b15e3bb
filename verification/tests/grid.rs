use dungeon_solver::grid::{board_bits, empty_board, is_wall, neighbors, with_column, Board};

fn grid_board_from_rows(rows: [&str; 8]) -> Board {
    let mut board = Board::new();
    for x in 0..8 {
        let mut column = [false; 8];
        for y in 0..8 {
            column[y] = rows[y].as_bytes()[x] == b'#';
        }
        board = with_column(&board, column);
    }
    board
}

#[test]
fn neighbors_of_an_inner_cell_come_left_right_up_down() {
    assert_eq!(neighbors((3, 4)), vec![(2, 4), (4, 4), (3, 3), (3, 5)]);
}

#[test]
fn neighbors_of_a_corner_are_two() {
    assert_eq!(neighbors((0, 0)), vec![(1, 0), (0, 1)]);
    assert_eq!(neighbors((7, 7)), vec![(6, 7), (7, 6)]);
    assert_eq!(neighbors((0, 7)), vec![(1, 7), (0, 6)]);
    assert_eq!(neighbors((7, 0)), vec![(6, 0), (7, 1)]);
}

#[test]
fn neighbors_of_an_edge_cell_are_three() {
    assert_eq!(neighbors((0, 3)), vec![(1, 3), (0, 2), (0, 4)]);
    assert_eq!(neighbors((5, 7)), vec![(4, 7), (6, 7), (5, 6)]);
}

#[test]
fn neighbors_outside_the_grid_are_only_cells_of_the_grid() {
    assert_eq!(neighbors((8, 2)), vec![(7, 2)]);
    assert_eq!(neighbors((2, 8)), vec![(2, 7)]);
    assert_eq!(neighbors((9, 9)), Vec::<(usize, usize)>::new());
    assert_eq!(neighbors((usize::MAX, 0)), Vec::<(usize, usize)>::new());
}

#[test]
fn empty_board_has_eight_columns_without_walls() {
    let board = empty_board();
    assert_eq!(board.len(), 8);
    for x in 0..8 {
        assert_eq!(board[x], [false; 8]);
    }
}

#[test]
fn with_column_appends_and_leaves_the_rest() {
    let first = [true, false, false, false, false, false, false, true];
    let second = [false, true, false, false, false, false, false, false];
    let one = with_column(&Board::new(), first);
    let two = with_column(&one, second);
    assert_eq!(one.len(), 1);
    assert_eq!(two.len(), 2);
    assert_eq!(two[0], first);
    assert_eq!(two[1], second);
}

#[test]
fn is_wall_reads_cells_and_finds_nothing_outside() {
    let board = grid_board_from_rows([
        ".#......",
        "........",
        "........",
        "...#....",
        "........",
        "........",
        "........",
        ".......#",
    ]);
    assert!(is_wall(&board, 1, 0));
    assert!(is_wall(&board, 3, 3));
    assert!(is_wall(&board, 7, 7));
    assert!(!is_wall(&board, 0, 1));
    assert!(!is_wall(&board, 0, 0));
    assert!(!is_wall(&board, 8, 0));
    assert!(!is_wall(&board, 0, 8));
    let short = with_column(&Board::new(), [true; 8]);
    assert!(is_wall(&short, 0, 5));
    assert!(!is_wall(&short, 1, 5));
}

#[test]
fn board_bits_sets_bit_column_times_eight_plus_row() {
    let board = grid_board_from_rows([
        ".#......",
        "........",
        "#.......",
        "........",
        "........",
        "........",
        "........",
        ".......#",
    ]);
    let (bits, any_open_cell) = board_bits(&board);
    assert_eq!(bits, (1u64 << 8) | (1u64 << 2) | (1u64 << 63));
    assert_eq!(any_open_cell, Some(62));
}

#[test]
fn board_bits_of_an_empty_and_of_a_full_board() {
    assert_eq!(board_bits(&empty_board()), (0, Some(63)));
    let mut full = Board::new();
    for _ in 0..8 {
        full = with_column(&full, [true; 8]);
    }
    assert_eq!(board_bits(&full), (u64::MAX, None));
}

#[test]
fn board_bits_of_a_partial_board_covers_the_placed_columns() {
    let none = Board::new();
    assert_eq!(board_bits(&none), (0, None));
    let one = with_column(&none, [true, true, true, false, true, true, true, true]);
    assert_eq!(board_bits(&one), (0b1111_0111, Some(3)));
    let two = with_column(&one, [true; 8]);
    assert_eq!(board_bits(&two), (0b1111_1111_1111_0111, Some(3)));
}

use dungeon_solver::contiguity::{board_is_contiguous, is_contiguous};
use dungeon_solver::grid::{board_bits, empty_board, with_column, Board};

fn contiguity_board_from_rows(rows: [&str; 8]) -> Board {
    let mut board = Board::new();
    for x in 0..8 {
        let mut column = [false; 8];
        for y in 0..8 {
            column[y] = rows[y].as_bytes()[x] == b'#';
        }
        board = with_column(&board, column);
    }
    board
}

#[test]
fn an_open_board_is_one_region_from_any_cell() {
    for cell in 0..64 {
        assert!(is_contiguous(0, cell));
    }
    assert!(board_is_contiguous(&empty_board()));
}

#[test]
fn a_wall_across_the_board_makes_two_regions() {
    let board = contiguity_board_from_rows([
        "...#....",
        "...#....",
        "...#....",
        "...#....",
        "...#....",
        "...#....",
        "...#....",
        "...#....",
    ]);
    let (bits, any_open_cell) = board_bits(&board);
    assert!(!is_contiguous(bits, any_open_cell.unwrap()));
    assert!(!is_contiguous(bits, 0));
    assert!(!board_is_contiguous(&board));
}

#[test]
fn a_gap_in_the_wall_joins_the_regions() {
    let board = contiguity_board_from_rows([
        "...#....",
        "...#....",
        "...#....",
        "...#....",
        "...#....",
        "...#....",
        "...#....",
        "........",
    ]);
    assert!(board_is_contiguous(&board));
}

#[test]
fn cells_that_touch_only_at_a_corner_are_not_joined() {
    let board = contiguity_board_from_rows([
        ".#######",
        "#.######",
        "########",
        "########",
        "########",
        "########",
        "########",
        "########",
    ]);
    assert!(!board_is_contiguous(&board));
    let (bits, _) = board_bits(&board);
    assert!(!is_contiguous(bits, 0));
    assert!(!is_contiguous(bits, 9));
}

#[test]
fn a_winding_corridor_is_one_region() {
    let board = contiguity_board_from_rows([
        "........",
        "#######.",
        "........",
        ".#######",
        "........",
        "#######.",
        "........",
        ".#######",
    ]);
    assert!(board_is_contiguous(&board));
    let (bits, _) = board_bits(&board);
    assert!(is_contiguous(bits, 0));
    assert!(is_contiguous(bits, 63 - 7));
}

#[test]
fn a_single_open_cell_is_one_region() {
    let mut rows = ["########"; 8];
    rows[4] = "##.#####";
    let board = contiguity_board_from_rows(rows);
    assert!(board_is_contiguous(&board));
}

#[test]
fn a_board_without_open_cells_counts_as_one_region() {
    let board = contiguity_board_from_rows(["########"; 8]);
    assert!(board_is_contiguous(&board));
}

#[test]
fn a_closed_pocket_is_a_second_region() {
    let board = contiguity_board_from_rows([
        "........",
        "........",
        "..###...",
        "..#.#...",
        "..###...",
        "........",
        "........",
        "........",
    ]);
    assert!(!board_is_contiguous(&board));
}

#[test]
fn starting_on_a_wall_spreads_from_that_cell() {
    // The start holds a wall between two pockets: from there both are reached.
    let board = contiguity_board_from_rows([
        ".#.#####",
        "########",
        "########",
        "########",
        "########",
        "########",
        "########",
        "########",
    ]);
    let (bits, _) = board_bits(&board);
    assert!(is_contiguous(bits, 8));
    assert!(!is_contiguous(bits, 0));
    assert!(!is_contiguous(bits, 16));
}

#[test]
fn columns_not_yet_placed_count_as_open() {
    let one = with_column(&Board::new(), [true; 8]);
    assert!(board_is_contiguous(&one));
    let two = with_column(&one, [false; 8]);
    let three = with_column(&two, [true; 8]);
    assert!(!board_is_contiguous(&three));
    assert!(board_is_contiguous(&Board::new()));
}

#[test]
fn the_open_board_does_not_overflow_the_stack_of_cells() {
    // 64 open cells, each of which is pushed once at most.
    assert!(is_contiguous(0, 63));
    assert!(is_contiguous(0, 27));
}

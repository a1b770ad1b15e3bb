use dungeon_solver::grid::{with_column, Board};
use dungeon_solver::perms::PermutationTable;
use dungeon_solver::puzzle::ParsedBoard;
use dungeon_solver::rows::RowMasks;
use dungeon_solver::search::{expand_board, expand_frontier, hits_special, search};
use dungeon_solver::solver::{
    keep_contiguous, keep_dead_ends_with_monsters, keep_monsters_in_dead_ends, solve,
};

fn solver_board_from_rows(rows: [&str; 8]) -> Board {
    let mut board = Board::new();
    for x in 0..8 {
        let mut column = [false; 8];
        for y in 0..8 {
            column[y] = rows[y].as_bytes()[x] == b'#';
        }
        board = with_column(&board, column);
    }
    board
}

fn solver_puzzle(
    col_constraints: [u8; 8],
    row_constraints: [u8; 8],
    monsters: &[(usize, usize)],
    treasures: &[(usize, usize)],
) -> ParsedBoard {
    let mut monster_locations = [[false; 8]; 8];
    for &(x, y) in monsters {
        monster_locations[x][y] = true;
    }
    let mut treasure_locations = [[false; 8]; 8];
    for &(x, y) in treasures {
        treasure_locations[x][y] = true;
    }
    ParsedBoard { col_constraints, row_constraints, monster_locations, treasure_locations }
}

fn solver_sorted(boards: &[Board]) -> Vec<Vec<[bool; 8]>> {
    let mut all: Vec<Vec<[bool; 8]>> = boards.iter().map(|b| b.to_vec()).collect();
    all.sort();
    all
}

// The rules, written out once more and tried on every board that the column
// counts allow.
fn solver_by_brute_force(puzzle: &ParsedBoard) -> Vec<Vec<[bool; 8]>> {
    let mut choices: Vec<Vec<[bool; 8]>> = Vec::new();
    for x in 0..8 {
        let mut columns = Vec::new();
        for pattern in 0..=255u8 {
            if pattern.count_ones() as u8 == puzzle.col_constraints[x] {
                let mut column = [false; 8];
                for y in 0..8 {
                    column[y] = pattern & (1 << y) != 0;
                }
                columns.push(column);
            }
        }
        choices.push(columns);
    }
    let mut index = [0usize; 8];
    let mut solutions = Vec::new();
    if choices.iter().any(|c| c.is_empty()) {
        return solutions;
    }
    loop {
        let board: Vec<[bool; 8]> = (0..8).map(|x| choices[x][index[x]]).collect();
        if solver_obeys_all_rules(&board, puzzle) {
            solutions.push(board);
        }
        let mut x = 0;
        while x < 8 {
            index[x] += 1;
            if index[x] < choices[x].len() {
                break;
            }
            index[x] = 0;
            x += 1;
        }
        if x == 8 {
            break;
        }
    }
    solutions.sort();
    solutions
}

fn solver_obeys_all_rules(board: &[[bool; 8]], puzzle: &ParsedBoard) -> bool {
    for y in 0..8 {
        let walls = (0..8).filter(|&x| board[x][y]).count();
        if walls != puzzle.row_constraints[y] as usize {
            return false;
        }
    }
    for x in 0..8 {
        for y in 0..8 {
            if board[x][y] && (puzzle.monster_locations[x][y] || puzzle.treasure_locations[x][y]) {
                return false;
            }
        }
    }
    let open_around = |x: usize, y: usize| -> usize {
        let mut n = 0;
        if x > 0 && !board[x - 1][y] {
            n += 1;
        }
        if x < 7 && !board[x + 1][y] {
            n += 1;
        }
        if y > 0 && !board[x][y - 1] {
            n += 1;
        }
        if y < 7 && !board[x][y + 1] {
            n += 1;
        }
        n
    };
    for x in 0..8 {
        for y in 0..8 {
            let dead_end = !board[x][y] && open_around(x, y) == 1;
            if dead_end != puzzle.monster_locations[x][y] {
                return false;
            }
        }
    }
    let mut reached = [[false; 8]; 8];
    let mut queue = Vec::new();
    'find: for x in 0..8 {
        for y in 0..8 {
            if !board[x][y] {
                reached[x][y] = true;
                queue.push((x, y));
                break 'find;
            }
        }
    }
    while let Some((x, y)) = queue.pop() {
        let mut around = Vec::new();
        if x > 0 {
            around.push((x - 1, y));
        }
        if x < 7 {
            around.push((x + 1, y));
        }
        if y > 0 {
            around.push((x, y - 1));
        }
        if y < 7 {
            around.push((x, y + 1));
        }
        for (a, b) in around {
            if !board[a][b] && !reached[a][b] {
                reached[a][b] = true;
                queue.push((a, b));
            }
        }
    }
    for x in 0..8 {
        for y in 0..8 {
            if !board[x][y] && !reached[x][y] {
                return false;
            }
        }
    }
    true
}

#[test]
fn all_zero_counts_give_the_open_board_alone() {
    let table = PermutationTable::new();
    let masks = RowMasks::new();
    let puzzle = solver_puzzle([0; 8], [0; 8], &[], &[]);
    let out = solve(&puzzle, &table, &masks);
    assert_eq!(out.found, 1);
    assert_eq!(out.contiguous, 1);
    assert_eq!(out.with_monsters_in_dead_ends, 1);
    assert_eq!(out.solutions.len(), 1);
    assert_eq!(out.solutions[0].len(), 8);
    for x in 0..8 {
        assert_eq!(out.solutions[0][x], [false; 8]);
    }
}

#[test]
fn more_walls_by_columns_than_by_rows_finds_nothing() {
    let table = PermutationTable::new();
    let masks = RowMasks::new();
    let puzzle = solver_puzzle([1, 0, 0, 2, 0, 0, 0, 1], [1, 0, 1, 0, 0, 0, 1, 0], &[], &[]);
    let found = search(&puzzle, &table, &masks);
    assert!(found.is_empty());
    let out = solve(&puzzle, &table, &masks);
    assert_eq!(out.found, 0);
    assert!(out.solutions.is_empty());
}

#[test]
fn one_wall_too_many_in_a_single_column_finds_nothing() {
    let table = PermutationTable::new();
    let masks = RowMasks::new();
    let puzzle = solver_puzzle([8, 8, 8, 8, 8, 8, 8, 8], [8, 8, 8, 7, 8, 8, 8, 8], &[], &[]);
    assert!(search(&puzzle, &table, &masks).is_empty());
}

#[test]
fn fewer_walls_by_columns_than_by_rows_leaves_rows_short() {
    // Pruning only cuts rows that hold too many walls.
    let table = PermutationTable::new();
    let masks = RowMasks::new();
    let puzzle = solver_puzzle([0; 8], [8; 8], &[], &[]);
    let found = search(&puzzle, &table, &masks);
    assert_eq!(found.len(), 1);
    assert_eq!(solver_sorted(&found), vec![vec![[false; 8]; 8]]);
}

#[test]
fn a_count_above_eight_finds_nothing() {
    let table = PermutationTable::new();
    let masks = RowMasks::new();
    let puzzle = solver_puzzle([0, 0, 9, 0, 0, 0, 0, 0], [8; 8], &[], &[]);
    assert!(search(&puzzle, &table, &masks).is_empty());
}

#[test]
fn column_counts_alone_give_the_product_of_binomials() {
    let table = PermutationTable::new();
    let masks = RowMasks::new();
    let puzzle = solver_puzzle([1, 0, 8, 0, 2, 0, 0, 7], [8; 8], &[], &[]);
    let found = search(&puzzle, &table, &masks);
    assert_eq!(found.len(), 8 * 1 * 1 * 1 * 28 * 1 * 1 * 8);
    let sorted = solver_sorted(&found);
    for i in 1..sorted.len() {
        assert_ne!(sorted[i - 1], sorted[i]);
    }
    for board in &found {
        for x in 0..8 {
            let walls = board[x].iter().filter(|&&cell| cell).count();
            assert_eq!(walls, puzzle.col_constraints[x] as usize);
        }
    }
}

#[test]
fn column_counts_alone_with_three_free_columns() {
    let table = PermutationTable::new();
    let masks = RowMasks::new();
    let puzzle = solver_puzzle([0, 3, 0, 0, 4, 0, 5, 0], [8; 8], &[], &[]);
    let found = search(&puzzle, &table, &masks);
    assert_eq!(found.len(), 56 * 70 * 56);
}

#[test]
fn a_wall_that_cuts_the_board_passes_the_search_and_fails_contiguity() {
    let table = PermutationTable::new();
    let masks = RowMasks::new();
    let puzzle = solver_puzzle([0, 0, 0, 8, 0, 0, 0, 0], [1; 8], &[], &[]);
    let found = search(&puzzle, &table, &masks);
    assert_eq!(found.len(), 1);
    let expected = solver_board_from_rows(["...#...."; 8]);
    assert_eq!(found[0], expected);
    assert!(keep_contiguous(&found).is_empty());
    let out = solve(&puzzle, &table, &masks);
    assert_eq!(out.found, 1);
    assert_eq!(out.contiguous, 0);
    assert_eq!(out.with_monsters_in_dead_ends, 0);
    assert!(out.solutions.is_empty());
}

#[test]
fn every_row_of_a_solution_holds_its_count() {
    let table = PermutationTable::new();
    let masks = RowMasks::new();
    let puzzle = solver_puzzle(
        [8, 8, 8, 8, 8, 2, 4, 2],
        [5, 7, 5, 7, 5, 7, 5, 7],
        &[(5, 0), (5, 7)],
        &[],
    );
    let out = solve(&puzzle, &table, &masks);
    assert!(!out.solutions.is_empty());
    for board in &out.solutions {
        for y in 0..8 {
            let walls = (0..8).filter(|&x| board[x][y]).count();
            assert_eq!(walls, puzzle.row_constraints[y] as usize);
        }
    }
}

#[test]
fn the_serpentine_puzzle_has_the_solutions_that_brute_force_finds() {
    let table = PermutationTable::new();
    let masks = RowMasks::new();
    let puzzle = solver_puzzle(
        [8, 8, 8, 8, 8, 2, 4, 2],
        [5, 7, 5, 7, 5, 7, 5, 7],
        &[(5, 0), (5, 7)],
        &[],
    );
    let out = solve(&puzzle, &table, &masks);
    let expected = solver_by_brute_force(&puzzle);
    assert_eq!(solver_sorted(&out.solutions), expected);
    let drawn = solver_board_from_rows([
        "#####...",
        "#######.",
        "#####...",
        "#####.##",
        "#####...",
        "#######.",
        "#####...",
        "#####.##",
    ]);
    assert!(out.solutions.contains(&drawn));
    assert!(out.found >= out.contiguous);
    assert!(out.contiguous >= out.with_monsters_in_dead_ends);
    assert!(out.with_monsters_in_dead_ends >= out.solutions.len());
}

#[test]
fn treasures_and_monsters_keep_walls_away() {
    let table = PermutationTable::new();
    let masks = RowMasks::new();
    // One wall in column 0, and it must stand in row 2.
    let free = solver_puzzle([1, 0, 0, 0, 0, 0, 0, 0], [0, 0, 1, 0, 0, 0, 0, 0], &[], &[]);
    assert_eq!(search(&free, &table, &masks).len(), 1);
    let treasure = solver_puzzle([1, 0, 0, 0, 0, 0, 0, 0], [0, 0, 1, 0, 0, 0, 0, 0], &[], &[(0, 2)]);
    assert!(search(&treasure, &table, &masks).is_empty());
    let monster = solver_puzzle([1, 0, 0, 0, 0, 0, 0, 0], [0, 0, 1, 0, 0, 0, 0, 0], &[(0, 2)], &[]);
    assert!(search(&monster, &table, &masks).is_empty());
    let elsewhere = solver_puzzle([1, 0, 0, 0, 0, 0, 0, 0], [0, 0, 1, 0, 0, 0, 0, 0], &[], &[(1, 2)]);
    assert_eq!(search(&elsewhere, &table, &masks).len(), 1);
}

#[test]
fn hits_special_finds_a_wall_on_a_marked_cell() {
    let puzzle = solver_puzzle([0; 8], [0; 8], &[(2, 3)], &[(2, 6)]);
    let on_monster = [false, false, false, true, false, false, false, false];
    let on_treasure = [false, false, false, false, false, false, true, false];
    let beside = [true, true, true, false, true, true, false, true];
    assert!(hits_special(&on_monster, &puzzle, 2));
    assert!(hits_special(&on_treasure, &puzzle, 2));
    assert!(!hits_special(&beside, &puzzle, 2));
    assert!(!hits_special(&on_monster, &puzzle, 3));
}

#[test]
fn expand_board_appends_each_fitting_column_once() {
    let table = PermutationTable::new();
    let masks = RowMasks::new();
    let puzzle = solver_puzzle([1, 1, 0, 0, 0, 0, 0, 0], [1, 1, 0, 0, 0, 0, 0, 0], &[], &[]);
    let first = expand_board(&Board::new(), &puzzle, &table, &masks);
    assert_eq!(first.len(), 2);
    for board in &first {
        assert_eq!(board.len(), 1);
        assert!(board[0][0] != board[0][1]);
        let next = expand_board(board, &puzzle, &table, &masks);
        assert_eq!(next.len(), 1);
        assert_eq!(next[0].len(), 2);
        assert_eq!(next[0][0], board[0]);
        assert!(next[0][1][0] != board[0][0]);
        assert!(next[0][1][1] != board[0][1]);
    }
}

#[test]
fn expand_board_of_a_complete_board_is_empty() {
    let table = PermutationTable::new();
    let masks = RowMasks::new();
    let puzzle = solver_puzzle([0; 8], [0; 8], &[], &[]);
    let complete = solver_board_from_rows(["........"; 8]);
    assert!(expand_board(&complete, &puzzle, &table, &masks).is_empty());
}

#[test]
fn expand_frontier_lists_the_successors_of_every_board() {
    let table = PermutationTable::new();
    let masks = RowMasks::new();
    let puzzle = solver_puzzle([1, 2, 0, 0, 0, 0, 0, 0], [8; 8], &[], &[]);
    let depth_one = expand_frontier(&vec![Board::new()], &puzzle, &table, &masks);
    assert_eq!(depth_one.len(), 8);
    let depth_two = expand_frontier(&depth_one, &puzzle, &table, &masks);
    assert_eq!(depth_two.len(), 8 * 28);
    for base in &depth_one {
        let grown = depth_two.iter().filter(|board| board[0] == base[0]).count();
        assert_eq!(grown, 28);
    }
    let sorted = solver_sorted(&depth_two);
    for i in 1..sorted.len() {
        assert_ne!(sorted[i - 1], sorted[i]);
    }
    assert!(expand_frontier(&Vec::new(), &puzzle, &table, &masks).is_empty());
}

#[test]
fn expanding_a_frontier_in_parts_gives_the_same_boards() {
    let table = PermutationTable::new();
    let masks = RowMasks::new();
    let puzzle = solver_puzzle([2, 1, 3, 0, 0, 0, 0, 0], [2, 1, 1, 1, 1, 0, 0, 0], &[], &[(1, 0)]);
    let depth_one = expand_frontier(&vec![Board::new()], &puzzle, &table, &masks);
    let depth_two = expand_frontier(&depth_one, &puzzle, &table, &masks);
    let whole = expand_frontier(&depth_two, &puzzle, &table, &masks);
    let cut = depth_two.len() / 3;
    let mut parts = expand_frontier(&depth_two[cut..].to_vec(), &puzzle, &table, &masks);
    parts.extend(expand_frontier(&depth_two[..cut].to_vec(), &puzzle, &table, &masks));
    assert!(!whole.is_empty());
    assert_eq!(solver_sorted(&whole), solver_sorted(&parts));
}

#[test]
fn two_runs_give_the_same_set_of_solutions() {
    let table = PermutationTable::new();
    let masks = RowMasks::new();
    let puzzle = solver_puzzle(
        [8, 8, 8, 8, 8, 2, 4, 2],
        [5, 7, 5, 7, 5, 7, 5, 7],
        &[(5, 0), (5, 7)],
        &[],
    );
    let first = solve(&puzzle, &table, &masks);
    let second = solve(&puzzle, &PermutationTable::new(), &RowMasks::new());
    assert_eq!(solver_sorted(&first.solutions), solver_sorted(&second.solutions));
    assert_eq!(first.found, second.found);
    assert_eq!(first.contiguous, second.contiguous);
    assert_eq!(first.with_monsters_in_dead_ends, second.with_monsters_in_dead_ends);
}

#[test]
fn monsters_of_a_solution_are_its_dead_ends() {
    let table = PermutationTable::new();
    let masks = RowMasks::new();
    let puzzle = solver_puzzle([8, 8, 8, 8, 8, 8, 8, 0], [7; 8], &[(7, 0), (7, 7)], &[]);
    let out = solve(&puzzle, &table, &masks);
    assert_eq!(out.solutions.len(), 1);
    assert_eq!(out.solutions[0], solver_board_from_rows(["#######."; 8]));

    let unguarded = solver_puzzle([8, 8, 8, 8, 8, 8, 8, 0], [7; 8], &[(7, 0)], &[]);
    let out = solve(&unguarded, &table, &masks);
    assert_eq!(out.found, 1);
    assert_eq!(out.contiguous, 1);
    assert_eq!(out.with_monsters_in_dead_ends, 1);
    assert!(out.solutions.is_empty());

    let misplaced = solver_puzzle([8, 8, 8, 8, 8, 8, 8, 0], [7; 8], &[(7, 0), (7, 4), (7, 7)], &[]);
    let out = solve(&misplaced, &table, &masks);
    assert_eq!(out.found, 1);
    assert_eq!(out.contiguous, 1);
    assert_eq!(out.with_monsters_in_dead_ends, 0);
    assert!(out.solutions.is_empty());
}

#[test]
fn the_filters_keep_the_order_of_what_they_keep() {
    let open = solver_board_from_rows(["........"; 8]);
    let cut = solver_board_from_rows(["...#...."; 8]);
    let corridor = solver_board_from_rows(["#######."; 8]);
    let boards = vec![open, cut, corridor, cut, open];
    assert_eq!(keep_contiguous(&boards), vec![open, corridor, open]);

    let puzzle = solver_puzzle([0; 8], [0; 8], &[(7, 0), (7, 7)], &[]);
    assert_eq!(keep_monsters_in_dead_ends(&boards, &puzzle), vec![corridor]);
    assert_eq!(keep_dead_ends_with_monsters(&boards, &puzzle), boards);
    let none = solver_puzzle([0; 8], [0; 8], &[], &[]);
    assert_eq!(keep_dead_ends_with_monsters(&boards, &none), vec![open, cut, cut, open]);
    assert_eq!(keep_monsters_in_dead_ends(&boards, &none), boards);
}

#[test]
fn a_puzzle_with_two_free_columns_matches_brute_force() {
    let table = PermutationTable::new();
    let masks = RowMasks::new();
    let puzzle = solver_puzzle(
        [8, 8, 8, 8, 8, 8, 3, 1],
        [6, 7, 7, 6, 6, 7, 7, 6],
        &[(7, 7)],
        &[(6, 0)],
    );
    let out = solve(&puzzle, &table, &masks);
    assert_eq!(solver_sorted(&out.solutions), solver_by_brute_force(&puzzle));
}

#[test]
fn a_full_puzzle_counts_the_boards_after_every_stage() {
    let table = PermutationTable::new();
    let masks = RowMasks::new();
    let puzzle = solver_puzzle(
        [4, 2, 4, 1, 1, 1, 3, 1],
        [0, 3, 4, 2, 1, 1, 5, 1],
        &[(1, 3), (1, 7), (2, 6)],
        &[(1, 1)],
    );
    let sizes = [35usize, 100, 146, 535, 1752, 5060, 3460, 3460];
    let mut frontier = vec![Board::new()];
    for depth in 0..8 {
        frontier = expand_frontier(&frontier, &puzzle, &table, &masks);
        assert_eq!(frontier.len(), sizes[depth]);
    }
    assert_eq!(solver_sorted(&frontier), solver_sorted(&search(&puzzle, &table, &masks)));

    let out = solve(&puzzle, &table, &masks);
    assert_eq!(out.found, 3460);
    assert_eq!(out.contiguous, 896);
    assert_eq!(out.with_monsters_in_dead_ends, 44);
    assert_eq!(out.solutions.len(), 2);
    let first = solver_board_from_rows([
        "........",
        "..#.#.#.",
        "###...#.",
        "#.#.....",
        ".......#",
        "..#.....",
        "##.#.##.",
        "#.......",
    ]);
    let second = solver_board_from_rows([
        "........",
        "..#..##.",
        "###...#.",
        "#.#.....",
        ".......#",
        "..#.....",
        "##.##.#.",
        "#.......",
    ]);
    assert_eq!(solver_sorted(&out.solutions), solver_sorted(&[first, second]));
}

#[test]
fn a_full_puzzle_with_a_single_solution() {
    let table = PermutationTable::new();
    let masks = RowMasks::new();
    let puzzle = solver_puzzle(
        [2, 2, 0, 2, 2, 0, 4, 2],
        [2, 2, 2, 4, 1, 1, 0, 2],
        &[(0, 1), (0, 7), (4, 3), (7, 0)],
        &[(1, 0)],
    );
    let out = solve(&puzzle, &table, &masks);
    assert_eq!(out.found, 7555);
    assert_eq!(out.contiguous, 3316);
    assert_eq!(out.with_monsters_in_dead_ends, 10);
    let only = solver_board_from_rows([
        "...#..#.",
        ".#....#.",
        "#...#...",
        "#..#..##",
        "....#...",
        "......#.",
        "........",
        ".#.....#",
    ]);
    assert_eq!(out.solutions, vec![only]);
    for y in 0..8 {
        let walls = (0..8).filter(|&x| only[x][y]).count();
        assert_eq!(walls, puzzle.row_constraints[y] as usize);
    }
}

#[test]
fn the_serpentine_puzzle_counts_the_boards_after_every_stage() {
    let table = PermutationTable::new();
    let masks = RowMasks::new();
    let puzzle = solver_puzzle(
        [8, 8, 8, 8, 8, 2, 4, 2],
        [5, 7, 5, 7, 5, 7, 5, 7],
        &[(5, 0), (5, 7)],
        &[],
    );
    let out = solve(&puzzle, &table, &masks);
    assert_eq!(out.found, 3);
    assert_eq!(out.contiguous, 3);
    assert_eq!(out.with_monsters_in_dead_ends, 2);
    assert_eq!(out.solutions.len(), 1);
}

#[test]
fn a_puzzle_that_asks_for_walls_everywhere_has_the_full_board_as_solution() {
    let table = PermutationTable::new();
    let masks = RowMasks::new();
    let puzzle = solver_puzzle([8; 8], [8; 8], &[], &[]);
    let out = solve(&puzzle, &table, &masks);
    assert_eq!(out.found, 1);
    assert_eq!(out.contiguous, 1);
    assert_eq!(out.with_monsters_in_dead_ends, 1);
    assert_eq!(out.solutions, vec![solver_board_from_rows(["########"; 8])]);
}

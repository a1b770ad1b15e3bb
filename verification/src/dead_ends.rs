//! Dead ends and monsters: a dead end is an open cell with exactly one open
//! neighbor. Every monster must sit in a dead end, and every dead end must
//! hold a monster.

use crate::contiguity::lemma_neighbors_adjacent;
use crate::fixed::{board_columns, Board};
use crate::grid::{cell_if_in_grid, in_grid, is_wall, neighbors, neighbors_of, open_cells};
use crate::perms::ones;
use crate::puzzle::ParsedBoard;
use vstd::prelude::*;

verus! {

/// Whether `(x, y)` is a cell of the grid that belongs to `open`.
pub open spec fn open_at(open: Set<int>, x: int, y: int) -> bool {
    in_grid(x, y) && open.contains(x * 8 + y)
}

/// The number of open cells one step from `(x, y)` along one axis. What
/// lies outside the grid is not counted.
pub open spec fn open_neighbors(open: Set<int>, x: int, y: int) -> int {
    ones(open_at(open, x - 1, y)) + ones(open_at(open, x + 1, y)) + ones(open_at(open, x, y - 1))
        + ones(open_at(open, x, y + 1))
}

/// Whether `(x, y)` is a dead end: an open cell with exactly one open
/// neighbor. A cell with a wall is never a dead end.
pub open spec fn dead_end_at(open: Set<int>, x: int, y: int) -> bool {
    open_at(open, x, y) && open_neighbors(open, x, y) == 1
}

/// Whether every monster has exactly one open neighbor.
pub open spec fn monsters_sit_in_dead_ends(puzzle: ParsedBoard, open: Set<int>) -> bool {
    forall|x: int, y: int| #[trigger] puzzle.monster_at(x, y) ==> open_neighbors(open, x, y) == 1
}

/// Whether every dead end holds a monster.
pub open spec fn dead_ends_hold_monsters(puzzle: ParsedBoard, open: Set<int>) -> bool {
    forall|x: int, y: int| #[trigger] dead_end_at(open, x, y) ==> puzzle.monster_at(x, y)
}

/// The number of open cells among `cells`.
pub open spec fn open_among(open: Set<int>, cells: Seq<(usize, usize)>) -> int
    decreases cells.len(),
{
    if cells.len() == 0 {
        0
    } else {
        open_among(open, cells.drop_last()) + ones(
            open_at(open, cells.last().0 as int, cells.last().1 as int),
        )
    }
}

/// The open cells of two sequences are counted one sequence after the other.
pub proof fn lemma_open_among_concat(open: Set<int>, a: Seq<(usize, usize)>, b: Seq<(usize, usize)>)
    ensures
        open_among(open, a + b) == open_among(open, a) + open_among(open, b),
    decreases b.len(),
{
    if b.len() == 0 {
        assert(a + b =~= a);
    } else {
        assert((a + b).drop_last() =~= a + b.drop_last());
        lemma_open_among_concat(open, a, b.drop_last());
    }
}

/// A cell that may lie outside the grid counts as open only inside it.
pub proof fn lemma_open_among_one(open: Set<int>, x: int, y: int)
    requires
        -1 <= x <= 8,
        -1 <= y <= 8,
    ensures
        open_among(open, cell_if_in_grid(x, y)) == ones(open_at(open, x, y)),
{
    let cells = cell_if_in_grid(x, y);
    if in_grid(x, y) {
        assert(cells.drop_last() =~= Seq::empty());
        reveal_with_fuel(open_among, 2);
    }
}

/// The open cells among the neighbors of a cell are its open neighbors.
pub proof fn lemma_open_among_neighbors(open: Set<int>, x: int, y: int)
    requires
        in_grid(x, y),
    ensures
        open_among(open, neighbors_of(x, y)) == open_neighbors(open, x, y),
{
    let a = cell_if_in_grid(x - 1, y);
    let b = cell_if_in_grid(x + 1, y);
    let c = cell_if_in_grid(x, y - 1);
    let d = cell_if_in_grid(x, y + 1);
    lemma_open_among_concat(open, a + b + c, d);
    lemma_open_among_concat(open, a + b, c);
    lemma_open_among_concat(open, a, b);
    lemma_open_among_one(open, x - 1, y);
    lemma_open_among_one(open, x + 1, y);
    lemma_open_among_one(open, x, y - 1);
    lemma_open_among_one(open, x, y + 1);
}

/// The number of neighbors of `pos` that hold no wall.
pub fn open_neighbor_count(board: &Board, pos: (usize, usize)) -> (n: usize)
    requires
        pos.0 < 8,
        pos.1 < 8,
    ensures
        n == open_neighbors(open_cells(board_columns(*board)), pos.0 as int, pos.1 as int),
{
    let ghost open = open_cells(board_columns(*board));
    let around = neighbors(pos);
    let mut n: usize = 0;
    let mut k: usize = 0;
    while k < around.len()
        invariant
            k <= around.len(),
            pos.0 < 8,
            pos.1 < 8,
            around@ == neighbors_of(pos.0 as int, pos.1 as int),
            open == open_cells(board_columns(*board)),
            n == open_among(open, around@.take(k as int)),
            n <= k,
        decreases around.len() - k,
    {
        let next = around[k];
        proof {
            assert(around@.take(k + 1).drop_last() =~= around@.take(k as int));
            lemma_neighbors_adjacent(pos.0 as int, pos.1 as int, k as int);
            assert((next.0 * 8 + next.1) / 8 == next.0 && (next.0 * 8 + next.1) % 8 == next.1);
        }
        if !is_wall(board, next.0, next.1) {
            n = n + 1;
        }
        k = k + 1;
    }
    proof {
        assert(around@.take(k as int) =~= around@);
        lemma_open_among_neighbors(open, pos.0 as int, pos.1 as int);
    }
    n
}

/// Whether every monster has exactly one neighbor without a wall.
pub fn monsters_in_dead_ends(board: &Board, puzzle: &ParsedBoard) -> (r: bool)
    ensures
        r == monsters_sit_in_dead_ends(*puzzle, open_cells(board_columns(*board))),
{
    let ghost open = open_cells(board_columns(*board));
    let monsters = puzzle.all_monster_positions();
    let mut i: usize = 0;
    while i < monsters.len()
        invariant
            i <= monsters.len(),
            open == open_cells(board_columns(*board)),
            forall|k: int|
                0 <= k < monsters.len() ==> puzzle.monster_at(
                    (#[trigger] monsters[k]).0 as int,
                    monsters[k].1 as int,
                ),
            forall|k: int|
                0 <= k < i ==> open_neighbors(
                    open,
                    (#[trigger] monsters[k]).0 as int,
                    monsters[k].1 as int,
                ) == 1,
        decreases monsters.len() - i,
    {
        let monster_pos = monsters[i];
        assert(puzzle.monster_at(monster_pos.0 as int, monster_pos.1 as int));
        if open_neighbor_count(board, monster_pos) != 1 {
            return false;
        }
        i = i + 1;
    }
    proof {
        assert forall|x: int, y: int| #[trigger] puzzle.monster_at(x, y) implies open_neighbors(
            open,
            x,
            y,
        ) == 1 by {
            assert(monsters@.contains((x as usize, y as usize)));
            let k = choose|k: int|
                0 <= k < monsters.len() && monsters[k] == (x as usize, y as usize);
            assert(open_neighbors(open, monsters[k].0 as int, monsters[k].1 as int) == 1);
        }
    }
    true
}

/// Whether every cell without a wall that has exactly one neighbor without a
/// wall holds a monster.
pub fn all_dead_ends_hold_monsters(board: &Board, puzzle: &ParsedBoard) -> (r: bool)
    ensures
        r == dead_ends_hold_monsters(*puzzle, open_cells(board_columns(*board))),
{
    let ghost open = open_cells(board_columns(*board));
    let mut x: usize = 0;
    while x < 8
        invariant
            x <= 8,
            open == open_cells(board_columns(*board)),
            forall|a: int, b: int|
                a < x && #[trigger] dead_end_at(open, a, b) ==> puzzle.monster_at(a, b),
        decreases 8 - x,
    {
        let mut y: usize = 0;
        while y < 8
            invariant
                x < 8,
                y <= 8,
                open == open_cells(board_columns(*board)),
                forall|a: int, b: int|
                    (a < x || (a == x && b < y)) && #[trigger] dead_end_at(open, a, b)
                        ==> puzzle.monster_at(a, b),
            decreases 8 - y,
        {
            assert((x * 8 + y) / 8 == x && (x * 8 + y) % 8 == y);
            if !is_wall(board, x, y) && open_neighbor_count(board, (x, y)) == 1
                && !puzzle.monster_locations[x][y] {
                assert(dead_end_at(open, x as int, y as int));
                return false;
            }
            y = y + 1;
        }
        x = x + 1;
    }
    true
}

/// Whether the monsters of the puzzle sit exactly in the dead ends of the
/// board: every monster has exactly one open neighbor, and every dead end
/// holds a monster.
pub fn is_well_formed(board: &Board, puzzle: &ParsedBoard) -> (r: bool)
    ensures
        r == (monsters_sit_in_dead_ends(*puzzle, open_cells(board_columns(*board)))
            && dead_ends_hold_monsters(*puzzle, open_cells(board_columns(*board)))),
{
    monsters_in_dead_ends(board, puzzle) && all_dead_ends_hold_monsters(board, puzzle)
}

} // verus!

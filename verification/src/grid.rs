//! Boards: up to eight columns of eight cells, a wall in each cell or none.
//!
//! A cell is named by its column `x` and its row `y`, both in `0..8`, or by
//! its index `x * 8 + y`. A board is kept column by column in a
//! `tinyvec::ArrayVec`; the same placement packed into a `u64` has bit
//! `x * 8 + y` set where the cell holds a wall.

use crate::bits::{bit, lemma_with_bit, lemma_zero_has_no_bit, set_bit};
use crate::fixed::{board_column, board_columns, board_len, board_new, board_push};
pub use crate::fixed::Board;
use vstd::prelude::*;

verus! {

/// Whether `(x, y)` names a cell of the grid.
pub open spec fn in_grid(x: int, y: int) -> bool {
    0 <= x < 8 && 0 <= y < 8
}

/// Whether the cell `(x, y)` holds a wall. A column that is not placed yet
/// holds none, and neither does anything outside the grid.
pub open spec fn wall_at(cols: Seq<[bool; 8]>, x: int, y: int) -> bool {
    0 <= x < cols.len() && 0 <= y < 8 && cols[x][y]
}

/// Whether the cell with index `c` holds a wall.
pub open spec fn wall_cell(cols: Seq<[bool; 8]>, c: int) -> bool {
    0 <= c < 64 && wall_at(cols, c / 8, c % 8)
}

/// The indices of the cells without a wall.
pub open spec fn open_cells(cols: Seq<[bool; 8]>) -> Set<int> {
    Set::new(|c: int| 0 <= c < 64 && !wall_cell(cols, c))
}

/// The indices of the cells whose bit is not set in a packed board.
pub open spec fn open_cells_of_bits(bits: u64) -> Set<int> {
    Set::new(|c: int| 0 <= c < 64 && !bit(bits, c))
}

/// Whether a packed board marks exactly the walls of `cols`.
pub open spec fn packs(bits: u64, cols: Seq<[bool; 8]>) -> bool {
    forall|c: int| 0 <= c < 64 ==> bit(bits, c) == wall_cell(cols, c)
}

/// A packed board has the same open cells as the columns it packs.
pub proof fn lemma_packed_open_cells(bits: u64, cols: Seq<[bool; 8]>)
    requires
        packs(bits, cols),
    ensures
        open_cells_of_bits(bits) == open_cells(cols),
{
    assert(open_cells_of_bits(bits) =~= open_cells(cols));
}

/// A board of eight columns without a wall.
pub fn empty_board() -> (board: Board)
    ensures
        board_columns(board).len() == 8,
        forall|x: int, y: int| !wall_at(board_columns(board), x, y),
{
    let mut b = board_new();
    let mut i: usize = 0;
    while i < 8
        invariant
            i <= 8,
            board_columns(b).len() == i,
            forall|x: int, y: int| !wall_at(board_columns(b), x, y),
        decreases 8 - i,
    {
        let ghost before = board_columns(b);
        board_push(&mut b, [false; 8]);
        i = i + 1;
        proof {
            assert forall|x: int, y: int| !wall_at(board_columns(b), x, y) by {
                assert(!wall_at(before, x, y));
            }
        }
    }
    b
}

/// Whether the cell `(x, y)` of a board holds a wall.
pub fn is_wall(board: &Board, x: usize, y: usize) -> (r: bool)
    ensures
        r == wall_at(board_columns(*board), x as int, y as int),
{
    if x < board_len(board) && y < 8 {
        let column = board_column(board, x);
        column[y]
    } else {
        false
    }
}

/// The board with one more column at its right end.
pub fn with_column(board: &Board, column: [bool; 8]) -> (next: Board)
    requires
        board_columns(*board).len() < 8,
    ensures
        board_columns(next) == board_columns(*board).push(column),
{
    let mut next = *board;
    board_push(&mut next, column);
    next
}

/// The last cell without a wall among the first `n` cells of the placed
/// columns, if there is one.
pub open spec fn last_open_cell(cols: Seq<[bool; 8]>, n: int) -> Option<usize>
    decreases n,
{
    if n <= 0 {
        None
    } else if !wall_cell(cols, n - 1) {
        Some((n - 1) as usize)
    } else {
        last_open_cell(cols, n - 1)
    }
}

/// What `last_open_cell` finds: an open cell below `n` with only walls
/// between it and `n`, or nothing where every cell below `n` is a wall.
pub proof fn lemma_last_open_cell(cols: Seq<[bool; 8]>, n: int)
    requires
        0 <= n <= 64,
    ensures
        match last_open_cell(cols, n) {
            Some(c) => c < n && !wall_cell(cols, c as int) && forall|d: int|
                c < d < n ==> wall_cell(cols, d),
            None => forall|d: int| 0 <= d < n ==> wall_cell(cols, d),
        },
    decreases n,
{
    if n > 0 && wall_cell(cols, n - 1) {
        lemma_last_open_cell(cols, n - 1);
    }
}

/// Packs a board into 64 bits, bit `x * 8 + y` for the cell `(x, y)`, and
/// names the last cell of the placed columns that holds no wall.
pub fn board_bits(board: &Board) -> (r: (u64, Option<usize>))
    ensures
        packs(r.0, board_columns(*board)),
        r.1 == last_open_cell(board_columns(*board), 8 * (board_columns(*board).len() as int)),
{
    let ghost cols = board_columns(*board);
    let n = board_len(board);
    let mut bits: u64 = 0;
    let mut any_open_cell: Option<usize> = None;
    let mut x: usize = 0;
    proof {
        assert forall|c: int| !bit(bits, c) by {
            lemma_zero_has_no_bit(c);
        }
    }
    while x < n
        invariant
            x <= n <= 8,
            n == cols.len(),
            cols == board_columns(*board),
            forall|c: int| 0 <= c < 64 ==> bit(bits, c) == (c < 8 * x && wall_cell(cols, c)),
            any_open_cell == last_open_cell(cols, 8 * x),
        decreases n - x,
    {
        let column = board_column(board, x);
        let mut y: usize = 0;
        while y < 8
            invariant
                x < n <= 8,
                y <= 8,
                n == cols.len(),
                column == cols[x as int],
                forall|c: int|
                    0 <= c < 64 ==> bit(bits, c) == (c < 8 * x + y && wall_cell(cols, c)),
                any_open_cell == last_open_cell(cols, 8 * x + y),
            decreases 8 - y,
        {
            let c: usize = x * 8 + y;
            let ghost before = bits;
            assert(c as int / 8 == x && c as int % 8 == y);
            if column[y] {
                bits = set_bit(bits, c);
                proof {
                    assert forall|d: int| 0 <= d < 64 implies bit(bits, d) == (d < 8 * x + y + 1
                        && wall_cell(cols, d)) by {
                        lemma_with_bit(before, c as int, d);
                    }
                }
            } else {
                any_open_cell = Some(c);
            }
            y = y + 1;
        }
        x = x + 1;
    }
    proof {
        assert forall|c: int| 0 <= c < 64 implies bit(bits, c) == wall_cell(cols, c) by {
            if c >= 8 * n {
                assert(c / 8 >= n);
            }
        }
    }
    (bits, any_open_cell)
}

/// The cell `(x, y)` as a one-element sequence, or nothing where it lies
/// outside the grid.
pub open spec fn cell_if_in_grid(x: int, y: int) -> Seq<(usize, usize)> {
    if in_grid(x, y) {
        seq![(x as usize, y as usize)]
    } else {
        Seq::empty()
    }
}

/// The cells of the grid one step from `(x, y)` along one axis: to the
/// left, to the right, above, below, in that order.
pub open spec fn neighbors_of(x: int, y: int) -> Seq<(usize, usize)> {
    cell_if_in_grid(x - 1, y) + cell_if_in_grid(x + 1, y) + cell_if_in_grid(x, y - 1)
        + cell_if_in_grid(x, y + 1)
}

/// The cells of the grid one step from `pos` along one axis. A cell on the
/// boundary has fewer of them: what lies outside the grid is left out.
pub fn neighbors(pos: (usize, usize)) -> (r: Vec<(usize, usize)>)
    ensures
        r@ == neighbors_of(pos.0 as int, pos.1 as int),
{
    let x = pos.0;
    let y = pos.1;
    let mut r: Vec<(usize, usize)> = Vec::new();
    if 1 <= x && x <= 8 && y < 8 {
        r.push((x - 1, y));
    }
    assert(r@ =~= cell_if_in_grid(x - 1, y as int));
    if x < 7 && y < 8 {
        r.push((x + 1, y));
    }
    assert(r@ =~= cell_if_in_grid(x - 1, y as int) + cell_if_in_grid(x + 1, y as int));
    if x < 8 && 1 <= y && y <= 8 {
        r.push((x, y - 1));
    }
    assert(r@ =~= cell_if_in_grid(x - 1, y as int) + cell_if_in_grid(x + 1, y as int)
        + cell_if_in_grid(x as int, y - 1));
    if x < 8 && y < 7 {
        r.push((x, y + 1));
    }
    assert(r@ =~= neighbors_of(x as int, y as int));
    r
}

} // verus!

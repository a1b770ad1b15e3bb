//! Boards as text: one line for each row, one character for each cell.

use crate::fixed::{board_columns, Board};
use crate::grid::{is_wall, wall_at};
use crate::puzzle::ParsedBoard;
use vstd::prelude::*;

verus! {

/// What a cell holds.
#[derive(Debug, Clone, Copy, PartialEq, Eq)]
pub enum Space {
    /// Nothing.
    Empty,
    /// A wall.
    Wall,
    /// A monster.
    Monster,
    /// A treasure.
    Treasure,
}

/// What the cell `(x, y)` holds: a monster or a treasure where the puzzle
/// marks one, else a wall where the board has one, else nothing.
pub open spec fn space_of(puzzle: ParsedBoard, cols: Seq<[bool; 8]>, x: int, y: int) -> Space {
    if puzzle.monster_at(x, y) {
        Space::Monster
    } else if puzzle.treasure_at(x, y) {
        Space::Treasure
    } else if wall_at(cols, x, y) {
        Space::Wall
    } else {
        Space::Empty
    }
}

/// The character that stands for what a cell holds.
pub open spec fn symbol(space: Space) -> char {
    match space {
        Space::Empty => '.',
        Space::Wall => '#',
        Space::Monster => 'm',
        Space::Treasure => 't',
    }
}

/// The character for a digit.
pub open spec fn digit_symbol(d: u8) -> char {
    (48 + d) as char
}

/// A number in decimal digits, without leading zeros.
pub open spec fn decimal_of(n: u8) -> Seq<char> {
    if n < 10 {
        seq![digit_symbol(n)]
    } else if n < 100 {
        seq![digit_symbol(n / 10), digit_symbol(n % 10)]
    } else {
        seq![digit_symbol(n / 100), digit_symbol(n / 10 % 10), digit_symbol(n % 10)]
    }
}

/// The first `n` counts in decimal digits, one after the other.
pub open spec fn counts_text(counts: [u8; 8], n: int) -> Seq<char>
    decreases n,
{
    if n <= 0 {
        Seq::empty()
    } else {
        counts_text(counts, n - 1) + decimal_of(counts[n - 1])
    }
}

/// The cells of row `y` of a puzzle with a board laid over it.
pub open spec fn row_symbols(puzzle: ParsedBoard, cols: Seq<[bool; 8]>, y: int) -> Seq<char> {
    Seq::new(8, |x: int| symbol(space_of(puzzle, cols, x, y)))
}

/// The cells of row `y` of a board: `#` for a wall, `.` for none.
pub open spec fn wall_symbols(cols: Seq<[bool; 8]>, y: int) -> Seq<char> {
    Seq::new(
        8,
        |x: int|
            if wall_at(cols, x, y) {
                '#'
            } else {
                '.'
            },
    )
}

/// What the cell `(x, y)` holds.
pub fn space_at(grid: &Board, puzzle: &ParsedBoard, x: usize, y: usize) -> (space: Space)
    requires
        x < 8,
        y < 8,
    ensures
        space == space_of(*puzzle, board_columns(*grid), x as int, y as int),
{
    if puzzle.monster_locations[x][y] {
        Space::Monster
    } else if puzzle.treasure_locations[x][y] {
        Space::Treasure
    } else if is_wall(grid, x, y) {
        Space::Wall
    } else {
        Space::Empty
    }
}

/// The character that stands for what a cell holds.
pub fn space_symbol(space: Space) -> (c: char)
    ensures
        c == symbol(space),
{
    match space {
        Space::Empty => '.',
        Space::Wall => '#',
        Space::Monster => 'm',
        Space::Treasure => 't',
    }
}

/// The character for a digit.
fn digit_char(d: u8) -> (c: char)
    requires
        d < 10,
    ensures
        c == digit_symbol(d),
{
    (48 + d) as char
}

/// Appends a number in decimal digits.
pub fn push_decimal(line: &mut Vec<char>, n: u8)
    ensures
        final(line)@ == old(line)@ + decimal_of(n),
{
    if n >= 100 {
        line.push(digit_char(n / 100));
    }
    if n >= 10 {
        line.push(digit_char(n / 10 % 10));
    }
    line.push(digit_char(n % 10));
    assert(line@ =~= old(line)@ + decimal_of(n));
}

/// A puzzle with a board laid over it, as nine lines of text. The first
/// line holds a space and the wall counts of the columns. Each of the others
/// holds the wall count of its row and then its eight cells: `m` for a
/// monster, `t` for a treasure, else `#` for a wall and `.` for none.
pub fn grid_lines(grid: &Board, puzzle: &ParsedBoard) -> (lines: Vec<Vec<char>>)
    ensures
        lines.len() == 9,
        lines[0]@ == seq![' '] + counts_text(puzzle.col_constraints, 8),
        forall|y: int|
            0 <= y < 8 ==> (#[trigger] lines[y + 1])@ == decimal_of(puzzle.row_constraints[y])
                + row_symbols(*puzzle, board_columns(*grid), y),
{
    let ghost cols = board_columns(*grid);
    let mut lines: Vec<Vec<char>> = Vec::new();
    let mut heading: Vec<char> = Vec::new();
    heading.push(' ');
    let mut x: usize = 0;
    assert(heading@ =~= seq![' '] + counts_text(puzzle.col_constraints, 0));
    while x < 8
        invariant
            x <= 8,
            heading@ == seq![' '] + counts_text(puzzle.col_constraints, x as int),
        decreases 8 - x,
    {
        let ghost before = heading@;
        push_decimal(&mut heading, puzzle.col_constraints[x]);
        assert(heading@ =~= seq![' '] + counts_text(puzzle.col_constraints, x + 1));
        x = x + 1;
    }
    lines.push(heading);
    let mut y: usize = 0;
    while y < 8
        invariant
            y <= 8,
            cols == board_columns(*grid),
            lines.len() == y + 1,
            lines[0]@ == seq![' '] + counts_text(puzzle.col_constraints, 8),
            forall|b: int|
                0 <= b < y ==> (#[trigger] lines[b + 1])@ == decimal_of(puzzle.row_constraints[b])
                    + row_symbols(*puzzle, cols, b),
        decreases 8 - y,
    {
        let mut line: Vec<char> = Vec::new();
        push_decimal(&mut line, puzzle.row_constraints[y]);
        let ghost start = line@;
        assert(start =~= decimal_of(puzzle.row_constraints[y as int]));
        let mut x: usize = 0;
        while x < 8
            invariant
                x <= 8,
                y < 8,
                cols == board_columns(*grid),
                line@.len() == start.len() + x,
                forall|i: int| 0 <= i < start.len() ==> line@[i] == start[i],
                forall|a: int|
                    0 <= a < x ==> line@[start.len() + a] == symbol(
                        space_of(*puzzle, cols, a, y as int),
                    ),
            decreases 8 - x,
        {
            line.push(space_symbol(space_at(grid, puzzle, x, y)));
            x = x + 1;
        }
        assert(line@ =~= decimal_of(puzzle.row_constraints[y as int]) + row_symbols(
            *puzzle,
            cols,
            y as int,
        ));
        let ghost earlier = lines@;
        lines.push(line);
        proof {
            assert forall|b: int| 0 <= b < y + 1 implies (#[trigger] lines[b + 1])@ == decimal_of(
                puzzle.row_constraints[b],
            ) + row_symbols(*puzzle, cols, b) by {
                if b < y {
                    assert(lines[b + 1] == earlier[b + 1]);
                }
            }
        }
        y = y + 1;
    }
    lines
}

/// A board as eight lines of text, one for each row: `#` for a wall, `.`
/// for none. A column that is not placed yet shows no wall.
pub fn board_lines(cols: &Board) -> (lines: Vec<Vec<char>>)
    ensures
        lines.len() == 8,
        forall|y: int|
            0 <= y < 8 ==> (#[trigger] lines[y])@ == wall_symbols(board_columns(*cols), y),
{
    let mut lines: Vec<Vec<char>> = Vec::new();
    let mut y: usize = 0;
    while y < 8
        invariant
            y <= 8,
            lines.len() == y,
            forall|b: int|
                0 <= b < y ==> (#[trigger] lines[b])@ == wall_symbols(board_columns(*cols), b),
        decreases 8 - y,
    {
        let mut line: Vec<char> = Vec::new();
        let mut x: usize = 0;
        while x < 8
            invariant
                x <= 8,
                y < 8,
                line@.len() == x,
                forall|a: int|
                    0 <= a < x ==> line@[a] == if wall_at(board_columns(*cols), a, y as int) {
                        '#'
                    } else {
                        '.'
                    },
            decreases 8 - x,
        {
            if is_wall(cols, x, y) {
                line.push('#');
            } else {
                line.push('.');
            }
            x = x + 1;
        }
        assert(line@ =~= wall_symbols(board_columns(*cols), y as int));
        let ghost earlier = lines@;
        lines.push(line);
        proof {
            assert forall|b: int| 0 <= b < y + 1 implies (#[trigger] lines[b])@ == wall_symbols(
                board_columns(*cols),
                b,
            ) by {
                if b < y {
                    assert(lines[b] == earlier[b]);
                }
            }
        }
        y = y + 1;
    }
    lines
}

} // verus!

//! The puzzle as it is given: wall counts for columns and rows, and the
//! cells that hold a monster or a treasure.

use crate::grid::in_grid;
use crate::text::{text_lines, trimmed_lines};
use vstd::prelude::*;

verus! {

/// One puzzle instance. Both grids of marks are indexed by column first,
/// `[x][y]`.
#[derive(Debug, Clone, Copy)]
pub struct ParsedBoard {
    /// The number of walls that each column must hold, column 0 first.
    pub col_constraints: [u8; 8],
    /// The number of walls that each row must hold, row 0 first.
    pub row_constraints: [u8; 8],
    /// The cells that hold a monster.
    pub monster_locations: [[bool; 8]; 8],
    /// The cells that hold a treasure.
    pub treasure_locations: [[bool; 8]; 8],
}

/// Why a text is not a puzzle.
#[derive(Debug, Clone, Copy, PartialEq, Eq)]
pub enum ParseError {
    /// The text does not have nine lines.
    LineCount,
    /// The first line does not have eight characters, or one of the others
    /// does not have nine.
    LineLength,
    /// A wall count is not one of the digits `0` to `8`.
    BadConstraint,
    /// The wall counts of the columns and those of the rows add up
    /// differently.
    TotalsDiffer,
}

/// The wall count that a character stands for: the digits `0` to `8` stand
/// for themselves, no other character stands for a count.
pub open spec fn count_of(c: char) -> Option<u8> {
    if '0' <= c && c <= '8' {
        Some((c as u32 - 48) as u8)
    } else {
        None
    }
}

/// Whether there are nine lines, of eight characters the first and of nine
/// characters each of the others.
pub open spec fn lengths_fit(lines: Seq<Seq<char>>) -> bool {
    &&& lines.len() == 9
    &&& lines[0].len() == 8
    &&& forall|y: int| 1 <= y < 9 ==> (#[trigger] lines[y]).len() == 9
}

/// Whether every character of the first line, and the first character of
/// each other line, stands for a wall count.
pub open spec fn counts_fit(lines: Seq<Seq<char>>) -> bool {
    &&& forall|x: int| 0 <= x < 8 ==> count_of(#[trigger] lines[0][x]) is Some
    &&& forall|y: int| 1 <= y < 9 ==> count_of((#[trigger] lines[y])[0]) is Some
}

/// Whether `puzzle` is what the lines spell: the first line gives the wall
/// counts of the columns; each other line gives the wall count of its row
/// and then the cells of that row, `m` for a monster, `t` for a treasure,
/// anything else for neither.
pub open spec fn spelled_by(puzzle: ParsedBoard, lines: Seq<Seq<char>>) -> bool {
    &&& forall|x: int|
        0 <= x < 8 ==> Some(#[trigger] puzzle.col_constraints[x]) == count_of(lines[0][x])
    &&& forall|y: int|
        0 <= y < 8 ==> Some(#[trigger] puzzle.row_constraints[y]) == count_of(lines[y + 1][0])
    &&& forall|x: int, y: int|
        0 <= x < 8 && 0 <= y < 8 ==> #[trigger] puzzle.monster_locations[x][y] == (lines[y
            + 1][x + 1] == 'm')
    &&& forall|x: int, y: int|
        0 <= x < 8 && 0 <= y < 8 ==> #[trigger] puzzle.treasure_locations[x][y] == (lines[y
            + 1][x + 1] == 't')
}

/// The sum of eight wall counts.
pub open spec fn total(counts: [u8; 8]) -> int {
    counts[0] + counts[1] + counts[2] + counts[3] + counts[4] + counts[5] + counts[6] + counts[7]
}

/// The wall count that a character stands for, if it stands for one.
pub fn count_value(c: char) -> (r: Option<u8>)
    ensures
        r == count_of(c),
{
    if '0' <= c && c <= '8' {
        let n: u32 = c as u32;
        Some((n - 48) as u8)
    } else {
        None
    }
}

/// The sum of eight wall counts, each at most 8.
fn sum_counts(counts: &[u8; 8]) -> (sum: u8)
    requires
        forall|i: int| 0 <= i < 8 ==> counts[i] <= 8,
    ensures
        sum == total(*counts),
{
    counts[0] + counts[1] + counts[2] + counts[3] + counts[4] + counts[5] + counts[6] + counts[7]
}

impl ParsedBoard {
    /// Whether the cell `(x, y)` holds a monster.
    pub open spec fn monster_at(self, x: int, y: int) -> bool {
        in_grid(x, y) && self.monster_locations[x][y]
    }

    /// Whether the cell `(x, y)` holds a treasure.
    pub open spec fn treasure_at(self, x: int, y: int) -> bool {
        in_grid(x, y) && self.treasure_locations[x][y]
    }

    /// Whether the puzzle is well formed: no wall count is above 8, the
    /// counts of the columns add up to what those of the rows add up to, and
    /// no cell holds both a monster and a treasure.
    pub open spec fn well_formed(self) -> bool {
        &&& forall|x: int| 0 <= x < 8 ==> #[trigger] self.col_constraints[x] <= 8
        &&& forall|y: int| 0 <= y < 8 ==> #[trigger] self.row_constraints[y] <= 8
        &&& total(self.col_constraints) == total(self.row_constraints)
        &&& forall|x: int, y: int| !(#[trigger] self.monster_at(x, y) && self.treasure_at(x, y))
    }

    /// Reads a puzzle from text. Blanks at both ends of the text and of
    /// each line are ignored. There must be nine lines. The first holds
    /// eight digits, the wall counts of the columns. Each of the other eight
    /// holds the wall count of its row and then eight characters for the
    /// cells of that row: `m` for a monster, `t` for a treasure, anything
    /// else for neither. A wall count is a digit from `0` to `8`, and the
    /// counts of the columns must add up to what those of the rows add up
    /// to.
    ///
    /// A text that is no puzzle is refused with the first of these that
    /// applies: the number of lines is wrong; a line has the wrong length; a
    /// wall count is no digit from `0` to `8`; the counts add up differently.
    pub fn parse(s: &str) -> (r: Result<ParsedBoard, ParseError>)
        ensures
            match r {
                Ok(puzzle) => lengths_fit(trimmed_lines(s@)) && counts_fit(trimmed_lines(s@))
                    && spelled_by(puzzle, trimmed_lines(s@)) && puzzle.well_formed(),
                Err(ParseError::LineCount) => trimmed_lines(s@).len() != 9,
                Err(ParseError::LineLength) => trimmed_lines(s@).len() == 9 && !lengths_fit(
                    trimmed_lines(s@),
                ),
                Err(ParseError::BadConstraint) => lengths_fit(trimmed_lines(s@)) && !counts_fit(
                    trimmed_lines(s@),
                ),
                Err(ParseError::TotalsDiffer) => lengths_fit(trimmed_lines(s@)) && counts_fit(
                    trimmed_lines(s@),
                ) && exists|puzzle: ParsedBoard| #[trigger]
                    spelled_by(puzzle, trimmed_lines(s@)) && total(puzzle.col_constraints)
                        != total(puzzle.row_constraints),
            },
    {
        let ghost model = trimmed_lines(s@);
        let lines = text_lines(s);
        if lines.len() != 9 {
            return Err(ParseError::LineCount);
        }
        if lines[0].len() != 8 {
            assert(model[0] == lines[0]@);
            return Err(ParseError::LineLength);
        }
        let mut row: usize = 1;
        while row < 9
            invariant
                1 <= row <= 9,
                lines.len() == 9,
                model.len() == 9,
                model == trimmed_lines(s@),
                forall|k: int| 0 <= k < 9 ==> (#[trigger] lines[k])@ == model[k],
                forall|y: int| 1 <= y < row ==> (#[trigger] model[y]).len() == 9,
            decreases 9 - row,
        {
            if lines[row].len() != 9 {
                assert(model[row as int] == lines[row as int]@);
                return Err(ParseError::LineLength);
            }
            assert(model[row as int] == lines[row as int]@);
            row = row + 1;
        }
        assert(model[0] == lines[0]@);
        assert(lengths_fit(model));
        let mut col_constraints = [0u8; 8];
        let mut x: usize = 0;
        while x < 8
            invariant
                x <= 8,
                lines.len() == 9,
                lengths_fit(model),
                model == trimmed_lines(s@),
                forall|k: int| 0 <= k < 9 ==> (#[trigger] lines[k])@ == model[k],
                forall|a: int|
                    0 <= a < x ==> Some(#[trigger] col_constraints[a]) == count_of(
                        model[0][a],
                    ),
            decreases 8 - x,
        {
            assert(model[0] == lines[0]@);
            match count_value(lines[0][x]) {
                Some(count) => {
                    col_constraints[x] = count;
                },
                None => {
                    assert(count_of(model[0][x as int]) is None);
                    return Err(ParseError::BadConstraint);
                },
            }
            x = x + 1;
        }
        let mut row_constraints = [0u8; 8];
        let mut monster_locations = [[false; 8]; 8];
        let mut treasure_locations = [[false; 8]; 8];
        let mut y: usize = 0;
        while y < 8
            invariant
                y <= 8,
                lines.len() == 9,
                lengths_fit(model),
                model == trimmed_lines(s@),
                forall|k: int| 0 <= k < 9 ==> (#[trigger] lines[k])@ == model[k],
                forall|b: int|
                    0 <= b < y ==> Some(#[trigger] row_constraints[b]) == count_of(
                        model[b + 1][0],
                    ),
            decreases 8 - y,
        {
            assert(model[y + 1] == lines[y + 1]@);
            match count_value(lines[y + 1][0]) {
                Some(count) => {
                    row_constraints[y] = count;
                },
                None => {
                    assert(count_of(model[y + 1][0]) is None);
                    return Err(ParseError::BadConstraint);
                },
            }
            y = y + 1;
        }
        proof {
            assert forall|x: int| 0 <= x < 8 implies count_of(
                #[trigger] model[0][x],
            ) is Some by {
                assert(Some(col_constraints[x]) == count_of(model[0][x]));
            }
            assert forall|y: int| 1 <= y < 9 implies count_of(
                (#[trigger] model[y])[0],
            ) is Some by {
                assert(Some(row_constraints[y - 1]) == count_of(model[y - 1 + 1][0]));
            }
            assert(counts_fit(model));
        }
        let mut x: usize = 0;
        while x < 8
            invariant
                x <= 8,
                lines.len() == 9,
                lengths_fit(model),
                model == trimmed_lines(s@),
                forall|k: int| 0 <= k < 9 ==> (#[trigger] lines[k])@ == model[k],
                forall|a: int, b: int|
                    0 <= a < x && 0 <= b < 8 ==> #[trigger] monster_locations[a][b] == (
                    model[b + 1][a + 1] == 'm'),
                forall|a: int, b: int|
                    0 <= a < x && 0 <= b < 8 ==> #[trigger] treasure_locations[a][b] == (
                    model[b + 1][a + 1] == 't'),
            decreases 8 - x,
        {
            let mut monsters = [false; 8];
            let mut treasures = [false; 8];
            let mut y: usize = 0;
            while y < 8
                invariant
                    x < 8,
                    y <= 8,
                    lines.len() == 9,
                    lengths_fit(model),
                    model == trimmed_lines(s@),
                model == trimmed_lines(s@),
                    forall|k: int| 0 <= k < 9 ==> (#[trigger] lines[k])@ == model[k],
                    forall|b: int|
                        0 <= b < y ==> #[trigger] monsters[b] == (model[b + 1][x + 1] == 'm'),
                    forall|b: int|
                        0 <= b < y ==> #[trigger] treasures[b] == (model[b + 1][x + 1]
                            == 't'),
                decreases 8 - y,
            {
                assert(model[y + 1] == lines[y + 1]@);
                let rest = lines[y + 1][x + 1];
                monsters[y] = rest == 'm';
                treasures[y] = rest == 't';
                y = y + 1;
            }
            monster_locations[x] = monsters;
            treasure_locations[x] = treasures;
            x = x + 1;
        }
        let puzzle = ParsedBoard {
            col_constraints,
            row_constraints,
            monster_locations,
            treasure_locations,
        };
        assert(spelled_by(puzzle, model));
        proof {
            assert forall|i: int| 0 <= i < 8 implies #[trigger] col_constraints[i] <= 8 by {
                assert(Some(col_constraints[i]) == count_of(model[0][i]));
            }
            assert forall|i: int| 0 <= i < 8 implies #[trigger] row_constraints[i] <= 8 by {
                assert(Some(row_constraints[i]) == count_of(model[i + 1][0]));
            }
        }
        if sum_counts(&col_constraints) != sum_counts(&row_constraints) {
            return Err(ParseError::TotalsDiffer);
        }
        Ok(puzzle)
    }

    /// The cells that hold a monster, column by column and from row 0 down
    /// within each column.
    pub fn all_monster_positions(&self) -> (positions: Vec<(usize, usize)>)
        ensures
            forall|i: int|
                0 <= i < positions.len() ==> self.monster_at(
                    (#[trigger] positions[i]).0 as int,
                    positions[i].1 as int,
                ),
            forall|x: int, y: int|
                #[trigger] self.monster_at(x, y) ==> positions@.contains((x as usize, y as usize)),
            forall|i: int, j: int|
                0 <= i < j < positions.len() ==> positions[i].0 * 8 + positions[i].1
                    < positions[j].0 * 8 + positions[j].1,
    {
        let mut positions: Vec<(usize, usize)> = Vec::new();
        let mut x: usize = 0;
        while x < 8
            invariant
                x <= 8,
                forall|i: int|
                    0 <= i < positions.len() ==> self.monster_at(
                        (#[trigger] positions[i]).0 as int,
                        positions[i].1 as int,
                    ) && positions[i].0 < x,
                forall|a: int, b: int|
                    a < x && #[trigger] self.monster_at(a, b) ==> positions@.contains(
                        (a as usize, b as usize),
                    ),
                forall|i: int, j: int|
                    0 <= i < j < positions.len() ==> positions[i].0 * 8 + positions[i].1
                        < positions[j].0 * 8 + positions[j].1,
            decreases 8 - x,
        {
            let mut y: usize = 0;
            while y < 8
                invariant
                    x < 8,
                    y <= 8,
                    forall|i: int|
                        0 <= i < positions.len() ==> self.monster_at(
                            (#[trigger] positions[i]).0 as int,
                            positions[i].1 as int,
                        ) && (positions[i].0 < x || (positions[i].0 == x && positions[i].1 < y)),
                    forall|a: int, b: int|
                        (a < x || (a == x && b < y)) && #[trigger] self.monster_at(a, b)
                            ==> positions@.contains((a as usize, b as usize)),
                    forall|i: int, j: int|
                        0 <= i < j < positions.len() ==> positions[i].0 * 8 + positions[i].1
                            < positions[j].0 * 8 + positions[j].1,
                decreases 8 - y,
            {
                let ghost before = positions@;
                if self.monster_locations[x][y] {
                    positions.push((x, y));
                    assert(positions@[before.len() as int] == (x, y));
                }
                proof {
                    assert forall|a: int, b: int|
                        (a < x || (a == x && b < y + 1)) && #[trigger] self.monster_at(
                            a,
                            b,
                        ) implies positions@.contains((a as usize, b as usize)) by {
                        if a < x || b < y {
                            assert(before.contains((a as usize, b as usize)));
                            let i = choose|i: int|
                                0 <= i < before.len() && before[i] == (a as usize, b as usize);
                            assert(positions@[i] == (a as usize, b as usize));
                        }
                    }
                }
                y = y + 1;
            }
            x = x + 1;
        }
        positions
    }
}

} // verus!

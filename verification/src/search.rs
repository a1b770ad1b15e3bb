//! The search: boards are grown column by column from the candidate columns,
//! and a board is dropped as soon as a row holds more walls than it may.

use crate::fixed::{board_column, board_columns, board_len, board_new, Board};
use crate::grid::{board_bits, in_grid, with_column};
use crate::listing::lists_exactly;
use crate::perms::{binomial, column_walls, has_walls, ones, PermutationTable};
use crate::puzzle::ParsedBoard;
use crate::rows::RowMasks;
use vstd::prelude::*;

verus! {

/// Whether the cell `(x, y)` holds a monster or a treasure.
pub open spec fn special_at(puzzle: ParsedBoard, x: int, y: int) -> bool {
    in_grid(x, y) && (puzzle.monster_locations[x][y] || puzzle.treasure_locations[x][y])
}

/// Whether a column, placed as column `x`, puts no wall on a monster or on a
/// treasure.
pub open spec fn avoids_specials(puzzle: ParsedBoard, x: int, column: [bool; 8]) -> bool {
    forall|y: int| 0 <= y < 8 && #[trigger] column[y] ==> !special_at(puzzle, x, y)
}

/// Whether a column may stand as column `x`: it holds the number of walls
/// asked of that column and spares the monsters and treasures.
pub open spec fn fits_column(puzzle: ParsedBoard, x: int, column: [bool; 8]) -> bool {
    &&& 0 <= x < 8
    &&& column_walls(column) == puzzle.col_constraints[x]
    &&& avoids_specials(puzzle, x, column)
}

/// The number of walls that the placed columns put in row `y`.
pub open spec fn row_walls(cols: Seq<[bool; 8]>, y: int) -> int
    decreases cols.len(),
{
    if cols.len() == 0 {
        0
    } else {
        row_walls(cols.drop_last(), y) + ones(cols.last()[y])
    }
}

/// Whether no row holds more walls than it may.
pub open spec fn within_rows(row_constraints: [u8; 8], cols: Seq<[bool; 8]>) -> bool {
    forall|y: int| 0 <= y < 8 ==> #[trigger] row_walls(cols, y) <= row_constraints[y]
}

/// Whether the placed columns can still lead to a solution as far as the
/// wall counts go: each fits its place, and no row is over its count.
pub open spec fn admissible(puzzle: ParsedBoard, cols: Seq<[bool; 8]>) -> bool {
    &&& cols.len() <= 8
    &&& forall|x: int| 0 <= x < cols.len() ==> fits_column(puzzle, x, #[trigger] cols[x])
    &&& within_rows(puzzle.row_constraints, cols)
}

/// Accepts the admissible boards of exactly `depth` columns.
pub open spec fn admissible_at(puzzle: ParsedBoard, depth: int) -> spec_fn(Seq<[bool; 8]>) -> bool {
    |cols: Seq<[bool; 8]>| cols.len() == depth && admissible(puzzle, cols)
}

/// Whether `column` may be appended to `base`.
pub open spec fn accepted(puzzle: ParsedBoard, base: Seq<[bool; 8]>, column: [bool; 8]) -> bool {
    &&& avoids_specials(puzzle, base.len() as int, column)
    &&& within_rows(puzzle.row_constraints, base.push(column))
}

/// Accepts the boards that are `base` and one more column, where that column
/// fits its place and leaves every row within its count.
pub open spec fn grows(puzzle: ParsedBoard, base: Seq<[bool; 8]>) -> spec_fn(
    Seq<[bool; 8]>,
) -> bool {
    |cols: Seq<[bool; 8]>|
        {
            &&& cols.len() == base.len() + 1
            &&& cols.drop_last() == base
            &&& fits_column(puzzle, base.len() as int, cols.last())
            &&& within_rows(puzzle.row_constraints, cols)
        }
}

/// The columns of each board of a sequence.
pub open spec fn columns_of(boards: Seq<Board>) -> Seq<Seq<[bool; 8]>> {
    boards.map_values(|board: Board| board_columns(board))
}

/// Whether nothing but the column counts restricts the search: no monster,
/// no treasure, and every row may hold eight walls.
pub open spec fn unhindered(puzzle: ParsedBoard) -> bool {
    &&& forall|x: int, y: int| !#[trigger] special_at(puzzle, x, y)
    &&& forall|y: int| 0 <= y < 8 ==> #[trigger] puzzle.row_constraints[y] >= 8
}

/// The product of `binomial(8, c)` over the counts `c` of the first `n`
/// columns.
pub open spec fn column_product(col_constraints: [u8; 8], n: int) -> nat
    decreases n,
{
    if n <= 0 {
        1
    } else {
        column_product(col_constraints, n - 1) * binomial(8, col_constraints[n - 1] as int)
    }
}

/// A row holds at most one wall for each placed column.
pub proof fn lemma_row_walls_bounds(cols: Seq<[bool; 8]>, y: int)
    ensures
        0 <= row_walls(cols, y) <= cols.len(),
    decreases cols.len(),
{
    if cols.len() > 0 {
        lemma_row_walls_bounds(cols.drop_last(), y);
    }
}

/// One more column adds its own cell to each row.
pub proof fn lemma_row_walls_push(cols: Seq<[bool; 8]>, column: [bool; 8], y: int)
    ensures
        row_walls(cols.push(column), y) == row_walls(cols, y) + ones(column[y]),
{
    assert(cols.push(column).drop_last() =~= cols);
}

/// Walls are only ever added: what is admissible stays so when its last
/// column is taken away.
pub proof fn lemma_admissible_prefix(puzzle: ParsedBoard, cols: Seq<[bool; 8]>)
    requires
        admissible(puzzle, cols),
        cols.len() > 0,
    ensures
        admissible(puzzle, cols.drop_last()),
        fits_column(puzzle, cols.len() - 1, cols.last()),
{
    let shorter = cols.drop_last();
    assert forall|x: int| 0 <= x < shorter.len() implies fits_column(
        puzzle,
        x,
        #[trigger] shorter[x],
    ) by {
        assert(shorter[x] == cols[x]);
    }
    assert forall|y: int| 0 <= y < 8 implies #[trigger] row_walls(shorter, y)
        <= puzzle.row_constraints[y] by {
        assert(row_walls(cols, y) <= puzzle.row_constraints[y]);
    }
}

/// Where nothing but the column counts restricts the search, every column
/// may be appended to every board that is not complete.
pub proof fn lemma_unhindered_accepts(puzzle: ParsedBoard, base: Seq<[bool; 8]>, column: [bool; 8])
    requires
        unhindered(puzzle),
        base.len() < 8,
    ensures
        accepted(puzzle, base, column),
{
    assert forall|y: int| 0 <= y < 8 implies #[trigger] row_walls(base.push(column), y)
        <= puzzle.row_constraints[y] by {
        lemma_row_walls_bounds(base.push(column), y);
        assert(puzzle.row_constraints[y] >= 8);
    }
}

/// Where nothing but the column counts restricts the search, a board is
/// admissible exactly if each of its columns holds the number of walls asked
/// of it.
pub proof fn lemma_unhindered_asks_for_counts_only(puzzle: ParsedBoard, cols: Seq<[bool; 8]>)
    requires
        unhindered(puzzle),
        cols.len() <= 8,
    ensures
        admissible(puzzle, cols) == (forall|x: int|
            0 <= x < cols.len() ==> column_walls(#[trigger] cols[x]) == puzzle.col_constraints[x]),
{
    if forall|x: int|
        0 <= x < cols.len() ==> column_walls(#[trigger] cols[x]) == puzzle.col_constraints[x] {
        assert forall|x: int| 0 <= x < cols.len() implies fits_column(
            puzzle,
            x,
            #[trigger] cols[x],
        ) by {
            assert forall|y: int| 0 <= y < 8 && #[trigger] cols[x][y] implies !special_at(
                puzzle,
                x,
                y,
            ) by {}
        }
        assert forall|y: int| 0 <= y < 8 implies #[trigger] row_walls(cols, y)
            <= puzzle.row_constraints[y] by {
            lemma_row_walls_bounds(cols, y);
            assert(puzzle.row_constraints[y] >= 8);
        }
    }
}

/// The sum of the first `n` counts.
pub open spec fn prefix_total(counts: [u8; 8], n: int) -> int
    decreases n,
{
    if n <= 0 {
        0
    } else {
        prefix_total(counts, n - 1) + counts[n - 1]
    }
}

/// The number of walls in all the placed columns.
pub open spec fn walls_total(cols: Seq<[bool; 8]>) -> int
    decreases cols.len(),
{
    if cols.len() == 0 {
        0
    } else {
        walls_total(cols.drop_last()) + column_walls(cols.last())
    }
}

/// The number of walls in all eight rows.
pub open spec fn rows_total(cols: Seq<[bool; 8]>) -> int {
    row_walls(cols, 0) + row_walls(cols, 1) + row_walls(cols, 2) + row_walls(cols, 3) + row_walls(
        cols,
        4,
    ) + row_walls(cols, 5) + row_walls(cols, 6) + row_walls(cols, 7)
}

/// Counting the walls row by row gives what counting them column by column
/// gives.
pub proof fn lemma_walls_counted_twice(cols: Seq<[bool; 8]>)
    ensures
        rows_total(cols) == walls_total(cols),
    decreases cols.len(),
{
    if cols.len() > 0 {
        lemma_walls_counted_twice(cols.drop_last());
    }
}

/// Where each placed column holds the number of walls asked of it, the
/// placed columns hold the sum of those numbers.
pub proof fn lemma_walls_of_columns(puzzle: ParsedBoard, cols: Seq<[bool; 8]>)
    requires
        admissible(puzzle, cols),
    ensures
        walls_total(cols) == prefix_total(puzzle.col_constraints, cols.len() as int),
    decreases cols.len(),
{
    if cols.len() > 0 {
        lemma_admissible_prefix(puzzle, cols);
        lemma_walls_of_columns(puzzle, cols.drop_last());
    }
}

/// The number of walls that a board holds in row `y`.
pub fn count_row_walls(board: &Board, y: usize) -> (n: u8)
    requires
        y < 8,
    ensures
        n == row_walls(board_columns(*board), y as int),
{
    let ghost cols = board_columns(*board);
    let len = board_len(board);
    let mut n: u8 = 0;
    let mut x: usize = 0;
    while x < len
        invariant
            x <= len <= 8,
            len == cols.len(),
            cols == board_columns(*board),
            y < 8,
            n == row_walls(cols.take(x as int), y as int),
            n <= x,
        decreases len - x,
    {
        let column = board_column(board, x);
        proof {
            assert(cols.take(x + 1) =~= cols.take(x as int).push(cols[x as int]));
            lemma_row_walls_push(cols.take(x as int), cols[x as int], y as int);
        }
        if column[y] {
            n = n + 1;
        }
        x = x + 1;
    }
    assert(cols.take(len as int) =~= cols);
    n
}

/// Whether some row of the board holds more walls than it may.
pub fn exceeds_rows(board: &Board, row_constraints: &[u8; 8]) -> (r: bool)
    ensures
        r == !within_rows(*row_constraints, board_columns(*board)),
{
    let mut y: usize = 0;
    while y < 8
        invariant
            y <= 8,
            forall|z: int|
                0 <= z < y ==> #[trigger] row_walls(board_columns(*board), z)
                    <= row_constraints[z],
        decreases 8 - y,
    {
        if count_row_walls(board, y) > row_constraints[y] {
            assert(row_walls(board_columns(*board), y as int) > row_constraints[y as int]);
            return true;
        }
        y = y + 1;
    }
    false
}

/// Whether a column, placed as column `x`, puts a wall on a monster or on a
/// treasure.
pub fn hits_special(column: &[bool; 8], puzzle: &ParsedBoard, x: usize) -> (r: bool)
    requires
        x < 8,
    ensures
        r == !avoids_specials(*puzzle, x as int, *column),
{
    let mut y: usize = 0;
    while y < 8
        invariant
            y <= 8,
            x < 8,
            forall|z: int| 0 <= z < y && #[trigger] column[z] ==> !special_at(*puzzle, x as int, z),
        decreases 8 - y,
    {
        if column[y] && (puzzle.treasure_locations[x][y] || puzzle.monster_locations[x][y]) {
            assert(column[y as int] && special_at(*puzzle, x as int, y as int));
            return true;
        }
        y = y + 1;
    }
    false
}

/// One step of the search for one board: every board that is this board and
/// one more column, where the new column holds the number of walls asked of
/// its place, spares the monsters and treasures, and leaves every row within
/// its count. A complete board has no such successor.
pub fn expand_board(
    board: &Board,
    puzzle: &ParsedBoard,
    table: &PermutationTable,
    masks: &RowMasks,
) -> (out: Vec<Board>)
    ensures
        lists_exactly(columns_of(out@), grows(*puzzle, board_columns(*board))),
        unhindered(*puzzle) && board_columns(*board).len() < 8 ==> out.len() == binomial(
            8,
            puzzle.col_constraints[board_columns(*board).len() as int] as int,
        ),
{
    let ghost base = board_columns(*board);
    let ghost wanted = grows(*puzzle, base);
    let mut out: Vec<Board> = Vec::new();
    let x = board_len(board);
    if x >= 8 {
        proof {
            assert(columns_of(out@) =~= Seq::empty());
            assert forall|v: Seq<[bool; 8]>| wanted(v) implies #[trigger] columns_of(out@).contains(
                v,
            ) by {
                assert(!fits_column(*puzzle, base.len() as int, v.last()));
            }
        }
        return out;
    }
    let count = puzzle.col_constraints[x];
    if count > 8 {
        proof {
            assert(columns_of(out@) =~= Seq::empty());
            assert forall|v: Seq<[bool; 8]>| wanted(v) implies #[trigger] columns_of(out@).contains(
                v,
            ) by {
                assert(column_walls(v.last()) <= 8);
            }
            assert(binomial(8, count as int) == 0);
        }
        return out;
    }
    let candidates = table.permutations_for(count);
    let ghost mut picked: Seq<int> = Seq::empty();
    let mut j: usize = 0;
    while j < candidates.len()
        invariant
            j <= candidates.len(),
            x < 8,
            x == base.len(),
            base == board_columns(*board),
            lists_exactly(candidates@, has_walls(count as int)),
            out.len() == picked.len(),
            forall|i: int|
                0 <= i < picked.len() ==> 0 <= #[trigger] picked[i] < j && board_columns(out[i])
                    == base.push(candidates[picked[i]]) && accepted(
                    *puzzle,
                    base,
                    candidates[picked[i]],
                ),
            forall|a: int, b: int| 0 <= a < b < picked.len() ==> picked[a] < picked[b],
            forall|c: int|
                0 <= c < j && accepted(*puzzle, base, #[trigger] candidates[c]) ==> picked.contains(
                    c,
                ),
            unhindered(*puzzle) ==> out.len() == j,
        decreases candidates.len() - j,
    {
        let column = candidates[j];
        let ghost before = picked;
        proof {
            if unhindered(*puzzle) {
                lemma_unhindered_accepts(*puzzle, base, column);
            }
        }
        if !hits_special(&column, puzzle, x) {
            let next = with_column(board, column);
            let packed = board_bits(&next);
            if !masks.exceeded(packed.0, &puzzle.row_constraints) {
                out.push(next);
                proof {
                    picked = picked.push(j as int);
                }
            }
        }
        proof {
            assert forall|c: int|
                0 <= c < j + 1 && accepted(*puzzle, base, #[trigger] candidates[c])
                implies picked.contains(c) by {
                if c < j {
                    assert(before.contains(c));
                    let i = choose|i: int| 0 <= i < before.len() && before[i] == c;
                    assert(picked[i] == c);
                } else {
                    assert(picked[picked.len() - 1] == c);
                }
            }
        }
        j = j + 1;
    }
    proof {
        let listed = columns_of(out@);
        assert forall|i: int| 0 <= i < listed.len() implies wanted(#[trigger] listed[i]) by {
            let column = candidates[picked[i]];
            assert(listed[i] == base.push(column));
            assert(listed[i].drop_last() =~= base);
            assert(has_walls(count as int)(column));
        }
        assert forall|v: Seq<[bool; 8]>| wanted(v) implies #[trigger] listed.contains(v) by {
            let column = v.last();
            assert(v =~= base.push(column));
            assert(has_walls(count as int)(column));
            assert(candidates@.contains(column));
            let c = choose|c: int| 0 <= c < candidates.len() && candidates[c] == column;
            assert(accepted(*puzzle, base, candidates[c]));
            assert(picked.contains(c));
            let i = choose|i: int| 0 <= i < picked.len() && picked[i] == c;
            assert(listed[i] == v);
        }
        assert forall|a: int, b: int|
            0 <= a < listed.len() && 0 <= b < listed.len() && a != b implies listed[a]
            != listed[b] by {
            if a < b {
                assert(picked[a] < picked[b]);
            } else {
                assert(picked[b] < picked[a]);
            }
            assert(candidates[picked[a]] != candidates[picked[b]]);
            assert(listed[a].last() == candidates[picked[a]]);
            assert(listed[b].last() == candidates[picked[b]]);
        }
    }
    out
}

/// Accepts the boards that are one of `bases` and one more column, where
/// that column fits its place and leaves every row within its count.
pub open spec fn grows_from(puzzle: ParsedBoard, bases: Seq<Seq<[bool; 8]>>) -> spec_fn(
    Seq<[bool; 8]>,
) -> bool {
    |cols: Seq<[bool; 8]>|
        {
            &&& cols.len() > 0
            &&& bases.contains(cols.drop_last())
            &&& fits_column(puzzle, cols.len() - 1, cols.last())
            &&& within_rows(puzzle.row_constraints, cols)
        }
}

/// The successors of a frontier are the successors of its parts, wherever it
/// is cut in two: the parts can be expanded apart from each other, and in
/// any order.
pub proof fn lemma_successors_of_parts(
    puzzle: ParsedBoard,
    first: Seq<Seq<[bool; 8]>>,
    second: Seq<Seq<[bool; 8]>>,
    cols: Seq<[bool; 8]>,
)
    ensures
        grows_from(puzzle, first + second)(cols) == (grows_from(puzzle, first)(cols) || grows_from(
            puzzle,
            second,
        )(cols)),
{
    let whole = first + second;
    let base = cols.drop_last();
    if first.contains(base) {
        let i = choose|i: int| 0 <= i < first.len() && first[i] == base;
        assert(whole[i] == base);
    }
    if second.contains(base) {
        let i = choose|i: int| 0 <= i < second.len() && second[i] == base;
        assert(whole[first.len() + i] == base);
    }
    if whole.contains(base) {
        let i = choose|i: int| 0 <= i < whole.len() && whole[i] == base;
        if i < first.len() {
            assert(first[i] == base);
        } else {
            assert(second[i - first.len()] == base);
        }
    }
}

/// Whether every board of a sequence holds exactly `depth` columns.
pub open spec fn all_of_depth(bases: Seq<Seq<[bool; 8]>>, depth: int) -> bool {
    forall|i: int| 0 <= i < bases.len() ==> (#[trigger] bases[i]).len() == depth
}

/// One step of the search for a whole frontier: the successors of each of
/// its boards. Where no two boards of the frontier are the same, no two of
/// their successors are.
pub fn expand_frontier(
    frontier: &Vec<Board>,
    puzzle: &ParsedBoard,
    table: &PermutationTable,
    masks: &RowMasks,
) -> (next: Vec<Board>)
    ensures
        forall|n: int|
            0 <= n < next.len() ==> grows_from(*puzzle, columns_of(frontier@))(
                #[trigger] columns_of(next@)[n],
            ),
        forall|v: Seq<[bool; 8]>|
            grows_from(*puzzle, columns_of(frontier@))(v) ==> #[trigger] columns_of(
                next@,
            ).contains(v),
        columns_of(frontier@).no_duplicates() ==> columns_of(next@).no_duplicates(),
        forall|depth: int|
            unhindered(*puzzle) && 0 <= depth < 8 && #[trigger] all_of_depth(
                columns_of(frontier@),
                depth,
            ) ==> next.len() == frontier.len() * binomial(
                8,
                puzzle.col_constraints[depth] as int,
            ),
{
    let ghost bases = columns_of(frontier@);
    let mut next: Vec<Board> = Vec::new();
    let mut i: usize = 0;
    proof {
        assert(columns_of(next@) =~= Seq::empty());
        assert(bases.take(0) =~= Seq::empty());
    }
    while i < frontier.len()
        invariant
            i <= frontier.len(),
            bases == columns_of(frontier@),
            forall|n: int|
                0 <= n < next.len() ==> grows_from(*puzzle, bases.take(i as int))(
                    #[trigger] columns_of(next@)[n],
                ),
            forall|v: Seq<[bool; 8]>|
                grows_from(*puzzle, bases.take(i as int))(v) ==> #[trigger] columns_of(
                    next@,
                ).contains(v),
            bases.no_duplicates() ==> columns_of(next@).no_duplicates(),
            forall|depth: int|
                unhindered(*puzzle) && 0 <= depth < 8 && #[trigger] all_of_depth(bases, depth)
                    ==> next.len() == i * binomial(8, puzzle.col_constraints[depth] as int),
        decreases frontier.len() - i,
    {
        let ghost listed = columns_of(next@);
        let ghost earlier = bases.take(i as int);
        let ghost base = bases[i as int];
        let mut grown = expand_board(&frontier[i], puzzle, table, masks);
        let ghost fresh = columns_of(grown@);
        let ghost old_len = next.len();
        let ghost grown_len = grown.len();
        next.append(&mut grown);
        proof {
            let now = columns_of(next@);
            let reach = bases.take(i + 1);
            assert(now =~= listed + fresh);
            assert(reach =~= earlier.push(base));
            assert forall|n: int| 0 <= n < now.len() implies grows_from(*puzzle, reach)(
                #[trigger] now[n],
            ) by {
                if n < listed.len() {
                    assert(grows_from(*puzzle, earlier)(listed[n]));
                    let k = choose|k: int|
                        0 <= k < earlier.len() && earlier[k] == listed[n].drop_last();
                    assert(reach[k] == listed[n].drop_last());
                } else {
                    let m = n - listed.len();
                    assert(grows(*puzzle, base)(fresh[m]));
                    assert(reach[i as int] == fresh[m].drop_last());
                }
            }
            assert forall|v: Seq<[bool; 8]>|
                grows_from(*puzzle, reach)(v) implies #[trigger] now.contains(v) by {
                let k = choose|k: int| 0 <= k < reach.len() && reach[k] == v.drop_last();
                if k < i {
                    assert(earlier[k] == v.drop_last());
                    assert(grows_from(*puzzle, earlier)(v));
                    assert(listed.contains(v));
                    let n = choose|n: int| 0 <= n < listed.len() && listed[n] == v;
                    assert(now[n] == v);
                } else {
                    assert(grows(*puzzle, base)(v));
                    assert(fresh.contains(v));
                    let m = choose|m: int| 0 <= m < fresh.len() && fresh[m] == v;
                    assert(now[listed.len() + m] == v);
                }
            }
            if bases.no_duplicates() {
                assert forall|a: int, b: int|
                    0 <= a < now.len() && 0 <= b < now.len() && a != b implies now[a]
                    != now[b] by {
                    if a < listed.len() && b < listed.len() {
                        assert(listed[a] != listed[b]);
                    } else if a >= listed.len() && b >= listed.len() {
                        assert(fresh[a - listed.len()] != fresh[b - listed.len()]);
                    } else {
                        let (o, f) = if a < listed.len() {
                            (a, b - listed.len())
                        } else {
                            (b, a - listed.len())
                        };
                        assert(grows_from(*puzzle, earlier)(listed[o]));
                        assert(grows(*puzzle, base)(fresh[f]));
                        let k = choose|k: int|
                            0 <= k < earlier.len() && earlier[k] == listed[o].drop_last();
                        assert(bases[k] != bases[i as int]);
                    }
                }
            }
            assert forall|depth: int|
                unhindered(*puzzle) && 0 <= depth < 8 && #[trigger] all_of_depth(
                    bases,
                    depth,
                ) implies next.len() == (i + 1) * binomial(
                8,
                puzzle.col_constraints[depth] as int,
            ) by {
                let each = binomial(8, puzzle.col_constraints[depth] as int);
                assert(bases[i as int].len() == depth);
                assert(old_len == i * each);
                assert(grown_len == each);
                assert((i + 1) * each == i * each + each) by (nonlinear_arith);
            }
        }
        i = i + 1;
    }
    proof {
        assert(bases.take(i as int) =~= bases);
    }
    next
}

/// The search: every complete board in which each column holds the number
/// of walls asked of it and spares the monsters and treasures, and in which
/// no row holds more walls than asked of it. Each such board is found once.
///
/// Where nothing restricts the search but the column counts, the number of
/// boards found is the product of `binomial(8, c)` over the eight counts.
pub fn search(puzzle: &ParsedBoard, table: &PermutationTable, masks: &RowMasks) -> (found: Vec<
    Board,
>)
    ensures
        lists_exactly(columns_of(found@), admissible_at(*puzzle, 8)),
        unhindered(*puzzle) ==> found.len() == column_product(puzzle.col_constraints, 8),
{
    let mut frontier: Vec<Board> = Vec::new();
    frontier.push(board_new());
    let mut depth: usize = 0;
    proof {
        let listed = columns_of(frontier@);
        assert(listed[0] =~= Seq::empty());
        assert forall|y: int| 0 <= y < 8 implies #[trigger] row_walls(listed[0], y)
            <= puzzle.row_constraints[y] by {}
        assert forall|v: Seq<[bool; 8]>|
            admissible_at(*puzzle, 0)(v) implies #[trigger] listed.contains(v) by {
            assert(v =~= listed[0]);
        }
        assert(frontier.len() == column_product(puzzle.col_constraints, 0));
    }
    while depth < 8
        invariant
            depth <= 8,
            lists_exactly(columns_of(frontier@), admissible_at(*puzzle, depth as int)),
            unhindered(*puzzle) ==> frontier.len() == column_product(
                puzzle.col_constraints,
                depth as int,
            ),
        decreases 8 - depth,
    {
        let next = expand_frontier(&frontier, puzzle, table, masks);
        proof {
            let bases = columns_of(frontier@);
            let listed = columns_of(next@);
            assert forall|n: int| 0 <= n < listed.len() implies admissible_at(
                *puzzle,
                depth + 1,
            )(#[trigger] listed[n]) by {
                let v = listed[n];
                assert(grows_from(*puzzle, bases)(v));
                let k = choose|k: int| 0 <= k < bases.len() && bases[k] == v.drop_last();
                assert(admissible_at(*puzzle, depth as int)(bases[k]));
                assert forall|x: int| 0 <= x < v.len() implies fits_column(
                    *puzzle,
                    x,
                    #[trigger] v[x],
                ) by {
                    if x < v.len() - 1 {
                        assert(v[x] == v.drop_last()[x]);
                    }
                }
            }
            assert forall|v: Seq<[bool; 8]>|
                admissible_at(*puzzle, depth + 1)(v) implies #[trigger] listed.contains(v) by {
                lemma_admissible_prefix(*puzzle, v);
                assert(admissible_at(*puzzle, depth as int)(v.drop_last()));
                assert(bases.contains(v.drop_last()));
                assert(grows_from(*puzzle, bases)(v));
            }
            if unhindered(*puzzle) {
                assert(all_of_depth(bases, depth as int)) by {
                    assert forall|i: int| 0 <= i < bases.len() implies (#[trigger] bases[i]).len()
                        == depth by {
                        assert(admissible_at(*puzzle, depth as int)(bases[i]));
                    }
                }
            }
        }
        frontier = next;
        depth = depth + 1;
    }
    frontier
}

} // verus!

//! The whole pipeline: the search, then the three filters, and what holds of
//! the boards that come out.

use crate::contiguity::{board_is_contiguous, joined, single_region};
use crate::dead_ends::{
    all_dead_ends_hold_monsters, dead_end_at, dead_ends_hold_monsters, monsters_in_dead_ends,
    monsters_sit_in_dead_ends, open_at,
};
use crate::fixed::{board_columns, Board};
use crate::grid::open_cells;
use crate::listing::{lemma_listing_determined, lists_exactly};
use crate::perms::PermutationTable;
use crate::puzzle::{total, ParsedBoard};
use crate::rows::RowMasks;
use crate::search::{
    admissible, admissible_at, columns_of, fits_column, lemma_walls_counted_twice,
    lemma_walls_of_columns, prefix_total, row_walls, search, special_at,
};
use vstd::prelude::*;

verus! {

/// Turns a condition on the columns of a board into one on the board.
pub open spec fn on_columns(condition: spec_fn(Seq<[bool; 8]>) -> bool) -> spec_fn(Board) -> bool {
    |board: Board| condition(board_columns(board))
}

/// Accepts the boards whose open cells form a single region.
pub open spec fn one_region() -> spec_fn(Seq<[bool; 8]>) -> bool {
    |cols: Seq<[bool; 8]>| single_region(open_cells(cols))
}

/// Accepts the boards in which every monster has exactly one open neighbor.
pub open spec fn monsters_cornered(puzzle: ParsedBoard) -> spec_fn(Seq<[bool; 8]>) -> bool {
    |cols: Seq<[bool; 8]>| monsters_sit_in_dead_ends(puzzle, open_cells(cols))
}

/// Accepts the boards in which every dead end holds a monster.
pub open spec fn dead_ends_taken(puzzle: ParsedBoard) -> spec_fn(Seq<[bool; 8]>) -> bool {
    |cols: Seq<[bool; 8]>| dead_ends_hold_monsters(puzzle, open_cells(cols))
}

/// Accepts the solutions of a puzzle: the complete boards in which every
/// column holds the number of walls asked of it, no row holds more walls
/// than asked of it, no wall stands on a monster or a treasure, the open
/// cells form a single region, and the dead ends are exactly the cells that
/// hold a monster.
pub open spec fn is_solution(puzzle: ParsedBoard) -> spec_fn(Seq<[bool; 8]>) -> bool {
    |cols: Seq<[bool; 8]>|
        {
            &&& cols.len() == 8
            &&& admissible(puzzle, cols)
            &&& single_region(open_cells(cols))
            &&& monsters_sit_in_dead_ends(puzzle, open_cells(cols))
            &&& dead_ends_hold_monsters(puzzle, open_cells(cols))
        }
}

/// The boards whose open cells form a single region, in the order given.
pub fn keep_contiguous(boards: &Vec<Board>) -> (kept: Vec<Board>)
    ensures
        kept@ == boards@.filter(on_columns(one_region())),
{
    let ghost wanted = on_columns(one_region());
    let mut kept: Vec<Board> = Vec::new();
    let mut i: usize = 0;
    proof {
        boards@.take(0).lemma_filter_len(wanted);
        assert(kept@ =~= boards@.take(0).filter(wanted));
    }
    while i < boards.len()
        invariant
            i <= boards.len(),
            wanted == on_columns(one_region()),
            kept@ == boards@.take(i as int).filter(wanted),
        decreases boards.len() - i,
    {
        let board = boards[i];
        proof {
            assert(boards@.take(i + 1) =~= boards@.take(i as int).push(board));
            boards@.take(i as int).lemma_filter_push(board, wanted);
        }
        if board_is_contiguous(&board) {
            kept.push(board);
        }
        i = i + 1;
    }
    assert(boards@.take(i as int) =~= boards@);
    kept
}

/// The boards in which every monster has exactly one open neighbor, in the
/// order given.
pub fn keep_monsters_in_dead_ends(boards: &Vec<Board>, puzzle: &ParsedBoard) -> (kept: Vec<Board>)
    ensures
        kept@ == boards@.filter(on_columns(monsters_cornered(*puzzle))),
{
    let ghost wanted = on_columns(monsters_cornered(*puzzle));
    let mut kept: Vec<Board> = Vec::new();
    let mut i: usize = 0;
    proof {
        boards@.take(0).lemma_filter_len(wanted);
        assert(kept@ =~= boards@.take(0).filter(wanted));
    }
    while i < boards.len()
        invariant
            i <= boards.len(),
            wanted == on_columns(monsters_cornered(*puzzle)),
            kept@ == boards@.take(i as int).filter(wanted),
        decreases boards.len() - i,
    {
        let board = boards[i];
        proof {
            assert(boards@.take(i + 1) =~= boards@.take(i as int).push(board));
            boards@.take(i as int).lemma_filter_push(board, wanted);
        }
        if monsters_in_dead_ends(&board, puzzle) {
            kept.push(board);
        }
        i = i + 1;
    }
    assert(boards@.take(i as int) =~= boards@);
    kept
}

/// The boards in which every dead end holds a monster, in the order given.
pub fn keep_dead_ends_with_monsters(boards: &Vec<Board>, puzzle: &ParsedBoard) -> (kept: Vec<Board>)
    ensures
        kept@ == boards@.filter(on_columns(dead_ends_taken(*puzzle))),
{
    let ghost wanted = on_columns(dead_ends_taken(*puzzle));
    let mut kept: Vec<Board> = Vec::new();
    let mut i: usize = 0;
    proof {
        boards@.take(0).lemma_filter_len(wanted);
        assert(kept@ =~= boards@.take(0).filter(wanted));
    }
    while i < boards.len()
        invariant
            i <= boards.len(),
            wanted == on_columns(dead_ends_taken(*puzzle)),
            kept@ == boards@.take(i as int).filter(wanted),
        decreases boards.len() - i,
    {
        let board = boards[i];
        proof {
            assert(boards@.take(i + 1) =~= boards@.take(i as int).push(board));
            boards@.take(i as int).lemma_filter_push(board, wanted);
        }
        if all_dead_ends_hold_monsters(&board, puzzle) {
            kept.push(board);
        }
        i = i + 1;
    }
    assert(boards@.take(i as int) =~= boards@);
    kept
}

/// Filtering boards by a condition on their columns keeps boards with
/// different columns different.
pub proof fn lemma_filter_keeps_distinct(
    boards: Seq<Board>,
    condition: spec_fn(Seq<[bool; 8]>) -> bool,
)
    requires
        columns_of(boards).no_duplicates(),
    ensures
        columns_of(boards.filter(on_columns(condition))).no_duplicates(),
    decreases boards.len(),
{
    let keep = on_columns(condition);
    let kept = boards.filter(keep);
    if boards.len() == 0 {
        boards.lemma_filter_len(keep);
    } else {
        let rest = boards.drop_last();
        let last = boards.last();
        assert(boards =~= rest.push(last));
        rest.lemma_filter_push(last, keep);
        assert forall|i: int, j: int|
            0 <= i < rest.len() && 0 <= j < rest.len() && i != j implies columns_of(rest)[i]
            != columns_of(rest)[j] by {
            assert(columns_of(boards)[i] != columns_of(boards)[j]);
        }
        lemma_filter_keeps_distinct(rest, condition);
        let shorter = rest.filter(keep);
        if keep(last) {
            assert forall|i: int, j: int|
                0 <= i < kept.len() && 0 <= j < kept.len() && i != j implies columns_of(kept)[i]
                != columns_of(kept)[j] by {
                if i < shorter.len() && j < shorter.len() {
                    assert(columns_of(shorter)[i] != columns_of(shorter)[j]);
                } else {
                    let o = if i < shorter.len() {
                        i
                    } else {
                        j
                    };
                    assert(shorter.contains(shorter[o]));
                    rest.lemma_filter_contains_rev(keep, shorter[o]);
                    let k = choose|k: int| 0 <= k < rest.len() && rest[k] == shorter[o];
                    assert(columns_of(boards)[k] != columns_of(boards)[boards.len() - 1]);
                }
            }
        }
    }
}

/// Accepts what both conditions accept.
pub open spec fn both_hold(
    first: spec_fn(Seq<[bool; 8]>) -> bool,
    second: spec_fn(Seq<[bool; 8]>) -> bool,
) -> spec_fn(Seq<[bool; 8]>) -> bool {
    |cols: Seq<[bool; 8]>| first(cols) && second(cols)
}

/// Filtering an enumeration by a further condition enumerates the boards
/// that meet both conditions.
pub proof fn lemma_filter_listing(
    boards: Seq<Board>,
    wanted: spec_fn(Seq<[bool; 8]>) -> bool,
    condition: spec_fn(Seq<[bool; 8]>) -> bool,
)
    requires
        lists_exactly(columns_of(boards), wanted),
    ensures
        lists_exactly(
            columns_of(boards.filter(on_columns(condition))),
            both_hold(wanted, condition),
        ),
{
    let keep = on_columns(condition);
    let both = both_hold(wanted, condition);
    let kept = boards.filter(keep);
    let listed = columns_of(kept);
    assert forall|i: int| 0 <= i < listed.len() implies both(#[trigger] listed[i]) by {
        boards.lemma_filter_pred(keep, i);
        assert(kept.contains(kept[i]));
        boards.lemma_filter_contains_rev(keep, kept[i]);
        let k = choose|k: int| 0 <= k < boards.len() && boards[k] == kept[i];
        assert(columns_of(boards)[k] == listed[i]);
    }
    assert forall|v: Seq<[bool; 8]>| both(v) implies #[trigger] listed.contains(v) by {
        assert(columns_of(boards).contains(v));
        let k = choose|k: int| 0 <= k < boards.len() && columns_of(boards)[k] == v;
        boards.lemma_filter_contains(keep, k);
        let i = choose|i: int| 0 <= i < kept.len() && kept[i] == boards[k];
        assert(listed[i] == v);
    }
    lemma_filter_keeps_distinct(boards, condition);
}

/// What the pipeline hands back: the solutions, and how many boards were
/// left after each stage before the last.
pub struct Solved {
    /// The solutions, each once.
    pub solutions: Vec<Board>,
    /// The number of boards that the search found.
    pub found: usize,
    /// The number of those whose open cells form a single region.
    pub contiguous: usize,
    /// The number of those in which every monster has exactly one open
    /// neighbor.
    pub with_monsters_in_dead_ends: usize,
}

/// Whether `out` is what the pipeline makes of the boards `found`.
pub open spec fn is_run_on(puzzle: ParsedBoard, found: Seq<Board>, out: Solved) -> bool {
    let contiguous = found.filter(on_columns(one_region()));
    let cornered = contiguous.filter(on_columns(monsters_cornered(puzzle)));
    &&& lists_exactly(columns_of(found), admissible_at(puzzle, 8))
    &&& out.found == found.len()
    &&& out.contiguous == contiguous.len()
    &&& out.with_monsters_in_dead_ends == cornered.len()
    &&& out.solutions@ == cornered.filter(on_columns(dead_ends_taken(puzzle)))
}

/// Solves a puzzle: searches the boards that meet the wall counts, keeps
/// those whose open cells form a single region, of these the ones in which
/// every monster has exactly one open neighbor, and of these the ones in
/// which every dead end holds a monster. The result lists every solution
/// exactly once; a puzzle without a solution gives an empty list.
pub fn solve(puzzle: &ParsedBoard, table: &PermutationTable, masks: &RowMasks) -> (out: Solved)
    ensures
        lists_exactly(columns_of(out.solutions@), is_solution(*puzzle)),
        exists|found: Seq<Board>| #[trigger] is_run_on(*puzzle, found, out),
{
    let found = search(puzzle, table, masks);
    let contiguous = keep_contiguous(&found);
    let with_monsters_in_dead_ends = keep_monsters_in_dead_ends(&contiguous, puzzle);
    let solutions = keep_dead_ends_with_monsters(&with_monsters_in_dead_ends, puzzle);
    let out = Solved {
        solutions,
        found: found.len(),
        contiguous: contiguous.len(),
        with_monsters_in_dead_ends: with_monsters_in_dead_ends.len(),
    };
    proof {
        let first = admissible_at(*puzzle, 8);
        let second = both_hold(first, one_region());
        let third = both_hold(second, monsters_cornered(*puzzle));
        let fourth = both_hold(third, dead_ends_taken(*puzzle));
        lemma_filter_listing(found@, first, one_region());
        lemma_filter_listing(contiguous@, second, monsters_cornered(*puzzle));
        lemma_filter_listing(with_monsters_in_dead_ends@, third, dead_ends_taken(*puzzle));
        let listed = columns_of(out.solutions@);
        assert(lists_exactly(listed, fourth));
        assert forall|i: int| 0 <= i < listed.len() implies is_solution(*puzzle)(
            #[trigger] listed[i],
        ) by {
            assert(fourth(listed[i]));
        }
        assert forall|v: Seq<[bool; 8]>| is_solution(*puzzle)(v) implies #[trigger] listed.contains(
            v,
        ) by {
            assert(fourth(v));
        }
        assert(is_run_on(*puzzle, found@, out));
    }
    out
}

/// In a complete board that meets the column counts and keeps every row
/// within its count, every row holds exactly the number of walls asked of
/// it, provided that the column counts add up to no less than the row
/// counts.
pub proof fn lemma_rows_are_filled(puzzle: ParsedBoard, cols: Seq<[bool; 8]>, y: int)
    requires
        cols.len() == 8,
        admissible(puzzle, cols),
        total(puzzle.col_constraints) >= total(puzzle.row_constraints),
        0 <= y < 8,
    ensures
        row_walls(cols, y) == puzzle.row_constraints[y],
{
    lemma_walls_counted_twice(cols);
    lemma_walls_of_columns(puzzle, cols);
    assert(prefix_total(puzzle.col_constraints, 8) == total(puzzle.col_constraints)) by {
        reveal_with_fuel(prefix_total, 9);
    }
    assert(row_walls(cols, 0) <= puzzle.row_constraints[0]);
    assert(row_walls(cols, 1) <= puzzle.row_constraints[1]);
    assert(row_walls(cols, 2) <= puzzle.row_constraints[2]);
    assert(row_walls(cols, 3) <= puzzle.row_constraints[3]);
    assert(row_walls(cols, 4) <= puzzle.row_constraints[4]);
    assert(row_walls(cols, 5) <= puzzle.row_constraints[5]);
    assert(row_walls(cols, 6) <= puzzle.row_constraints[6]);
    assert(row_walls(cols, 7) <= puzzle.row_constraints[7]);
}

/// Where the column counts add up to more than the row counts, no complete
/// board meets the column counts and keeps every row within its count: the
/// search finds nothing.
pub proof fn lemma_overfull_finds_nothing(puzzle: ParsedBoard, found: Seq<Board>)
    requires
        lists_exactly(columns_of(found), admissible_at(puzzle, 8)),
        total(puzzle.col_constraints) > total(puzzle.row_constraints),
    ensures
        found.len() == 0,
{
    if found.len() > 0 {
        let cols = columns_of(found)[0];
        assert(admissible_at(puzzle, 8)(cols));
        lemma_rows_are_filled(puzzle, cols, 0);
        lemma_rows_are_filled(puzzle, cols, 1);
        lemma_rows_are_filled(puzzle, cols, 2);
        lemma_rows_are_filled(puzzle, cols, 3);
        lemma_rows_are_filled(puzzle, cols, 4);
        lemma_rows_are_filled(puzzle, cols, 5);
        lemma_rows_are_filled(puzzle, cols, 6);
        lemma_rows_are_filled(puzzle, cols, 7);
        lemma_walls_counted_twice(cols);
        lemma_walls_of_columns(puzzle, cols);
        assert(prefix_total(puzzle.col_constraints, 8) == total(puzzle.col_constraints)) by {
            reveal_with_fuel(prefix_total, 9);
        }
    }
}

/// In a solution every row holds exactly the number of walls asked of it,
/// provided that the column counts add up to no less than the row counts.
pub proof fn lemma_solution_fills_rows(puzzle: ParsedBoard, cols: Seq<[bool; 8]>, y: int)
    requires
        is_solution(puzzle)(cols),
        total(puzzle.col_constraints) >= total(puzzle.row_constraints),
        0 <= y < 8,
    ensures
        row_walls(cols, y) == puzzle.row_constraints[y],
{
    lemma_rows_are_filled(puzzle, cols, y);
}

/// In a solution the open cells form a single region: every open cell can
/// be reached from every other. A solution with an open cell has exactly one
/// region, that of this cell; a solution without one has none.
pub proof fn lemma_solution_is_one_region(puzzle: ParsedBoard, cols: Seq<[bool; 8]>, a: int)
    requires
        is_solution(puzzle)(cols),
    ensures
        single_region(open_cells(cols)),
        open_cells(cols).contains(a) ==> forall|b: int|
            open_cells(cols).contains(b) ==> #[trigger] joined(open_cells(cols), a, b),
{
}

/// In a solution the cells that hold a monster are exactly the dead ends.
pub proof fn lemma_monsters_are_the_dead_ends(
    puzzle: ParsedBoard,
    cols: Seq<[bool; 8]>,
    x: int,
    y: int,
)
    requires
        is_solution(puzzle)(cols),
    ensures
        puzzle.monster_at(x, y) == dead_end_at(open_cells(cols), x, y),
{
    if puzzle.monster_at(x, y) {
        assert(fits_column(puzzle, x, cols[x]));
        assert(special_at(puzzle, x, y));
        assert((x * 8 + y) / 8 == x && (x * 8 + y) % 8 == y);
        assert(open_at(open_cells(cols), x, y));
    }
}

/// Two runs of the pipeline on one puzzle hand back the same set of
/// solutions, and as many of them, in whatever order each run lists them.
pub proof fn lemma_solutions_are_determined(
    puzzle: ParsedBoard,
    first: Seq<Board>,
    second: Seq<Board>,
)
    requires
        lists_exactly(columns_of(first), is_solution(puzzle)),
        lists_exactly(columns_of(second), is_solution(puzzle)),
    ensures
        columns_of(first).to_set() == columns_of(second).to_set(),
        first.len() == second.len(),
{
    lemma_listing_determined(columns_of(first), columns_of(second), is_solution(puzzle));
}

/// Two runs of the pipeline on one puzzle count the same number of boards
/// after each stage, in whatever order each run found its boards.
pub proof fn lemma_runs_count_alike(
    puzzle: ParsedBoard,
    first_found: Seq<Board>,
    first: Solved,
    second_found: Seq<Board>,
    second: Solved,
)
    requires
        is_run_on(puzzle, first_found, first),
        is_run_on(puzzle, second_found, second),
    ensures
        first.found == second.found,
        first.contiguous == second.contiguous,
        first.with_monsters_in_dead_ends == second.with_monsters_in_dead_ends,
        first.solutions.len() == second.solutions.len(),
{
    let found = admissible_at(puzzle, 8);
    let contiguous = both_hold(found, one_region());
    let cornered = both_hold(contiguous, monsters_cornered(puzzle));
    let solved = both_hold(cornered, dead_ends_taken(puzzle));
    let a = first_found;
    let a1 = a.filter(on_columns(one_region()));
    let a2 = a1.filter(on_columns(monsters_cornered(puzzle)));
    let a3 = a2.filter(on_columns(dead_ends_taken(puzzle)));
    let b = second_found;
    let b1 = b.filter(on_columns(one_region()));
    let b2 = b1.filter(on_columns(monsters_cornered(puzzle)));
    let b3 = b2.filter(on_columns(dead_ends_taken(puzzle)));
    lemma_filter_listing(a, found, one_region());
    lemma_filter_listing(a1, contiguous, monsters_cornered(puzzle));
    lemma_filter_listing(a2, cornered, dead_ends_taken(puzzle));
    lemma_filter_listing(b, found, one_region());
    lemma_filter_listing(b1, contiguous, monsters_cornered(puzzle));
    lemma_filter_listing(b2, cornered, dead_ends_taken(puzzle));
    lemma_listing_determined(columns_of(a), columns_of(b), found);
    lemma_listing_determined(columns_of(a1), columns_of(b1), contiguous);
    lemma_listing_determined(columns_of(a2), columns_of(b2), cornered);
    lemma_listing_determined(columns_of(a3), columns_of(b3), solved);
}

} // verus!

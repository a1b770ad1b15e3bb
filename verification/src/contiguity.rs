//! Whether the open cells of a board form a single region.
//!
//! Two cells are adjacent when they lie one step apart along exactly one
//! axis. A region is a set of open cells in which every cell can be reached
//! from every other by steps between adjacent open cells.

use crate::bits::{
    bit, get_bit, lemma_same_bits, lemma_with_bit, lemma_zero_has_no_bit, set_bit, with_bit,
};
use crate::fixed::{
    board_columns, board_len, stack_cells, stack_new, stack_pop, stack_push, Board,
};
use crate::grid::{
    board_bits, cell_if_in_grid, in_grid, lemma_last_open_cell, lemma_packed_open_cells,
    neighbors, neighbors_of, open_cells, open_cells_of_bits, wall_cell,
};
use vstd::prelude::*;
use vstd::set_lib::{lemma_int_range, lemma_len_subset, set_int_range};

verus! {

/// Whether the cells with indices `a` and `b` lie one step apart along
/// exactly one axis.
pub open spec fn adjacent(a: int, b: int) -> bool {
    &&& 0 <= a < 64
    &&& 0 <= b < 64
    &&& ((a / 8 == b / 8 && (a - b == 1 || b - a == 1)) || (a % 8 == b % 8 && (a - b == 8 || b
        - a == 8)))
}

/// Whether a path steps to an adjacent cell at position `i`.
pub open spec fn step_ok(path: Seq<int>, i: int) -> bool {
    adjacent(path[i], path[i + 1])
}

/// Whether a path stays within `open` and steps from each of its cells to an
/// adjacent one.
pub open spec fn is_walk(open: Set<int>, path: Seq<int>) -> bool {
    &&& path.len() > 0
    &&& forall|i: int| 0 <= i < path.len() ==> open.contains(#[trigger] path[i])
    &&& forall|i: int| 0 <= i < path.len() - 1 ==> #[trigger] step_ok(path, i)
}

/// Whether a path from `a` to `b` is a walk within `open`.
pub open spec fn walks(open: Set<int>, path: Seq<int>, a: int, b: int) -> bool {
    is_walk(open, path) && path[0] == a && path.last() == b
}

/// Whether `b` can be reached from `a` by steps between adjacent cells of
/// `open`.
pub open spec fn joined(open: Set<int>, a: int, b: int) -> bool {
    exists|path: Seq<int>| #[trigger] walks(open, path, a, b)
}

/// Whether the cells of `open` form at most one region: each of them can be
/// reached from each other. A set without cells is a single region.
pub open spec fn single_region(open: Set<int>) -> bool {
    forall|a: int, b: int| open.contains(a) && open.contains(b) ==> #[trigger] joined(open, a, b)
}

/// Every cell of `open` is joined to itself.
pub proof fn lemma_joined_self(open: Set<int>, a: int)
    requires
        open.contains(a),
    ensures
        joined(open, a, a),
{
    let path = seq![a];
    assert(walks(open, path, a, a));
}

/// A walk can be carried on by one step to an adjacent cell of `open`.
pub proof fn lemma_joined_step(open: Set<int>, a: int, b: int, c: int)
    requires
        joined(open, a, b),
        adjacent(b, c),
        open.contains(c),
    ensures
        joined(open, a, c),
{
    let path = choose|path: Seq<int>| #[trigger] walks(open, path, a, b);
    let longer = path.push(c);
    assert forall|i: int| 0 <= i < longer.len() - 1 implies #[trigger] step_ok(longer, i) by {
        if i < path.len() - 1 {
            assert(step_ok(path, i));
        }
    }
    assert(walks(open, longer, a, c));
}

/// A walk can be walked backwards.
pub proof fn lemma_joined_symmetric(open: Set<int>, a: int, b: int)
    requires
        joined(open, a, b),
    ensures
        joined(open, b, a),
{
    let path = choose|path: Seq<int>| #[trigger] walks(open, path, a, b);
    let n = path.len() as int;
    let back = Seq::new(path.len(), |i: int| path[n - 1 - i]);
    assert forall|i: int| 0 <= i < back.len() - 1 implies #[trigger] step_ok(back, i) by {
        assert(step_ok(path, n - 2 - i));
    }
    assert(walks(open, back, b, a));
}

/// Two walks that meet make one walk.
pub proof fn lemma_joined_transitive(open: Set<int>, a: int, b: int, c: int)
    requires
        joined(open, a, b),
        joined(open, b, c),
    ensures
        joined(open, a, c),
{
    let first = choose|path: Seq<int>| #[trigger] walks(open, path, a, b);
    let second = choose|path: Seq<int>| #[trigger] walks(open, path, b, c);
    let n = first.len() as int;
    let whole = first + second.subrange(1, second.len() as int);
    assert forall|i: int| 0 <= i < whole.len() implies open.contains(#[trigger] whole[i]) by {
        if i >= n {
            assert(whole[i] == second[i - n + 1]);
        }
    }
    assert forall|i: int| 0 <= i < whole.len() - 1 implies #[trigger] step_ok(whole, i) by {
        if i < n - 1 {
            assert(step_ok(first, i));
        } else {
            assert(step_ok(second, i - n + 1));
        }
    }
    assert(walks(open, whole, a, c));
}

/// A set that holds the first cell of a walk, and with each of its cells the
/// adjacent cells of `open`, holds every cell of the walk.
pub proof fn lemma_closed_set_holds_walk(open: Set<int>, held: Set<int>, path: Seq<int>, i: int)
    requires
        is_walk(open, path),
        held.contains(path[0]),
        forall|a: int, b: int|
            held.contains(a) && #[trigger] adjacent(a, b) && open.contains(b) ==> held.contains(b),
        0 <= i < path.len(),
    ensures
        held.contains(path[i]),
    decreases i,
{
    if i > 0 {
        lemma_closed_set_holds_walk(open, held, path, i - 1);
        assert(step_ok(path, i - 1));
        assert(open.contains(path[i]));
    }
}

/// Where `start` is a cell of `open`, the cells of `open` form a single
/// region exactly if each of them is joined to `start`.
pub proof fn lemma_single_region_from(open: Set<int>, start: int)
    requires
        open.contains(start),
    ensures
        single_region(open) == (forall|c: int|
            open.contains(c) ==> #[trigger] joined(open, start, c)),
{
    if forall|c: int| open.contains(c) ==> #[trigger] joined(open, start, c) {
        assert forall|a: int, b: int|
            open.contains(a) && open.contains(b) implies #[trigger] joined(open, a, b) by {
            assert(joined(open, start, a));
            assert(joined(open, start, b));
            lemma_joined_symmetric(open, start, a);
            lemma_joined_transitive(open, a, start, b);
        }
    }
}

/// The index of the cell `(x, y)`.
pub open spec fn cell_index(pos: (usize, usize)) -> int {
    pos.0 * 8 + pos.1
}

/// Each neighbor of a cell of the grid is a cell of the grid adjacent to it.
pub proof fn lemma_neighbors_adjacent(x: int, y: int, k: int)
    requires
        in_grid(x, y),
        0 <= k < neighbors_of(x, y).len(),
    ensures
        in_grid(neighbors_of(x, y)[k].0 as int, neighbors_of(x, y)[k].1 as int),
        adjacent(x * 8 + y, cell_index(neighbors_of(x, y)[k])),
{
    let a = cell_if_in_grid(x - 1, y);
    let b = cell_if_in_grid(x + 1, y);
    let c = cell_if_in_grid(x, y - 1);
    let d = cell_if_in_grid(x, y + 1);
    let all = neighbors_of(x, y);
    assert(all == a + b + c + d);
    if k < a.len() {
        assert(all[k] == a[k]);
    } else if k < a.len() + b.len() {
        assert(all[k] == b[k - a.len()]);
    } else if k < a.len() + b.len() + c.len() {
        assert(all[k] == c[k - a.len() - b.len()]);
    } else {
        assert(all[k] == d[k - a.len() - b.len() - c.len()]);
    }
}

/// Each cell adjacent to a cell of the grid is among its neighbors.
pub proof fn lemma_neighbors_complete(x: int, y: int, other: int)
    requires
        in_grid(x, y),
        adjacent(x * 8 + y, other),
    ensures
        exists|k: int|
            0 <= k < neighbors_of(x, y).len() && cell_index(#[trigger] neighbors_of(x, y)[k])
                == other,
{
    let a = cell_if_in_grid(x - 1, y);
    let b = cell_if_in_grid(x + 1, y);
    let c = cell_if_in_grid(x, y - 1);
    let d = cell_if_in_grid(x, y + 1);
    let all = neighbors_of(x, y);
    assert(all == a + b + c + d);
    let here = x * 8 + y;
    if other == here - 8 {
        assert(all[0] == a[0]);
        assert(cell_index(all[0]) == other);
    } else if other == here + 8 {
        let k = a.len() as int;
        assert(all[k] == b[0]);
        assert(cell_index(all[k]) == other);
    } else if other == here - 1 {
        let k = (a.len() + b.len()) as int;
        assert(all[k] == c[0]);
        assert(cell_index(all[k]) == other);
    } else {
        let k = (a.len() + b.len() + c.len()) as int;
        assert(all[k] == d[0]);
        assert(cell_index(all[k]) == other);
    }
}

/// Whether the cell with index `a` is among the cells of a stack.
pub open spec fn waits(stack: Seq<usize>, a: int) -> bool {
    exists|i: int| 0 <= i < stack.len() && #[trigger] stack[i] == a
}

/// What holds of a traversal between two of its steps. `seen` marks the
/// cells found so far, `stack` holds those that wait to be visited, and
/// `busy` is the cell whose neighbors are being looked at, or -1 between two
/// visits:
/// the start is marked; every marked cell can be reached from the start;
/// every waiting cell is marked; and every marked cell that neither waits
/// nor is busy has all its open neighbors marked.
pub open spec fn traversal_holds(
    open: Set<int>,
    start: int,
    seen: u64,
    stack: Seq<usize>,
    busy: int,
) -> bool {
    &&& bit(seen, start)
    &&& forall|c: int| bit(seen, c) ==> #[trigger] joined(open.insert(start), start, c)
    &&& forall|i: int| 0 <= i < stack.len() ==> bit(seen, #[trigger] stack[i] as int)
    &&& forall|a: int, b: int|
        bit(seen, a) && a != busy && !waits(stack, a) && #[trigger] adjacent(a, b)
            && open.contains(b) ==> bit(seen, b)
}

/// A traversal starts with its first cell marked and waiting.
pub proof fn lemma_traversal_starts(open: Set<int>, start: int)
    requires
        0 <= start < 64,
    ensures
        traversal_holds(open, start, with_bit(0, start), seq![start as usize], -1),
{
    let seen = with_bit(0, start);
    let stack = seq![start as usize];
    assert forall|c: int| bit(seen, c) == (c == start) by {
        lemma_zero_has_no_bit(c);
        lemma_with_bit(0, start, c);
    }
    lemma_joined_self(open.insert(start), start);
    assert(stack[0] == start);
}

/// Taking the last waiting cell off the stack makes it the busy one.
pub proof fn lemma_traversal_visits(open: Set<int>, start: int, seen: u64, stack: Seq<usize>)
    requires
        traversal_holds(open, start, seen, stack, -1),
        stack.len() > 0,
    ensures
        traversal_holds(open, start, seen, stack.drop_last(), stack.last() as int),
        bit(seen, stack.last() as int),
{
    let rest = stack.drop_last();
    let cell = stack.last() as int;
    assert forall|a: int, b: int|
        bit(seen, a) && a != cell && !waits(rest, a) && #[trigger] adjacent(a, b) && open.contains(
            b,
        ) implies bit(seen, b) by {
        if waits(stack, a) {
            let i = choose|i: int| 0 <= i < stack.len() && stack[i] == a;
            assert(rest[i] == a);
        }
    }
    assert forall|i: int| 0 <= i < rest.len() implies bit(seen, #[trigger] rest[i] as int) by {
        assert(rest[i] == stack[i]);
    }
}

/// An open neighbor of the busy cell that is not marked yet may be marked
/// and made to wait.
pub proof fn lemma_traversal_finds(
    open: Set<int>,
    start: int,
    seen: u64,
    stack: Seq<usize>,
    busy: int,
    found: int,
)
    requires
        traversal_holds(open, start, seen, stack, busy),
        bit(seen, busy),
        adjacent(busy, found),
        open.contains(found),
        !bit(seen, found),
    ensures
        traversal_holds(open, start, with_bit(seen, found), stack.push(found as usize), busy),
{
    let ground = open.insert(start);
    let marked = with_bit(seen, found);
    let longer = stack.push(found as usize);
    assert forall|c: int| bit(marked, c) == (c == found || bit(seen, c)) by {
        lemma_with_bit(seen, found, c);
    }
    assert forall|c: int| bit(marked, c) implies #[trigger] joined(ground, start, c) by {
        if c == found {
            lemma_joined_step(ground, start, busy, found);
        }
    }
    assert forall|i: int| 0 <= i < longer.len() implies bit(
        marked,
        #[trigger] longer[i] as int,
    ) by {
        if i < stack.len() {
            assert(longer[i] == stack[i]);
        }
    }
    assert forall|a: int, b: int|
        bit(marked, a) && a != busy && !waits(longer, a) && #[trigger] adjacent(a, b)
            && open.contains(b) implies bit(marked, b) by {
        if a == found {
            assert(longer[stack.len() as int] == found);
        } else if waits(stack, a) {
            let i = choose|i: int| 0 <= i < stack.len() && stack[i] == a;
            assert(longer[i] == a);
        }
    }
}

/// Once all open neighbors of the busy cell are marked, no cell is busy.
pub proof fn lemma_traversal_leaves(
    open: Set<int>,
    start: int,
    seen: u64,
    stack: Seq<usize>,
    busy: int,
)
    requires
        traversal_holds(open, start, seen, stack, busy),
        forall|b: int| #[trigger] adjacent(busy, b) && open.contains(b) ==> bit(seen, b),
    ensures
        traversal_holds(open, start, seen, stack, -1),
{
}

/// When no cell waits any more, the marked cells are exactly those that can
/// be reached from the start.
pub proof fn lemma_traversal_ends(open: Set<int>, start: int, seen: u64, c: int)
    requires
        traversal_holds(open, start, seen, Seq::empty(), -1),
    ensures
        bit(seen, c) == joined(open.insert(start), start, c),
{
    let ground = open.insert(start);
    if joined(ground, start, c) {
        let held = Set::new(|a: int| bit(seen, a));
        let path = choose|path: Seq<int>| #[trigger] walks(ground, path, start, c);
        assert forall|a: int, b: int|
            held.contains(a) && #[trigger] adjacent(a, b) && ground.contains(b)
            implies held.contains(b) by {
            assert(!waits(Seq::<usize>::empty(), a));
            if b != start {
                assert(open.contains(b));
            }
        }
        lemma_closed_set_holds_walk(ground, held, path, path.len() - 1);
    }
}

/// The cells that are open and have not been found are none exactly if the
/// walls are all that has not been found among the open cells.
pub proof fn lemma_found_spaces(board_bits: u64, seen: u64)
    ensures
        (!(seen & !board_bits) == board_bits) == (forall|c: int|
            0 <= c < 64 && !bit(board_bits, c) ==> bit(seen, c)),
{
    let found_spaces_bits: u64 = seen & !board_bits;
    assert forall|c: int| 0 <= c < 64 implies bit(!found_spaces_bits, c) == (bit(board_bits, c)
        || !bit(seen, c)) by {
        let k: u64 = c as u64;
        assert((!(seen & !board_bits) & (1u64 << k) != 0) == ((board_bits & (1u64 << k) != 0) || !(
        seen & (1u64 << k) != 0))) by (bit_vector)
            requires
                k < 64,
        ;
    }
    if forall|c: int| 0 <= c < 64 && !bit(board_bits, c) ==> bit(seen, c) {
        lemma_same_bits(!found_spaces_bits, board_bits);
    }
    if !found_spaces_bits == board_bits {
        assert forall|c: int| 0 <= c < 64 && !bit(board_bits, c) implies bit(seen, c) by {
            assert(bit(!found_spaces_bits, c) == bit(board_bits, c));
        }
    }
}

/// Whether every cell without a wall can be reached from `any_open_cell` by
/// steps between adjacent cells without a wall. `board_bits` is a packed
/// board: bit `x * 8 + y` is set where the cell `(x, y)` holds a wall.
///
/// Where `any_open_cell` holds no wall, this says whether the open cells
/// form a single region. Where it does hold a wall, the traversal still
/// starts there, as if that one cell were open.
///
/// The traversal keeps the cells that wait to be visited on a stack of 64
/// places. A cell is marked as seen when it is pushed, so that none is
/// pushed twice and the stack cannot run over.
pub fn is_contiguous(board_bits: u64, any_open_cell: usize) -> (r: bool)
    requires
        any_open_cell < 64,
    ensures
        r == (forall|c: int|
            open_cells_of_bits(board_bits).contains(c) ==> #[trigger] joined(
                open_cells_of_bits(board_bits).insert(any_open_cell as int),
                any_open_cell as int,
                c,
            )),
        !bit(board_bits, any_open_cell as int) ==> r == single_region(
            open_cells_of_bits(board_bits),
        ),
{
    let ghost open = open_cells_of_bits(board_bits);
    let ghost start = any_open_cell as int;
    let mut seen: u64 = set_bit(0, any_open_cell);
    let mut to_visit = stack_new();
    stack_push(&mut to_visit, any_open_cell);
    // The cells marked in `seen`, as a set, to count them: each was pushed
    // once, and `visited` of them have been taken off the stack again.
    let ghost mut marked: Set<int> = Set::empty().insert(start);
    let ghost mut visited: nat = 0;
    proof {
        lemma_traversal_starts(open, start);
        assert(stack_cells(to_visit) =~= seq![any_open_cell]);
        assert forall|c: int| marked.contains(c) == bit(seen, c) by {
            lemma_zero_has_no_bit(c);
            lemma_with_bit(0, start, c);
        }
    }
    loop
        invariant
            any_open_cell < 64,
            start == any_open_cell,
            open == open_cells_of_bits(board_bits),
            traversal_holds(open, start, seen, stack_cells(to_visit), -1),
            marked.finite(),
            forall|c: int| marked.contains(c) == bit(seen, c),
            marked.len() == stack_cells(to_visit).len() + visited,
        ensures
            stack_cells(to_visit).len() == 0,
        decreases 2 * (64 - marked.len()) + stack_cells(to_visit).len(),
    {
        proof {
            lemma_int_range(0, 64);
            lemma_len_subset(marked, set_int_range(0, 64));
        }
        let ghost waiting = stack_cells(to_visit);
        let ghost measure = 2 * (64 - marked.len()) + waiting.len();
        let top = stack_pop(&mut to_visit);
        let cell = match top {
            Some(cell) => cell,
            None => {
                break ;
            },
        };
        proof {
            visited = visited + 1;
            lemma_traversal_visits(open, start, seen, waiting);
        }
        let x: usize = cell / 8;
        let y: usize = cell % 8;
        let around = neighbors((x, y));
        let mut k: usize = 0;
        while k < around.len()
            invariant
                any_open_cell < 64,
                start == any_open_cell,
                open == open_cells_of_bits(board_bits),
                cell < 64,
                x == cell / 8,
                y == cell % 8,
                around@ == neighbors_of(x as int, y as int),
                k <= around.len(),
                traversal_holds(open, start, seen, stack_cells(to_visit), cell as int),
                bit(seen, cell as int),
                forall|i: int|
                    0 <= i < k && open.contains(cell_index(#[trigger] around[i])) ==> bit(
                        seen,
                        cell_index(around[i]),
                    ),
                marked.finite(),
                forall|c: int| marked.contains(c) == bit(seen, c),
                marked.len() == stack_cells(to_visit).len() + visited,
                marked.len() <= 64,
                2 * (64 - marked.len()) + stack_cells(to_visit).len() < measure,
            decreases around.len() - k,
        {
            let next = around[k];
            proof {
                lemma_neighbors_adjacent(x as int, y as int, k as int);
            }
            let index: usize = next.0 * 8 + next.1;
            if !get_bit(board_bits, index) && !get_bit(seen, index) {
                let ghost seen_before = seen;
                proof {
                    lemma_traversal_finds(
                        open,
                        start,
                        seen,
                        stack_cells(to_visit),
                        cell as int,
                        index as int,
                    );
                    lemma_int_range(0, 64);
                    lemma_len_subset(marked.insert(index as int), set_int_range(0, 64));
                }
                seen = set_bit(seen, index);
                stack_push(&mut to_visit, index);
                proof {
                    marked = marked.insert(index as int);
                    assert forall|c: int| bit(seen, c) == (c == index || bit(seen_before, c)) by {
                        lemma_with_bit(seen_before, index as int, c);
                    }
                }
            }
            k = k + 1;
        }
        proof {
            assert forall|b: int|
                #[trigger] adjacent(cell as int, b) && open.contains(b) implies bit(seen, b) by {
                lemma_neighbors_complete(x as int, y as int, b);
                let i = choose|i: int|
                    0 <= i < neighbors_of(x as int, y as int).len() && cell_index(
                        #[trigger] neighbors_of(x as int, y as int)[i],
                    ) == b;
                assert(cell_index(around[i]) == b);
            }
            lemma_traversal_leaves(open, start, seen, stack_cells(to_visit), cell as int);
        }
    }
    let found_spaces_bits: u64 = seen & !board_bits;
    let r = !found_spaces_bits == board_bits;
    proof {
        assert(stack_cells(to_visit) =~= Seq::empty());
        assert forall|c: int| bit(seen, c) == #[trigger] joined(open.insert(start), start, c) by {
            lemma_traversal_ends(open, start, seen, c);
        }
        lemma_found_spaces(board_bits, seen);
        if r {
            assert forall|c: int| open.contains(c) implies #[trigger] joined(
                open.insert(start),
                start,
                c,
            ) by {
                assert(bit(seen, c));
            }
        } else {
            let c = choose|c: int| 0 <= c < 64 && !bit(board_bits, c) && !bit(seen, c);
            assert(open.contains(c) && !joined(open.insert(start), start, c));
        }
        if !bit(board_bits, start) {
            assert(open.insert(start) =~= open);
            lemma_single_region_from(open, start);
        }
    }
    r
}

/// Whether the cells of a board that hold no wall form a single region. A
/// column that is not placed yet holds no wall; a board without an open
/// cell counts as a single region.
pub fn board_is_contiguous(board: &Board) -> (r: bool)
    ensures
        r == single_region(open_cells(board_columns(*board))),
{
    let ghost cols = board_columns(*board);
    let packed = board_bits(board);
    let placed = board_len(board);
    proof {
        lemma_packed_open_cells(packed.0, cols);
        lemma_last_open_cell(cols, 8 * placed);
    }
    match packed.1 {
        Some(cell) => {
            assert(!wall_cell(cols, cell as int));
            is_contiguous(packed.0, cell)
        },
        None => {
            if placed < 8 {
                let cell: usize = placed * 8;
                assert(!wall_cell(cols, cell as int));
                is_contiguous(packed.0, cell)
            } else {
                let ghost open = open_cells(cols);
                assert forall|a: int, b: int|
                    open.contains(a) && open.contains(b) implies #[trigger] joined(open, a, b) by {
                    assert(wall_cell(cols, a));
                }
                true
            }
        },
    }
}

} // verus!

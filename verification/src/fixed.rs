//! The vectors of fixed capacity of `tinyvec`, as far as this crate uses
//! them: a board is such a vector of up to eight columns, and the traversal
//! of a board keeps the cells that wait on one of up to 64 cells.
//!
//! Nothing here is proved. Each function makes one call into `tinyvec`, and
//! its contract says what that call does to the items held, as the source
//! of `tinyvec` shows it. The two kinds of vector differ in their items
//! only, so the same calls appear once for each.

use tinyvec::ArrayVec;
use vstd::prelude::*;

verus! {

/// `tinyvec::ArrayVec`, a vector of fixed capacity kept in an array.
#[verifier::external_type_specification]
#[verifier::external_body]
#[verifier::reject_recursive_types(A)]
pub struct ExArrayVec<A>(ArrayVec<A>);

/// The columns placed so far, column 0 first. A column is eight cells, row 0
/// first; `true` marks a wall.
pub type Board = ArrayVec<[[bool; 8]; 8]>;

/// The columns that a board holds, in the order in which they were pushed.
pub uninterp spec fn board_columns(board: ArrayVec<[[bool; 8]; 8]>) -> Seq<[bool; 8]>;

/// `ArrayVec::new` of `tinyvec`: a vector that holds nothing.
#[verifier::external_body]
pub(crate) fn board_new() -> (board: Board)
    ensures
        board_columns(board) == Seq::<[bool; 8]>::empty(),
{
    ArrayVec::new()
}

/// `ArrayVec::len` of `tinyvec`: the number of items held, which never
/// exceeds the capacity of the backing array, here 8.
#[verifier::external_body]
pub(crate) fn board_len(board: &Board) -> (n: usize)
    ensures
        n == board_columns(*board).len(),
        n <= 8,
{
    board.len()
}

/// `ArrayVec::push` of `tinyvec`: appends one item. The call panics when the
/// vector is full, which `requires` leaves out.
#[verifier::external_body]
pub(crate) fn board_push(board: &mut Board, column: [bool; 8])
    requires
        board_columns(*old(board)).len() < 8,
    ensures
        board_columns(*final(board)) == board_columns(*old(board)).push(column),
{
    board.push(column)
}

/// Indexing of a `tinyvec::ArrayVec` by position: the item at `x`. The call
/// panics at a position that holds nothing, which `requires` leaves out.
#[verifier::external_body]
pub(crate) fn board_column(board: &Board, x: usize) -> (column: [bool; 8])
    requires
        x < board_columns(*board).len(),
    ensures
        column == board_columns(*board)[x as int],
{
    board[x]
}

/// The cells that wait to be visited, the next one last.
pub type CellStack = ArrayVec<[usize; 64]>;

/// The cells that a stack holds, in the order in which they were pushed.
pub uninterp spec fn stack_cells(stack: ArrayVec<[usize; 64]>) -> Seq<usize>;

/// `ArrayVec::new` of `tinyvec`: a vector that holds nothing.
#[verifier::external_body]
pub(crate) fn stack_new() -> (stack: CellStack)
    ensures
        stack_cells(stack) == Seq::<usize>::empty(),
{
    ArrayVec::new()
}

/// `ArrayVec::push` of `tinyvec`: appends one item. The call panics when the
/// vector is full, here at 64 items, which `requires` leaves out.
#[verifier::external_body]
pub(crate) fn stack_push(stack: &mut CellStack, cell: usize)
    requires
        stack_cells(*old(stack)).len() < 64,
    ensures
        stack_cells(*final(stack)) == stack_cells(*old(stack)).push(cell),
{
    stack.push(cell)
}

/// `ArrayVec::pop` of `tinyvec`: takes the last item off and returns it, or
/// returns `None` and changes nothing where the vector holds no item.
#[verifier::external_body]
pub(crate) fn stack_pop(stack: &mut CellStack) -> (top: Option<usize>)
    ensures
        match top {
            Some(cell) => stack_cells(*old(stack)).len() > 0 && cell == stack_cells(
                *old(stack),
            ).last() && stack_cells(*final(stack)) == stack_cells(*old(stack)).drop_last(),
            None => stack_cells(*old(stack)).len() == 0 && stack_cells(*final(stack))
                == stack_cells(*old(stack)),
        },
{
    stack.pop()
}

} // verus!

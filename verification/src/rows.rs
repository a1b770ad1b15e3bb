//! The row check on a packed board: one mask for each row picks the cells of
//! that row out of the 64 bits, and the walls among them are counted at
//! once.

use crate::bits::{
    bit, bit_count, bits_from, lemma_bit_count_is_bits, lemma_with_bit, lemma_zero_has_no_bit,
    set_bit,
};
use crate::grid::{packs, wall_at, wall_cell};
use crate::perms::ones;
use crate::search::{row_walls, within_rows};
use vstd::prelude::*;

verus! {

/// The number of walls that a packed board marks in row `y`.
pub open spec fn row_bits(bits: u64, y: int) -> int {
    ones(bit(bits, y)) + ones(bit(bits, 8 + y)) + ones(bit(bits, 16 + y)) + ones(bit(bits, 24 + y))
        + ones(bit(bits, 32 + y)) + ones(bit(bits, 40 + y)) + ones(bit(bits, 48 + y)) + ones(
        bit(bits, 56 + y),
    )
}

/// Whether no row of a packed board holds more walls than it may.
pub open spec fn packed_within_rows(row_constraints: [u8; 8], bits: u64) -> bool {
    forall|y: int| 0 <= y < 8 ==> #[trigger] row_bits(bits, y) <= row_constraints[y]
}

/// Whether `mask` has exactly the bits of the cells of row `y`.
pub open spec fn is_row_mask(mask: u64, y: int) -> bool {
    forall|c: int| 0 <= c < 64 ==> bit(mask, c) == (c % 8 == y)
}

/// The number of walls in row `y` among the first `n` columns.
pub open spec fn walls_upto(cols: Seq<[bool; 8]>, y: int, n: int) -> int
    decreases n,
{
    if n <= 0 {
        0
    } else {
        walls_upto(cols, y, n - 1) + ones(wall_at(cols, n - 1, y))
    }
}

/// The walls among the first `n` columns do not depend on the columns after
/// them.
pub proof fn lemma_walls_upto_prefix(cols: Seq<[bool; 8]>, y: int, n: int)
    requires
        0 <= n < cols.len(),
        0 <= y < 8,
    ensures
        walls_upto(cols, y, n) == walls_upto(cols.drop_last(), y, n),
    decreases n,
{
    if n > 0 {
        lemma_walls_upto_prefix(cols, y, n - 1);
    }
}

/// Counted over at least all placed columns, the walls of a row are those
/// of the placed columns.
pub proof fn lemma_walls_upto_all(cols: Seq<[bool; 8]>, y: int, n: int)
    requires
        cols.len() <= n,
        0 <= y < 8,
    ensures
        walls_upto(cols, y, n) == row_walls(cols, y),
    decreases n, cols.len(),
{
    if n > cols.len() {
        lemma_walls_upto_all(cols, y, n - 1);
    } else if n > 0 {
        lemma_walls_upto_prefix(cols, y, n - 1);
        lemma_walls_upto_all(cols.drop_last(), y, n - 1);
    }
}

/// A packed board marks in each row the walls that its columns hold there.
pub proof fn lemma_packed_rows(bits: u64, cols: Seq<[bool; 8]>, y: int)
    requires
        packs(bits, cols),
        cols.len() <= 8,
        0 <= y < 8,
    ensures
        row_bits(bits, y) == row_walls(cols, y),
{
    lemma_walls_upto_all(cols, y, 8);
    reveal_with_fuel(walls_upto, 9);
    assert(bit(bits, y) == wall_cell(cols, y));
    assert(bit(bits, 8 + y) == wall_cell(cols, 8 + y));
    assert(bit(bits, 16 + y) == wall_cell(cols, 16 + y));
    assert(bit(bits, 24 + y) == wall_cell(cols, 24 + y));
    assert(bit(bits, 32 + y) == wall_cell(cols, 32 + y));
    assert(bit(bits, 40 + y) == wall_cell(cols, 40 + y));
    assert(bit(bits, 48 + y) == wall_cell(cols, 48 + y));
    assert(bit(bits, 56 + y) == wall_cell(cols, 56 + y));
}

/// The set bits of a mask from bit `8 * x` up are the one of row `y` in
/// column `x`, if it is set, and those from bit `8 * x + 8` up, where the
/// mask has no bit outside row `y`.
pub proof fn lemma_bits_of_column(bits: u64, y: int, x: int)
    requires
        0 <= x < 8,
        0 <= y < 8,
        forall|c: int| bit(bits, c) ==> c % 8 == y,
    ensures
        bits_from(bits, 8 * x) == ones(bit(bits, 8 * x + y)) + bits_from(bits, 8 * x + 8),
{
    reveal_with_fuel(bits_from, 9);
    assert(bit(bits, 8 * x) ==> (8 * x) % 8 == y);
    assert(bit(bits, 8 * x + 1) ==> (8 * x + 1) % 8 == y);
    assert(bit(bits, 8 * x + 2) ==> (8 * x + 2) % 8 == y);
    assert(bit(bits, 8 * x + 3) ==> (8 * x + 3) % 8 == y);
    assert(bit(bits, 8 * x + 4) ==> (8 * x + 4) % 8 == y);
    assert(bit(bits, 8 * x + 5) ==> (8 * x + 5) % 8 == y);
    assert(bit(bits, 8 * x + 6) ==> (8 * x + 6) % 8 == y);
    assert(bit(bits, 8 * x + 7) ==> (8 * x + 7) % 8 == y);
}

/// The ones of a packed board under the mask of a row are the walls that it
/// marks in that row.
pub proof fn lemma_masked_count(bits: u64, mask: u64, y: int)
    requires
        0 <= y < 8,
        is_row_mask(mask, y),
    ensures
        bit_count((mask & bits) as nat) == row_bits(bits, y),
{
    let picked: u64 = mask & bits;
    assert forall|c: int| bit(picked, c) == (bit(bits, c) && c % 8 == y) by {
        if 0 <= c < 64 {
            let k: u64 = c as u64;
            assert(((mask & bits) & (1u64 << k) != 0) == ((mask & (1u64 << k) != 0) && (bits & (1u64
                << k) != 0))) by (bit_vector);
            assert(bit(mask, c) == (c % 8 == y));
        }
    }
    lemma_bit_count_is_bits(picked);
    lemma_bits_of_column(picked, y, 0);
    lemma_bits_of_column(picked, y, 1);
    lemma_bits_of_column(picked, y, 2);
    lemma_bits_of_column(picked, y, 3);
    lemma_bits_of_column(picked, y, 4);
    lemma_bits_of_column(picked, y, 5);
    lemma_bits_of_column(picked, y, 6);
    lemma_bits_of_column(picked, y, 7);
    assert(bits_from(picked, 64) == 0);
}

/// The mask of each row, built once and then only read.
pub struct RowMasks {
    masks: [u64; 8],
}

impl RowMasks {
    #[verifier::type_invariant]
    spec fn well_formed(self) -> bool {
        forall|y: int| 0 <= y < 8 ==> is_row_mask(#[trigger] self.masks[y], y)
    }

    /// The mask that the table holds for row `y`.
    pub closed spec fn mask(self, y: int) -> u64 {
        self.masks[y]
    }

    /// Builds the eight masks: bit `x * 8 + y` is set in the mask of row
    /// `y` for every column `x`.
    pub fn new() -> (table: Self)
        ensures
            forall|y: int| 0 <= y < 8 ==> is_row_mask(#[trigger] table.mask(y), y),
    {
        let mut row_masks = [0u64; 8];
        let mut y: usize = 0;
        while y < 8
            invariant
                y <= 8,
                forall|b: int| 0 <= b < y ==> is_row_mask(#[trigger] row_masks[b], b),
            decreases 8 - y,
        {
            let mut row_mask: u64 = 0;
            let mut x: usize = 0;
            proof {
                assert forall|c: int| !bit(row_mask, c) by {
                    lemma_zero_has_no_bit(c);
                }
            }
            while x < 8
                invariant
                    x <= 8,
                    y < 8,
                    forall|c: int|
                        0 <= c < 64 ==> bit(row_mask, c) == (c % 8 == y && c < 8 * x),
                decreases 8 - x,
            {
                let ghost before = row_mask;
                row_mask = set_bit(row_mask, y + (x * 8));
                proof {
                    assert forall|c: int| 0 <= c < 64 implies bit(row_mask, c) == (c % 8 == y && c
                        < 8 * (x + 1)) by {
                        lemma_with_bit(before, y + x * 8, c);
                    }
                }
                x = x + 1;
            }
            row_masks[y] = row_mask;
            y = y + 1;
        }
        RowMasks { masks: row_masks }
    }

    /// The mask of row `y`.
    pub fn row_mask(&self, y: usize) -> (mask: u64)
        requires
            y < 8,
        ensures
            mask == self.mask(y as int),
            is_row_mask(mask, y as int),
    {
        proof {
            use_type_invariant(self);
        }
        self.masks[y]
    }

    /// Whether some row of a packed board holds more walls than it may.
    /// Where the board packs the columns `cols`, this is whether `cols` puts
    /// more walls in some row than it may.
    pub fn exceeded(&self, board_bits: u64, row_constraints: &[u8; 8]) -> (r: bool)
        ensures
            r == !packed_within_rows(*row_constraints, board_bits),
            forall|cols: Seq<[bool; 8]>|
                cols.len() <= 8 && #[trigger] packs(board_bits, cols) ==> r == !within_rows(
                    *row_constraints,
                    cols,
                ),
    {
        let mut y: usize = 0;
        let mut r = false;
        while y < 8
            invariant
                y <= 8,
                r == exists|b: int|
                    0 <= b < y && #[trigger] row_bits(board_bits, b) > row_constraints[b],
            decreases 8 - y,
        {
            let row_mask = self.row_mask(y);
            proof {
                lemma_masked_count(board_bits, row_mask, y as int);
            }
            let walls = (row_mask & board_bits).count_ones();
            if walls > row_constraints[y] as u32 {
                r = true;
            }
            y = y + 1;
        }
        proof {
            assert forall|cols: Seq<[bool; 8]>|
                cols.len() <= 8 && #[trigger] packs(board_bits, cols) implies r == !within_rows(
                *row_constraints,
                cols,
            ) by {
                assert forall|b: int| 0 <= b < 8 implies #[trigger] row_walls(cols, b) == row_bits(
                    board_bits,
                    b,
                ) by {
                    lemma_packed_rows(board_bits, cols, b);
                }
                if r {
                    let b = choose|b: int|
                        0 <= b < 8 && #[trigger] row_bits(board_bits, b) > row_constraints[b];
                    assert(row_walls(cols, b) > row_constraints[b]);
                }
            }
        }
        r
    }
}

} // verus!

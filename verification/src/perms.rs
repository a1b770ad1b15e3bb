//! Candidate columns: for each wall count, every column that holds exactly
//! that many walls.

use crate::bits::{bit_count, lemma_bit_count_step};
use crate::listing::lists_exactly;
use vstd::prelude::*;

verus! {

/// 1 for `true`, 0 for `false`.
pub open spec fn ones(b: bool) -> int {
    if b {
        1
    } else {
        0
    }
}

/// The number of walls in a column.
pub open spec fn column_walls(column: [bool; 8]) -> int {
    ones(column[0]) + ones(column[1]) + ones(column[2]) + ones(column[3]) + ones(column[4])
        + ones(column[5]) + ones(column[6]) + ones(column[7])
}

/// Whether the bit of place value `1 << k` is set in `pattern`.
pub open spec fn has_bit(pattern: u8, k: u8) -> bool {
    pattern & (1u8 << k) != 0
}

/// Whether the 8-bit pattern `pattern` puts a wall in row `y`: row 0 is the
/// most significant bit, row 7 the least significant one.
pub open spec fn pattern_bit(pattern: u8, y: int) -> bool {
    0 <= y < 8 && has_bit(pattern, (7 - y) as u8)
}

/// Whether `column` is the column that the pattern spells.
pub open spec fn spells(pattern: u8, column: [bool; 8]) -> bool {
    forall|y: int| 0 <= y < 8 ==> #[trigger] column[y] == pattern_bit(pattern, y)
}

/// The column that an 8-bit pattern spells, row 0 from the most significant
/// bit.
pub fn get_values(walls_bin: u8) -> (values: [bool; 8])
    ensures
        spells(walls_bin, values),
{
    let mut values = [false; 8];
    let mut i: usize = 0;
    while i < 8
        invariant
            i <= 8,
            forall|y: int| 0 <= y < i ==> values[y] == pattern_bit(walls_bin, y),
        decreases 8 - i,
    {
        let shift: u8 = (7 - i) as u8;
        values[i] = walls_bin & (1u8 << shift) != 0;
        i = i + 1;
    }
    values
}

/// The number of ways to choose `k` things out of `n`.
pub open spec fn binomial(n: nat, k: int) -> nat
    decreases n,
{
    if k < 0 || k > n {
        0
    } else if n == 0 {
        1
    } else {
        binomial((n - 1) as nat, k) + binomial((n - 1) as nat, k - 1)
    }
}

/// 2 to the power `m`.
pub open spec fn two_to(m: nat) -> nat
    decreases m,
{
    if m == 0 {
        1
    } else {
        2 * two_to((m - 1) as nat)
    }
}

/// How many of the numbers below `n` have exactly `k` ones in their binary
/// representation.
pub open spec fn count_below(n: nat, k: int) -> nat
    decreases n,
{
    if n == 0 {
        0
    } else {
        count_below((n - 1) as nat, k) + if bit_count((n - 1) as nat) == k {
            1nat
        } else {
            0nat
        }
    }
}

/// A number below `2^m` gains exactly one 1 when `2^m` is added to it.
pub proof fn lemma_bit_count_high(m: nat, i: nat)
    requires
        i < two_to(m),
    ensures
        bit_count(two_to(m) + i) == 1 + bit_count(i),
    decreases m,
{
    if m == 0 {
        reveal_with_fuel(bit_count, 3);
    } else {
        let h = two_to((m - 1) as nat);
        lemma_bit_count_high((m - 1) as nat, i / 2);
        lemma_bit_count_step(two_to(m) + i);
        lemma_bit_count_step(i);
        assert((two_to(m) + i) / 2 == h + i / 2);
        assert((two_to(m) + i) % 2 == i % 2);
    }
}

/// Among the `j` numbers from `2^m` on, as many have `k` ones as have `k - 1`
/// ones among the first `j` numbers.
pub proof fn lemma_count_shift(m: nat, j: nat, k: int)
    requires
        j <= two_to(m),
    ensures
        count_below(two_to(m) + j, k) == count_below(two_to(m), k) + count_below(j, k - 1),
    decreases j,
{
    if j > 0 {
        lemma_count_shift(m, (j - 1) as nat, k);
        lemma_bit_count_high(m, (j - 1) as nat);
    }
}

/// Of the numbers below `2^m`, `binomial(m, k)` have exactly `k` ones.
pub proof fn lemma_count_binomial(m: nat, k: int)
    ensures
        count_below(two_to(m), k) == binomial(m, k),
    decreases m,
{
    if m == 0 {
        reveal_with_fuel(count_below, 2);
    } else {
        let h = two_to((m - 1) as nat);
        lemma_count_shift((m - 1) as nat, h, k);
        lemma_count_binomial((m - 1) as nat, k);
        lemma_count_binomial((m - 1) as nat, k - 1);
    }
}

/// A column holds as many walls as the pattern that spells it has ones.
pub proof fn lemma_walls_of_pattern(pattern: u8, column: [bool; 8])
    requires
        spells(pattern, column),
    ensures
        column_walls(column) == bit_count(pattern as nat),
{
    let p = pattern;
    assert({
        &&& has_bit(p, 7) == (p / 128 % 2 == 1)
        &&& has_bit(p, 6) == (p / 64 % 2 == 1)
        &&& has_bit(p, 5) == (p / 32 % 2 == 1)
        &&& has_bit(p, 4) == (p / 16 % 2 == 1)
        &&& has_bit(p, 3) == (p / 8 % 2 == 1)
        &&& has_bit(p, 2) == (p / 4 % 2 == 1)
        &&& has_bit(p, 1) == (p / 2 % 2 == 1)
        &&& has_bit(p, 0) == (p % 2 == 1)
    }) by (bit_vector);
    assert(column[0] == pattern_bit(p, 0));
    assert(column[1] == pattern_bit(p, 1));
    assert(column[2] == pattern_bit(p, 2));
    assert(column[3] == pattern_bit(p, 3));
    assert(column[4] == pattern_bit(p, 4));
    assert(column[5] == pattern_bit(p, 5));
    assert(column[6] == pattern_bit(p, 6));
    assert(column[7] == pattern_bit(p, 7));
    let n = p as nat;
    lemma_bit_count_step(n);
    lemma_bit_count_step(n / 2);
    lemma_bit_count_step(n / 4);
    lemma_bit_count_step(n / 8);
    lemma_bit_count_step(n / 16);
    lemma_bit_count_step(n / 32);
    lemma_bit_count_step(n / 64);
    lemma_bit_count_step(n / 128);
    assert(n / 2 / 2 == n / 4);
    assert(n / 4 / 2 == n / 8);
    assert(n / 8 / 2 == n / 16);
    assert(n / 16 / 2 == n / 32);
    assert(n / 32 / 2 == n / 64);
    assert(n / 64 / 2 == n / 128);
    assert(n / 128 / 2 == 0);
}

/// Every 8-bit pattern with exactly `constraint` ones, in increasing order.
pub fn generate_perms(constraint: u32) -> (patterns: Vec<u8>)
    ensures
        forall|j: int|
            0 <= j < patterns.len() ==> bit_count(#[trigger] patterns[j] as nat) == constraint,
        forall|p: u8| bit_count(p as nat) == constraint ==> patterns@.contains(p),
        forall|i: int, j: int| 0 <= i < j < patterns.len() ==> patterns[i] < patterns[j],
        patterns.len() == binomial(8, constraint as int),
{
    let mut patterns: Vec<u8> = Vec::new();
    let mut n: u16 = 0;
    while n < 256
        invariant
            n <= 256,
            forall|j: int|
                0 <= j < patterns.len() ==> bit_count(#[trigger] patterns[j] as nat) == constraint
                    && patterns[j] < n,
            forall|p: u8| p < n && bit_count(p as nat) == constraint ==> patterns@.contains(p),
            forall|i: int, j: int| 0 <= i < j < patterns.len() ==> patterns[i] < patterns[j],
            patterns.len() == count_below(n as nat, constraint as int),
        decreases 256 - n,
    {
        let p: u8 = n as u8;
        let ghost before = patterns@;
        if p.count_ones() == constraint {
            patterns.push(p);
            assert(patterns@[before.len() as int] == p);
        }
        proof {
            assert forall|q: u8|
                q < n + 1 && bit_count(q as nat) == constraint implies patterns@.contains(q) by {
                if q < n {
                    assert(before.contains(q));
                    let j = choose|j: int| 0 <= j < before.len() && before[j] == q;
                    assert(patterns@[j] == q);
                }
            }
        }
        n = n + 1;
    }
    proof {
        reveal_with_fuel(two_to, 9);
        lemma_count_binomial(8, constraint as int);
    }
    patterns
}

/// Accepts the columns that hold exactly `count` walls.
pub open spec fn has_walls(count: int) -> spec_fn([bool; 8]) -> bool {
    |column: [bool; 8]| column_walls(column) == count
}

/// `value` where there is a wall, 0 where there is none.
pub open spec fn place(wall: bool, value: u8) -> u8 {
    if wall {
        value
    } else {
        0
    }
}

/// The 8-bit pattern that spells a column.
pub open spec fn pattern_of(column: [bool; 8]) -> u8 {
    place(column[0], 0x80) | place(column[1], 0x40) | place(column[2], 0x20) | place(
        column[3],
        0x10,
    ) | place(column[4], 0x08) | place(column[5], 0x04) | place(column[6], 0x02) | place(
        column[7],
        0x01,
    )
}

/// Every column is spelled by its pattern.
pub proof fn lemma_pattern_of_spells(column: [bool; 8])
    ensures
        spells(pattern_of(column), column),
{
    let a0 = place(column[0], 0x80);
    let a1 = place(column[1], 0x40);
    let a2 = place(column[2], 0x20);
    let a3 = place(column[3], 0x10);
    let a4 = place(column[4], 0x08);
    let a5 = place(column[5], 0x04);
    let a6 = place(column[6], 0x02);
    let a7 = place(column[7], 0x01);
    let p: u8 = a0 | a1 | a2 | a3 | a4 | a5 | a6 | a7;
    assert({
        &&& has_bit(p, 7) == (a0 != 0)
        &&& has_bit(p, 6) == (a1 != 0)
        &&& has_bit(p, 5) == (a2 != 0)
        &&& has_bit(p, 4) == (a3 != 0)
        &&& has_bit(p, 3) == (a4 != 0)
        &&& has_bit(p, 2) == (a5 != 0)
        &&& has_bit(p, 1) == (a6 != 0)
        &&& has_bit(p, 0) == (a7 != 0)
    }) by (bit_vector)
        requires
            p == a0 | a1 | a2 | a3 | a4 | a5 | a6 | a7,
            a0 == 0 || a0 == 0x80,
            a1 == 0 || a1 == 0x40,
            a2 == 0 || a2 == 0x20,
            a3 == 0 || a3 == 0x10,
            a4 == 0 || a4 == 0x08,
            a5 == 0 || a5 == 0x04,
            a6 == 0 || a6 == 0x02,
            a7 == 0 || a7 == 0x01,
    ;
    assert(pattern_bit(p, 0) == column[0]);
    assert(pattern_bit(p, 1) == column[1]);
    assert(pattern_bit(p, 2) == column[2]);
    assert(pattern_bit(p, 3) == column[3]);
    assert(pattern_bit(p, 4) == column[4]);
    assert(pattern_bit(p, 5) == column[5]);
    assert(pattern_bit(p, 6) == column[6]);
    assert(pattern_bit(p, 7) == column[7]);
}

/// Two patterns that spell the same column are the same pattern.
pub proof fn lemma_spelling_is_unique(p: u8, q: u8, column: [bool; 8])
    requires
        spells(p, column),
        spells(q, column),
    ensures
        p == q,
{
    assert(column[0] == pattern_bit(p, 0) && column[0] == pattern_bit(q, 0));
    assert(column[1] == pattern_bit(p, 1) && column[1] == pattern_bit(q, 1));
    assert(column[2] == pattern_bit(p, 2) && column[2] == pattern_bit(q, 2));
    assert(column[3] == pattern_bit(p, 3) && column[3] == pattern_bit(q, 3));
    assert(column[4] == pattern_bit(p, 4) && column[4] == pattern_bit(q, 4));
    assert(column[5] == pattern_bit(p, 5) && column[5] == pattern_bit(q, 5));
    assert(column[6] == pattern_bit(p, 6) && column[6] == pattern_bit(q, 6));
    assert(column[7] == pattern_bit(p, 7) && column[7] == pattern_bit(q, 7));
    assert(p == q) by (bit_vector)
        requires
            has_bit(p, 7) == has_bit(q, 7),
            has_bit(p, 6) == has_bit(q, 6),
            has_bit(p, 5) == has_bit(q, 5),
            has_bit(p, 4) == has_bit(q, 4),
            has_bit(p, 3) == has_bit(q, 3),
            has_bit(p, 2) == has_bit(q, 2),
            has_bit(p, 1) == has_bit(q, 1),
            has_bit(p, 0) == has_bit(q, 0),
    ;
}

/// Every column that holds exactly `count` walls, each once.
pub fn candidate_columns(count: u8) -> (columns: Vec<[bool; 8]>)
    ensures
        lists_exactly(columns@, has_walls(count as int)),
        columns.len() == binomial(8, count as int),
{
    let patterns = generate_perms(count as u32);
    let mut columns: Vec<[bool; 8]> = Vec::new();
    let mut j: usize = 0;
    while j < patterns.len()
        invariant
            j <= patterns.len(),
            columns.len() == j,
            forall|i: int| 0 <= i < j ==> spells(patterns[i], #[trigger] columns[i]),
        decreases patterns.len() - j,
    {
        let column = get_values(patterns[j]);
        columns.push(column);
        j = j + 1;
    }
    proof {
        assert forall|i: int| 0 <= i < columns.len() implies has_walls(count as int)(
            #[trigger] columns[i],
        ) by {
            lemma_walls_of_pattern(patterns[i], columns[i]);
        }
        assert forall|v: [bool; 8]| has_walls(count as int)(v) implies #[trigger] columns@.contains(
            v,
        ) by {
            let p = pattern_of(v);
            lemma_pattern_of_spells(v);
            lemma_walls_of_pattern(p, v);
            assert(patterns@.contains(p));
            let i = choose|i: int| 0 <= i < patterns.len() && patterns[i] == p;
            assert(spells(p, columns[i]));
            assert(columns[i] =~= v);
        }
        assert forall|i: int, k: int|
            0 <= i < columns.len() && 0 <= k < columns.len() && i != k implies columns[i]
            != columns[k] by {
            if columns[i] == columns[k] {
                lemma_spelling_is_unique(patterns[i], patterns[k], columns[i]);
                if i < k {
                    assert(patterns[i] < patterns[k]);
                } else {
                    assert(patterns[k] < patterns[i]);
                }
            }
        }
    }
    columns
}

/// The candidate columns for every wall count from 0 to 8, built once and
/// then only read.
pub struct PermutationTable {
    groups: Vec<Vec<[bool; 8]>>,
}

impl PermutationTable {
    #[verifier::type_invariant]
    spec fn well_formed(self) -> bool {
        &&& self.groups.len() == 9
        &&& forall|k: int|
            0 <= k < 9 ==> lists_exactly((#[trigger] self.groups[k])@, has_walls(k))
                && self.groups[k].len() == binomial(8, k)
    }

    /// The candidate columns that the table holds for `count` walls, in the
    /// order in which it hands them out.
    pub closed spec fn candidates(self, count: int) -> Seq<[bool; 8]> {
        self.groups[count]@
    }

    /// Builds the table for all nine wall counts.
    pub fn new() -> (table: Self)
        ensures
            forall|count: int|
                0 <= count <= 8 ==> lists_exactly(
                    #[trigger] table.candidates(count),
                    has_walls(count),
                ) && table.candidates(count).len() == binomial(8, count),
    {
        let mut groups: Vec<Vec<[bool; 8]>> = Vec::new();
        let mut count: u8 = 0;
        while count < 9
            invariant
                count <= 9,
                groups.len() == count,
                forall|k: int|
                    0 <= k < count ==> lists_exactly((#[trigger] groups[k])@, has_walls(k))
                        && groups[k].len() == binomial(8, k),
            decreases 9 - count,
        {
            let columns = candidate_columns(count);
            groups.push(columns);
            count = count + 1;
        }
        PermutationTable { groups }
    }

    /// Every column that holds exactly `count` walls, each once, in an order
    /// that is fixed for the table.
    pub fn permutations_for(&self, count: u8) -> (columns: &Vec<[bool; 8]>)
        requires
            count <= 8,
        ensures
            columns@ == self.candidates(count as int),
            lists_exactly(columns@, has_walls(count as int)),
            columns.len() == binomial(8, count as int),
    {
        proof {
            use_type_invariant(self);
        }
        &self.groups[count as usize]
    }
}

} // verus!

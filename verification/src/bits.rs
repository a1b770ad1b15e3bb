//! Single-bit access to a 64-bit mask, least significant bit first.

use bitvec::order::Lsb0;
use bitvec::view::BitView;
use vstd::prelude::*;
use vstd::std_specs::bits::{axiom_u64_trailing_zeros, u64_trailing_zeros};

verus! {

/// Whether bit `i` of `bits` is set, counting from the least significant bit.
/// No bit is set at an index outside `0..64`.
pub open spec fn bit(bits: u64, i: int) -> bool {
    0 <= i < 64 && bits & (1u64 << (i as u64)) != 0
}

/// `bits` with bit `i` switched on.
pub open spec fn with_bit(bits: u64, i: int) -> u64 {
    bits | (1u64 << (i as u64))
}

/// Switching bit `i` on sets that bit and leaves every other bit as it was.
pub proof fn lemma_with_bit(bits: u64, i: int, j: int)
    requires
        0 <= i < 64,
    ensures
        bit(with_bit(bits, i), j) == (j == i || bit(bits, j)),
{
    if 0 <= j < 64 {
        let a: u64 = i as u64;
        let b: u64 = j as u64;
        assert(((bits | (1u64 << a)) & (1u64 << b) != 0) == (b == a || bits & (1u64 << b) != 0))
            by (bit_vector)
            requires
                a < 64,
                b < 64,
        ;
    }
}

/// The empty mask has no bit set.
pub proof fn lemma_zero_has_no_bit(i: int)
    ensures
        !bit(0u64, i),
{
    if 0 <= i < 64 {
        let a: u64 = i as u64;
        assert(0u64 & (1u64 << a) == 0) by (bit_vector);
    }
}

/// Calls `BitSlice::set` of `bitvec` on the least-significant-first view of
/// one `u64`. The contract claims that the call switches on the bit whose
/// place value is `1 << index` and changes nothing else; `bitvec` panics on
/// an index of 64 or more, which `requires` leaves out.
#[verifier::external_body]
pub(crate) fn set_bit(bits: u64, index: usize) -> (r: u64)
    requires
        index < 64,
    ensures
        r == with_bit(bits, index as int),
{
    let mut store = bits;
    store.view_bits_mut::<Lsb0>().set(index, true);
    store
}

/// Indexes the least-significant-first view that `bitvec` gives of one
/// `u64`. The contract claims that index `i` reads the bit whose place value
/// is `1 << i`; `bitvec` panics on an index of 64 or more, which `requires`
/// leaves out.
#[verifier::external_body]
pub(crate) fn get_bit(bits: u64, index: usize) -> (r: bool)
    requires
        index < 64,
    ensures
        r == bit(bits, index as int),
{
    bits.view_bits::<Lsb0>()[index]
}

/// Two masks with the same bits are the same mask.
pub proof fn lemma_same_bits(a: u64, b: u64)
    requires
        forall|i: int| 0 <= i < 64 ==> bit(a, i) == bit(b, i),
    ensures
        a == b,
{
    if a != b {
        let x: u64 = a ^ b;
        assert(x != 0) by (bit_vector)
            requires
                x == a ^ b,
                a != b,
        ;
        axiom_u64_trailing_zeros(x);
        let t: u64 = u64_trailing_zeros(x) as u64;
        assert((a & (1u64 << t) != 0) != (b & (1u64 << t) != 0)) by (bit_vector)
            requires
                x == a ^ b,
                t < 64,
                (x >> t) & 1u64 == 1u64,
        ;
        assert(bit(a, t as int) == bit(b, t as int));
    }
}

/// The number of ones in the binary representation of `n`.
pub open spec fn bit_count(n: nat) -> nat
    decreases n,
{
    if n == 0 {
        0
    } else {
        n % 2 + bit_count(n / 2)
    }
}

/// `u8::count_ones` of std returns the number of ones in the binary
/// representation of the byte.
pub assume_specification[ u8::count_ones ](value: u8) -> (r: u32)
    ensures
        r == bit_count(value as nat),
;

/// `u64::count_ones` of std returns the number of ones in the binary
/// representation of the value.
pub assume_specification[ u64::count_ones ](value: u64) -> (r: u32)
    ensures
        r == bit_count(value as nat),
;

/// The number of set bits of a mask from bit `from` up.
pub open spec fn bits_from(bits: u64, from: int) -> nat
    decreases 64 - from,
{
    if from >= 64 {
        0
    } else {
        (if bit(bits, from) {
            1nat
        } else {
            0nat
        }) + bits_from(bits, from + 1)
    }
}

/// The ones of a mask shifted down by `from` places are its set bits from
/// bit `from` up.
pub proof fn lemma_bit_count_from(bits: u64, from: int)
    requires
        0 <= from < 64,
    ensures
        bit_count((bits >> (from as u64)) as nat) == bits_from(bits, from),
    decreases 64 - from,
{
    let k: u64 = from as u64;
    let v: u64 = bits >> k;
    assert(((v % 2) == 1) == (bits & (1u64 << k) != 0)) by (bit_vector)
        requires
            k < 64,
            v == bits >> k,
    ;
    if from == 63 {
        assert(v / 2 == 0) by (bit_vector)
            requires
                k == 63,
                v == bits >> k,
        ;
        reveal_with_fuel(bit_count, 2);
        reveal_with_fuel(bits_from, 2);
    } else {
        let next: u64 = (k + 1) as u64;
        assert(v / 2 == bits >> next) by (bit_vector)
            requires
                k < 63,
                next == k + 1,
                v == bits >> k,
        ;
        lemma_bit_count_from(bits, from + 1);
        lemma_bit_count_step(v as nat);
    }
}

/// The ones of a number are its last binary digit and the ones of the rest.
pub proof fn lemma_bit_count_step(n: nat)
    ensures
        bit_count(n) == n % 2 + bit_count(n / 2),
{
    reveal_with_fuel(bit_count, 2);
}

/// The ones of a mask are its set bits.
pub proof fn lemma_bit_count_is_bits(bits: u64)
    ensures
        bit_count(bits as nat) == bits_from(bits, 0),
{
    assert(bits >> 0u64 == bits) by (bit_vector);
    lemma_bit_count_from(bits, 0);
}

} // verus!

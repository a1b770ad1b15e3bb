//! Sequences that enumerate a set: every wanted value once, nothing else.

use vstd::prelude::*;

verus! {

/// Whether `s` holds every value that `wanted` accepts exactly once, and no
/// other value.
pub open spec fn lists_exactly<T>(s: Seq<T>, wanted: spec_fn(T) -> bool) -> bool {
    &&& forall|i: int| 0 <= i < s.len() ==> wanted(#[trigger] s[i])
    &&& forall|v: T| wanted(v) ==> #[trigger] s.contains(v)
    &&& s.no_duplicates()
}

/// Two sequences that list the same wanted values hold the same set of
/// values and are equally long, whatever their order.
pub proof fn lemma_listing_determined<T>(a: Seq<T>, b: Seq<T>, wanted: spec_fn(T) -> bool)
    requires
        lists_exactly(a, wanted),
        lists_exactly(b, wanted),
    ensures
        a.to_set() == b.to_set(),
        a.len() == b.len(),
{
    assert forall|v: T| a.to_set().contains(v) == b.to_set().contains(v) by {
        if a.contains(v) {
            assert(b.contains(v));
        }
        if b.contains(v) {
            assert(a.contains(v));
        }
    }
    assert(a.to_set() =~= b.to_set());
    a.unique_seq_to_set();
    b.unique_seq_to_set();
}

} // verus!

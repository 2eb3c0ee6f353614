//! Exchanges of two entries of a sequence, and what any number of them
//! within a range of positions keep.

use vstd::prelude::*;
use vstd::seq_lib::lemma_multiset_commutative;

verus! {

/// `s` with the entries at `a` and `b` exchanged.
pub open spec fn exchange<T>(s: Seq<T>, a: int, b: int) -> Seq<T> {
    s.update(a, s[b]).update(b, s[a])
}

/// `after` holds the entries of `before`, with those outside the positions
/// `lo..=hi` where they were.
pub open spec fn rearranged<T>(before: Seq<T>, after: Seq<T>, lo: int, hi: int) -> bool {
    &&& after.len() == before.len()
    &&& forall|k: int| 0 <= k < before.len() && !(lo <= k <= hi) ==> after[k] == before[k]
    &&& after.subrange(lo, hi + 1).to_multiset() == before.subrange(lo, hi + 1).to_multiset()
}

/// An exchange preserves the multiset of entries.
pub proof fn lemma_exchange_multiset<T>(s: Seq<T>, a: int, b: int)
    requires
        0 <= a < s.len(),
        0 <= b < s.len(),
    ensures
        exchange(s, a, b).to_multiset() == s.to_multiset(),
{
    broadcast use vstd::seq_lib::group_to_multiset_ensures;

    let half = s.update(a, s[b]);
    assert(s.contains(s[a]));
    assert(s.contains(s[b]));
    assert(half.to_multiset() == s.to_multiset().insert(s[b]).remove(s[a]));
    assert(half[b] == s[b]);
    assert(exchange(s, a, b).to_multiset() == half.to_multiset().insert(s[a]).remove(s[b]));
    assert(exchange(s, a, b).to_multiset() =~= s.to_multiset());
}

/// An exchange of two positions within `lo..=hi` rearranges that range.
pub proof fn lemma_exchange_rearranged<T>(s: Seq<T>, a: int, b: int, lo: int, hi: int)
    requires
        0 <= lo <= a <= hi < s.len(),
        lo <= b <= hi,
    ensures
        rearranged(s, exchange(s, a, b), lo, hi),
{
    let part = s.subrange(lo, hi + 1);
    assert(exchange(s, a, b).subrange(lo, hi + 1) =~= exchange(part, a - lo, b - lo));
    lemma_exchange_multiset(part, a - lo, b - lo);
}

/// Rearranging a range rearranges every range that contains it.
pub proof fn lemma_rearranged_widen<T>(
    before: Seq<T>,
    after: Seq<T>,
    lo: int,
    hi: int,
    outer_lo: int,
    outer_hi: int,
)
    requires
        rearranged(before, after, lo, hi),
        0 <= outer_lo <= lo <= hi + 1 <= outer_hi + 1 <= before.len(),
    ensures
        rearranged(before, after, outer_lo, outer_hi),
{
    let head = before.subrange(outer_lo, lo);
    let tail = before.subrange(hi + 1, outer_hi + 1);
    assert(after.subrange(outer_lo, lo) =~= head);
    assert(after.subrange(hi + 1, outer_hi + 1) =~= tail);
    assert(before.subrange(outer_lo, outer_hi + 1) =~= head + before.subrange(lo, hi + 1) + tail);
    assert(after.subrange(outer_lo, outer_hi + 1) =~= head + after.subrange(lo, hi + 1) + tail);
    lemma_multiset_commutative(head, before.subrange(lo, hi + 1));
    lemma_multiset_commutative(head + before.subrange(lo, hi + 1), tail);
    lemma_multiset_commutative(head, after.subrange(lo, hi + 1));
    lemma_multiset_commutative(head + after.subrange(lo, hi + 1), tail);
}

/// A rearranged sequence holds the same multiset of entries.
pub proof fn lemma_rearranged_multiset<T>(before: Seq<T>, after: Seq<T>, lo: int, hi: int)
    requires
        rearranged(before, after, lo, hi),
        0 <= lo <= hi + 1 <= before.len(),
    ensures
        after.to_multiset() == before.to_multiset(),
{
    lemma_rearranged_widen(before, after, lo, hi, 0, before.len() - 1);
    assert(before.subrange(0, before.len() as int) =~= before);
    assert(after.subrange(0, after.len() as int) =~= after);
}

/// Each entry of a rearranged sequence came from an entry of the sequence
/// before, and from the range if it stands in the range.
pub proof fn lemma_rearranged_source<T>(before: Seq<T>, after: Seq<T>, lo: int, hi: int, k: int)
    -> (source: int)
    requires
        rearranged(before, after, lo, hi),
        0 <= lo,
        hi < before.len(),
        0 <= k < after.len(),
    ensures
        0 <= source < before.len(),
        before[source] == after[k],
        (lo <= k <= hi) == (lo <= source <= hi),
{
    broadcast use vstd::seq_lib::group_to_multiset_ensures;

    if lo <= k <= hi {
        let from = before.subrange(lo, hi + 1);
        let to = after.subrange(lo, hi + 1);
        assert(to[k - lo] == after[k]);
        assert(to.contains(after[k]));
        assert(to.to_multiset().count(after[k]) > 0);
        assert(from.contains(after[k]));
        let m = choose|m: int| 0 <= m < from.len() && from[m] == after[k];
        lo + m
    } else {
        k
    }
}

} // verus!

//! Bounded queues: what an offer comes to, and queues that keep only their newest
//! elements.
use std::collections::VecDeque;
use vstd::prelude::*;

verus! {

/// What became of something offered to a bounded queue.
#[derive(Debug, Clone, Copy, PartialEq, Eq, Structural)]
pub enum Offer {
    /// It was put at the end of the queue.
    Taken,
    /// The queue was full.
    Full,
    /// Nobody is left to read the queue.
    Gone,
}

/// The last `max` elements of `s`.
pub open spec fn newest<T>(s: Seq<T>, max: int) -> Seq<T> {
    if s.len() > max {
        s.skip(s.len() - max)
    } else {
        s
    }
}

/// Drops the oldest elements until at most `max` are left.
pub fn cap_front<T>(q: &mut VecDeque<T>, max: usize)
    ensures
        final(q)@ == newest(old(q)@, max as int),
{
    let ghost start = q@;
    assert(start.skip(0) == start);
    while q.len() > max
        invariant
            q@.len() <= start.len(),
            q@ == start.skip(start.len() - q@.len()),
            start.len() > max ==> q@.len() >= max,
            start.len() <= max ==> q@ == start,
        decreases q@.len(),
    {
        let _ = q.pop_front();
        assert(q@ == start.skip(start.len() - q@.len()));
    }
}

/// One more, up to the largest number.
pub open spec fn one_more(n: u64) -> u64 {
    if n < u64::MAX {
        (n + 1) as u64
    } else {
        n
    }
}

/// The elements of the first `k` parts, in order.
pub open spec fn joined<T>(parts: Seq<Seq<T>>, k: int) -> Seq<T>
    decreases k,
{
    if k <= 0 {
        Seq::empty()
    } else {
        joined(parts, k - 1) + parts[k - 1]
    }
}

/// Only the first `k` parts matter to what they join to.
pub proof fn lemma_joined_prefix<T>(a: Seq<Seq<T>>, b: Seq<Seq<T>>, k: int)
    requires
        k <= a.len(),
        k <= b.len(),
        forall|i: int| 0 <= i < k ==> a[i] == b[i],
    ensures
        joined(a, k) == joined(b, k),
    decreases k,
{
    if k > 0 {
        lemma_joined_prefix(a, b, k - 1);
    }
}

/// Each element of a part is among what the parts join to.
pub proof fn lemma_joined_contains<T>(parts: Seq<Seq<T>>, k: int, i: int, j: int)
    requires
        0 <= i < k <= parts.len(),
        0 <= j < parts[i].len(),
    ensures
        joined(parts, k).contains(parts[i][j]),
    decreases k,
{
    let before = joined(parts, k - 1);
    let all = joined(parts, k);
    if i == k - 1 {
        assert(all[before.len() + j] == parts[i][j]);
    } else {
        lemma_joined_contains(parts, k - 1, i, j);
        let p = choose|p: int| 0 <= p < before.len() && before[p] == parts[i][j];
        assert(all[p] == parts[i][j]);
    }
}

/// Capping drops from the front alone: what is left is as long as allowed and ends with
/// the same elements, in order.
pub proof fn capping_drops_the_oldest<T>(s: Seq<T>, max: int)
    requires
        0 <= max,
    ensures
        newest(s, max).len() == (if s.len() < max {
            s.len() as int
        } else {
            max
        }),
        newest(s, max).is_suffix_of(s),
        s.len() > 0 && max > 0 ==> newest(s, max).last() == s.last(),
{
    let kept = newest(s, max);
    assert(s.subrange((s.len() - kept.len()) as int, s.len() as int) =~= kept);
}

/// Joined parts are the parts one behind the other.
pub proof fn joined_parts_keep_their_order<T>(parts: Seq<Seq<T>>, k: int)
    requires
        0 <= k <= parts.len(),
    ensures
        joined(parts, k) == parts.take(k).flatten(),
    decreases k,
{
    parts.take(k).lemma_flatten_and_flatten_alt_are_equivalent();
    if k > 0 {
        joined_parts_keep_their_order(parts, k - 1);
        parts.take(k - 1).lemma_flatten_and_flatten_alt_are_equivalent();
        assert(parts.take(k).drop_last() =~= parts.take(k - 1));
        assert(parts.take(k).last() == parts[k - 1]);
    } else {
        assert(parts.take(0) =~= Seq::<Seq<T>>::empty());
    }
}

/// Counting goes up by one and stops at the largest number.
pub proof fn counts_go_up_by_one(n: u64)
    ensures
        n < u64::MAX ==> one_more(n) == n + 1,
        one_more(u64::MAX) == u64::MAX,
{
}

} // verus!

//! Sums over sequences of `i32`, taken as mathematical integers.

use vstd::prelude::*;

verus! {

/// The exact sum of the values in `s`.
pub open spec fn seq_sum(s: Seq<i32>) -> int
    decreases s.len(),
{
    if s.len() == 0 {
        0
    } else {
        seq_sum(s.drop_last()) + s.last()
    }
}

/// Every contiguous run of `s` sums to a value that an `i32` can hold.
pub open spec fn sums_fit(s: Seq<i32>) -> bool {
    forall|i: int, j: int|
        0 <= i <= j <= s.len() ==> i32::MIN <= #[trigger] seq_sum(s.subrange(i, j)) <= i32::MAX
}

/// The sum of a concatenation is the sum of its parts.
pub proof fn lemma_sum_concat(a: Seq<i32>, b: Seq<i32>)
    ensures
        seq_sum(a + b) == seq_sum(a) + seq_sum(b),
    decreases b.len(),
{
    if b.len() == 0 {
        assert(a + b =~= a);
    } else {
        assert((a + b).drop_last() =~= a + b.drop_last());
        lemma_sum_concat(a, b.drop_last());
    }
}

/// A run of a sequence whose runs all fit has runs that all fit.
pub proof fn lemma_fit_subrange(s: Seq<i32>, i: int, j: int)
    requires
        sums_fit(s),
        0 <= i <= j <= s.len(),
    ensures
        sums_fit(s.subrange(i, j)),
{
    let t = s.subrange(i, j);
    assert forall|x: int, y: int| 0 <= x <= y <= t.len() implies i32::MIN <= #[trigger] seq_sum(
        t.subrange(x, y),
    ) <= i32::MAX by {
        assert(t.subrange(x, y) =~= s.subrange(i + x, i + y));
    }
}

/// The whole of a sequence whose runs all fit has a sum that fits.
pub proof fn lemma_fit_whole(s: Seq<i32>)
    requires
        sums_fit(s),
    ensures
        i32::MIN <= seq_sum(s) <= i32::MAX,
{
    assert(s.subrange(0, s.len() as int) =~= s);
}

/// The sum of a single value is that value.
pub proof fn lemma_sum_single(x: i32)
    ensures
        seq_sum(seq![x]) == x,
{
    assert(seq![x].drop_last() =~= Seq::<i32>::empty());
    assert(seq_sum(Seq::<i32>::empty()) == 0);
}

} // verus!

//! Sums over sequences of integers, used to state the pool statistics.

use vstd::prelude::*;

verus! {

/// The sum of all entries of `s`.
pub open spec fn sum_ints(s: Seq<int>) -> int
    decreases s.len(),
{
    if s.len() == 0 {
        0
    } else {
        sum_ints(s.drop_last()) + s.last()
    }
}

/// Summing one more prefix entry adds that entry.
pub proof fn lemma_sum_take_step(s: Seq<int>, i: int)
    requires
        0 <= i < s.len(),
    ensures
        sum_ints(s.take(i + 1)) == sum_ints(s.take(i)) + s[i],
{
    assert(s.take(i + 1).drop_last() =~= s.take(i));
}

/// The whole sequence is its own full prefix.
pub proof fn lemma_sum_take_all(s: Seq<int>)
    ensures
        sum_ints(s.take(s.len() as int)) == sum_ints(s),
{
    assert(s.take(s.len() as int) =~= s);
}

/// Replacing one entry changes the sum by the difference.
pub proof fn lemma_sum_update(s: Seq<int>, i: int, v: int)
    requires
        0 <= i < s.len(),
    ensures
        sum_ints(s.update(i, v)) == sum_ints(s) - s[i] + v,
    decreases s.len(),
{
    if i == s.len() - 1 {
        assert(s.update(i, v).drop_last() =~= s.drop_last());
    } else {
        assert(s.update(i, v).drop_last() =~= s.drop_last().update(i, v));
        lemma_sum_update(s.drop_last(), i, v);
    }
}

/// Appending an entry adds it to the sum.
pub proof fn lemma_sum_push(s: Seq<int>, v: int)
    ensures
        sum_ints(s.push(v)) == sum_ints(s) + v,
{
    assert(s.push(v).drop_last() =~= s);
}

/// A sum of non-negative entries is at least any single entry.
pub proof fn lemma_sum_bounds(s: Seq<int>)
    requires
        forall|i: int| 0 <= i < s.len() ==> 0 <= #[trigger] s[i],
    ensures
        0 <= sum_ints(s),
        forall|i: int| 0 <= i < s.len() ==> #[trigger] s[i] <= sum_ints(s),
    decreases s.len(),
{
    if s.len() > 0 {
        lemma_sum_bounds(s.drop_last());
        assert forall|i: int| 0 <= i < s.len() implies #[trigger] s[i] <= sum_ints(s) by {
            if i < s.len() - 1 {
                assert(s.drop_last()[i] == s[i]);
            }
        }
    }
}

} // verus!

//! What the guessers share: the order in which attempts are weighed, and
//! the choice of the first attempt with the least score.

use vstd::prelude::*;
use crate::comb_utils::{
    lemma_lex_asymmetric_any, lemma_lex_total_any, lemma_lex_transitive_any, lex_less,
};

verus! {

/// The members of a vocabulary that are not in the pool.
pub open spec fn outside<T>(pool: Seq<T>) -> spec_fn(T) -> bool {
    |w: T| !pool.contains(w)
}

/// The order in which attempts are weighed: the pool first, then the rest
/// of the vocabulary. An empty pool leaves nothing to weigh.
pub open spec fn scan_order<T>(pool: Seq<T>, vocabulary: Seq<T>) -> Seq<T> {
    if pool.len() == 0 {
        Seq::empty()
    } else {
        pool + vocabulary.filter(outside(pool))
    }
}

/// Every attempt that is weighed comes from the pool or the vocabulary.
pub proof fn lemma_scan_order_members<T>(pool: Seq<T>, vocabulary: Seq<T>, t: int)
    requires
        0 <= t < scan_order(pool, vocabulary).len(),
    ensures
        t < pool.len() ==> scan_order(pool, vocabulary)[t] == pool[t],
        t >= pool.len() ==> vocabulary.contains(scan_order(pool, vocabulary)[t]),
{
    if t >= pool.len() {
        let rest = vocabulary.filter(outside(pool));
        assert(scan_order(pool, vocabulary)[t] == rest[t - pool.len()]);
        assert(rest.contains(rest[t - pool.len()]));
        vocabulary.lemma_filter_contains_rev(outside(pool), rest[t - pool.len()]);
    }
}

/// Place `idx` holds the first of the least scores, scores being compared
/// lexicographically.
pub open spec fn is_first_least(scores: Seq<Seq<int>>, idx: int) -> bool {
    &&& 0 <= idx < scores.len()
    &&& forall|j: int| 0 <= j < idx ==> lex_less(scores[idx], #[trigger] scores[j])
    &&& forall|j: int| idx < j < scores.len() ==> !lex_less(#[trigger] scores[j], scores[idx])
}

/// Weighing one more attempt: it takes the lead exactly if its score is
/// smaller than the leading one.
pub proof fn lemma_first_least_step(scores: Seq<Seq<int>>, best: int, t: int)
    requires
        0 < t < scores.len(),
        is_first_least(scores.take(t), best),
    ensures
        is_first_least(
            scores.take(t + 1),
            if lex_less(scores[t], scores[best]) {
                t
            } else {
                best
            },
        ),
{
    let before = scores.take(t);
    let after = scores.take(t + 1);
    assert(before[best] == scores[best]);
    if lex_less(scores[t], scores[best]) {
        assert forall|j: int| 0 <= j < t implies lex_less(after[t], #[trigger] after[j]) by {
            assert(after[j] == before[j]);
            if j < best {
                lemma_lex_transitive_any(scores[t], scores[best], scores[j]);
            } else if j > best {
                lemma_lex_total_any(scores[t], scores[j]);
                if scores[t] == scores[j] {
                } else if lex_less(scores[j], scores[t]) {
                    lemma_lex_transitive_any(scores[j], scores[t], scores[best]);
                }
            }
        }
    } else {
        assert forall|j: int| 0 <= j < best implies lex_less(after[best], #[trigger] after[j]) by {
            assert(after[j] == before[j]);
        }
        assert forall|j: int| best < j < after.len() implies !lex_less(
            #[trigger] after[j],
            after[best],
        ) by {
            if j < t {
                assert(after[j] == before[j]);
            }
        }
    }
}

/// The first of the least scores is a least score, and no earlier score is
/// as small.
pub proof fn lemma_first_least_is_least(scores: Seq<Seq<int>>, idx: int, j: int)
    requires
        is_first_least(scores, idx),
        0 <= j < scores.len(),
    ensures
        !lex_less(scores[j], scores[idx]),
        j < idx ==> scores[j] != scores[idx],
{
    if j < idx {
        lemma_lex_asymmetric_any(scores[idx], scores[j]);
    }
}

/// A score that is smaller than every other score is the first of the
/// least scores: where one attempt alone has the least score, it is chosen.
pub proof fn lemma_only_least_is_first(scores: Seq<Seq<int>>, idx: int, k: int)
    requires
        is_first_least(scores, idx),
        0 <= k < scores.len(),
        forall|j: int| 0 <= j < scores.len() && j != k ==> lex_less(scores[k], #[trigger] scores[j]),
    ensures
        idx == k,
{
    if idx != k {
        assert(lex_less(scores[k], scores[idx]));
        if k < idx {
            lemma_lex_asymmetric_any(scores[idx], scores[k]);
        }
    }
}

/// The sum of the entries.
pub open spec fn sum_of(s: Seq<int>) -> int
    decreases s.len(),
{
    if s.len() == 0 {
        0
    } else {
        sum_of(s.drop_last()) + s.last()
    }
}

/// `d` holds the sizes of the buckets, none of them empty, into which a
/// guess splits `total` candidates.
pub open spec fn is_distribution(d: Seq<int>, total: int) -> bool {
    &&& forall|i: int| 0 <= i < d.len() ==> #[trigger] d[i] > 0
    &&& sum_of(d) == total
}

/// The sums of two sequences add up in their concatenation.
pub proof fn lemma_sum_of_concat(a: Seq<int>, b: Seq<int>)
    ensures
        sum_of(a + b) == sum_of(a) + sum_of(b),
    decreases b.len(),
{
    if b.len() == 0 {
        assert(a + b =~= a);
    } else {
        lemma_sum_of_concat(a, b.drop_last());
        assert((a + b).drop_last() =~= a + b.drop_last());
    }
}

/// In a sum of entries that are not negative no entry exceeds the sum.
pub proof fn lemma_sum_of_bounds(s: Seq<int>, i: int)
    requires
        forall|k: int| 0 <= k < s.len() ==> #[trigger] s[k] >= 0,
        0 <= i < s.len(),
    ensures
        0 <= s[i] <= sum_of(s),
        0 <= sum_of(s.take(i)) <= sum_of(s),
        sum_of(s.take(i)) + s[i] <= sum_of(s),
    decreases s.len(),
{
    let t = s.drop_last();
    assert forall|k: int| 0 <= k < t.len() implies #[trigger] t[k] >= 0 by {
        assert(t[k] == s[k]);
    }
    lemma_sum_nonnegative(t);
    if i == s.len() - 1 {
        assert(s.take(i) =~= t);
    } else {
        lemma_sum_of_bounds(t, i);
        assert(t.take(i) =~= s.take(i));
        assert(s[s.len() - 1] >= 0);
    }
}

/// Entries that are not negative have a sum that is not negative.
pub proof fn lemma_sum_nonnegative(s: Seq<int>)
    requires
        forall|k: int| 0 <= k < s.len() ==> #[trigger] s[k] >= 0,
    ensures
        sum_of(s) >= 0,
    decreases s.len(),
{
    if s.len() > 0 {
        let t = s.drop_last();
        assert forall|k: int| 0 <= k < t.len() implies #[trigger] t[k] >= 0 by {
            assert(t[k] == s[k]);
        }
        lemma_sum_nonnegative(t);
        assert(s[s.len() - 1] >= 0);
    }
}

} // verus!

//! The objective that minimises the expected size of the pool after the
//! guess: the sum of the squares of the bucket sizes.

use vstd::prelude::*;
use crate::comb_utils::{first_difference, ints_of_usize, lex_less};
use crate::selection::{lemma_sum_of_bounds, sum_of};
use crate::strategy::TargetFunc;

verus! {

/// The sum of the squares of the entries.
pub open spec fn sum_of_squares(s: Seq<int>) -> int
    decreases s.len(),
{
    if s.len() == 0 {
        0
    } else {
        sum_of_squares(s.drop_last()) + s.last() * s.last()
    }
}

/// The squares of entries that are not negative sum to no more than the
/// square of their sum.
pub proof fn lemma_squares_bound(s: Seq<int>)
    requires
        forall|k: int| 0 <= k < s.len() ==> #[trigger] s[k] >= 0,
    ensures
        0 <= sum_of_squares(s) <= sum_of(s) * sum_of(s),
        0 <= sum_of(s),
    decreases s.len(),
{
    if s.len() > 0 {
        let t = s.drop_last();
        assert forall|k: int| 0 <= k < t.len() implies #[trigger] t[k] >= 0 by {
            assert(t[k] == s[k]);
        }
        lemma_squares_bound(t);
        let a = sum_of(t);
        let q = sum_of_squares(t);
        let x = s.last();
        assert(s[s.len() - 1] >= 0);
        assert(0 <= q + x * x <= (a + x) * (a + x)) by (nonlinear_arith)
            requires
                0 <= q <= a * a,
                0 <= a,
                0 <= x,
        ;
    } else {
        assert(0 * 0 == 0) by (nonlinear_arith);
    }
}

/// The objective that minimises the expected size of the pool after the
/// guess.
pub struct MinAvgFunc {}

impl TargetFunc for MinAvgFunc {
    type EvaluationResult = u128;

    open spec fn score(distribution: Seq<int>, current_candidates: int) -> Seq<int> {
        seq![sum_of_squares(distribution)]
    }

    open spec fn result_view(r: &u128) -> Seq<int> {
        seq![*r as int]
    }

    fn new(n: i32) -> Self {
        MinAvgFunc {  }
    }

    fn evaluate_distribution(&self, distribution: &[usize], current_candidates: usize) -> (r: u128) {
        let ghost d = ints_of_usize(distribution@);
        let mut sum: u128 = 0;
        let mut i: usize = 0;
        while i < distribution.len()
            invariant
                i <= distribution.len(),
                d == ints_of_usize(distribution@),
                sum_of(d) == current_candidates,
                forall|k: int| 0 <= k < d.len() ==> #[trigger] d[k] > 0,
                sum == sum_of_squares(d.take(i as int)),
            decreases distribution.len() - i,
        {
            let x = distribution[i] as u128;
            proof {
                let longer = d.take(i + 1);
                assert(longer.drop_last() =~= d.take(i as int));
                assert(longer.last() == x);
                assert forall|k: int| 0 <= k < longer.len() implies #[trigger] longer[k] >= 0 by {
                    assert(longer[k] == d[k]);
                }
                lemma_squares_bound(longer);
                assert forall|k: int| 0 <= k < d.len() implies #[trigger] d[k] >= 0 by {}
                lemma_sum_of_bounds(d, i as int);
                assert(sum_of(longer) == sum_of(d.take(i as int)) + d[i as int]);
                let total = sum_of(longer);
                assert(0 <= total <= usize::MAX);
                assert(total * total <= 0xFFFF_FFFF_FFFF_FFFF * 0xFFFF_FFFF_FFFF_FFFF)
                    by (nonlinear_arith)
                    requires
                        0 <= total <= 0xFFFF_FFFF_FFFF_FFFF,
                ;
                assert(x * x <= total * total) by (nonlinear_arith)
                    requires
                        0 <= x <= total,
                ;
            }
            sum += x * x;
            i += 1;
        }
        proof {
            assert(d.take(distribution@.len() as int) =~= d);
        }
        sum
    }

    fn is_better(&self, a: &u128, b: &u128) -> (r: bool) {
        proof {
            let x = seq![*a as int];
            let y = seq![*b as int];
            if *a < *b {
                assert(first_difference(x, y, 0));
            } else if lex_less(x, y) {
                let m = choose|m: int| first_difference(x, y, m);
            }
        }
        *a < *b
    }
}

} // verus!

//! The objective that minimises the worst case: the largest bucket first,
//! then the next largest, and so on.

use vstd::prelude::*;
use crate::comb_utils::{first_difference, ints_of_usize, lex_less, non_increasing_from};
use crate::counting::{count_of, lemma_count_push, same_counts};
use crate::strategy::TargetFunc;

verus! {

/// The sequence `s`, which does not rise, with `x` put behind the last
/// entry that is not smaller than `x`.
pub open spec fn insert_descending(s: Seq<int>, x: int) -> Seq<int>
    decreases s.len(),
{
    if s.len() == 0 {
        seq![x]
    } else if s.last() >= x {
        s.push(x)
    } else {
        insert_descending(s.drop_last(), x).push(s.last())
    }
}

/// The entries of `s` in falling order.
pub open spec fn descending(s: Seq<int>) -> Seq<int>
    decreases s.len(),
{
    if s.len() == 0 {
        Seq::empty()
    } else {
        insert_descending(descending(s.drop_last()), s.last())
    }
}

proof fn lemma_insert_descending(s: Seq<int>, x: int)
    requires
        non_increasing_from(s, 0),
    ensures
        non_increasing_from(insert_descending(s, x), 0),
        insert_descending(s, x).len() == s.len() + 1,
        forall|v: int| #[trigger]
            count_of(insert_descending(s, x), v) == count_of(s, v) + if x == v {
                1nat
            } else {
                0nat
            },
    decreases s.len(),
{
    let r = insert_descending(s, x);
    if s.len() == 0 {
        assert forall|v: int| #[trigger] count_of(r, v) == count_of(s, v) + if x == v {
            1nat
        } else {
            0nat
        } by {
            lemma_count_push(s, x, v);
            assert(s.push(x) =~= r);
        }
    } else if s.last() >= x {
        assert forall|v: int| #[trigger] count_of(r, v) == count_of(s, v) + if x == v {
            1nat
        } else {
            0nat
        } by {
            lemma_count_push(s, x, v);
        }
        assert forall|k: int| 0 <= k < r.len() - 1 implies r[k] >= #[trigger] r[k + 1] by {
            if k + 1 < s.len() {
                assert(s[k] >= s[k + 1]);
            }
        }
    } else {
        let s0 = s.drop_last();
        let r0 = insert_descending(s0, x);
        assert(non_increasing_from(s0, 0)) by {
            assert forall|k: int| 0 <= k < s0.len() - 1 implies s0[k] >= #[trigger] s0[k + 1] by {
                assert(s[k] >= s[k + 1]);
            }
        }
        lemma_insert_descending(s0, x);
        assert(r0.last() >= s.last()) by {
            if s0.len() > 0 && s0.last() < x {
                assert(s[s.len() - 2] >= s[s.len() - 2 + 1]);
            } else if s0.len() > 0 {
            }
        }
        assert forall|v: int| #[trigger] count_of(r, v) == count_of(s, v) + if x == v {
            1nat
        } else {
            0nat
        } by {
            lemma_count_push(r0, s.last(), v);
            assert(count_of(r0, v) == count_of(s0, v) + if x == v {
                1nat
            } else {
                0nat
            });
        }
        assert forall|k: int| 0 <= k < r.len() - 1 implies r[k] >= #[trigger] r[k + 1] by {
            if k + 1 < r0.len() {
                assert(r0[k] >= r0[k + 1]);
            } else {
                assert(r[k] == r0.last());
            }
        }
    }
}

/// The falling order of `s` holds the entries of `s` and does not rise.
pub proof fn lemma_descending(s: Seq<int>)
    ensures
        non_increasing_from(descending(s), 0),
        same_counts(descending(s), s),
    decreases s.len(),
{
    if s.len() > 0 {
        lemma_descending(s.drop_last());
        lemma_insert_descending(descending(s.drop_last()), s.last());
        assert forall|v: int| #[trigger] count_of(descending(s), v) == count_of(s, v) by {
            assert(count_of(descending(s.drop_last()), v) == count_of(s.drop_last(), v));
        }
    }
}

/// Where `x` goes in a sequence that does not rise: the place `j` behind
/// the last entry that is not smaller than `x`.
proof fn lemma_insert_descending_at(s: Seq<int>, x: int, j: int)
    requires
        0 <= j <= s.len(),
        j > 0 ==> s[j - 1] >= x,
        forall|k: int| j <= k < s.len() ==> s[k] < x,
    ensures
        insert_descending(s, x) == s.insert(j, x),
    decreases s.len(),
{
    if s.len() == 0 {
        assert(s.insert(j, x) =~= seq![x]);
    } else if j == s.len() {
        assert(s.insert(j, x) =~= s.push(x));
    } else {
        assert(s[s.len() - 1] < x);
        lemma_insert_descending_at(s.drop_last(), x, j);
        assert(s.insert(j, x) =~= s.drop_last().insert(j, x).push(s.last()));
    }
}

/// Whether `a` comes before `b` in lexicographic order.
pub fn lex_smaller(a: &Vec<usize>, b: &Vec<usize>) -> (r: bool)
    ensures
        r == lex_less(ints_of_usize(a@), ints_of_usize(b@)),
{
    let ghost x = ints_of_usize(a@);
    let ghost y = ints_of_usize(b@);
    let mut k: usize = 0;
    while k < a.len() && k < b.len()
        invariant
            k <= a.len(),
            k <= b.len(),
            x == ints_of_usize(a@),
            y == ints_of_usize(b@),
            forall|j: int| 0 <= j < k ==> x[j] == y[j],
        decreases a.len() - k,
    {
        if a[k] < b[k] {
            assert(first_difference(x, y, k as int));
            return true;
        }
        if a[k] > b[k] {
            proof {
                assert(x[k as int] > y[k as int]);
                if lex_less(x, y) {
                    if exists|m: int| first_difference(x, y, m) {
                        let m = choose|m: int| first_difference(x, y, m);
                        if m < k {
                            assert(x[m] == y[m]);
                        } else if m > k {
                            assert(x[k as int] == y[k as int]);
                        }
                    } else {
                        assert(x[k as int] == y[k as int]);
                    }
                }
            }
            return false;
        }
        k += 1;
    }
    proof {
        if exists|m: int| first_difference(x, y, m) {
            let m = choose|m: int| first_difference(x, y, m);
            assert(x[m] == y[m]);
        }
    }
    a.len() < b.len()
}

/// The objective that minimises the worst case.
pub struct MinMaxFunc {}

impl TargetFunc for MinMaxFunc {
    type EvaluationResult = Vec<usize>;

    open spec fn score(distribution: Seq<int>, current_candidates: int) -> Seq<int> {
        descending(distribution)
    }

    open spec fn result_view(r: &Vec<usize>) -> Seq<int> {
        ints_of_usize(r@)
    }

    fn new(n: i32) -> Self {
        MinMaxFunc {  }
    }

    fn evaluate_distribution(&self, distribution: &[usize], current_candidates: usize) -> (r: Vec<
        usize,
    >) {
        let ghost d = ints_of_usize(distribution@);
        let mut res: Vec<usize> = Vec::new();
        let mut i: usize = 0;
        proof {
            assert(ints_of_usize(res@) =~= descending(d.take(0)));
        }
        while i < distribution.len()
            invariant
                i <= distribution.len(),
                d == ints_of_usize(distribution@),
                ints_of_usize(res@) == descending(d.take(i as int)),
            decreases distribution.len() - i,
        {
            let x = distribution[i];
            let ghost s = ints_of_usize(res@);
            proof {
                lemma_descending(d.take(i as int));
                assert(d.take(i + 1).drop_last() =~= d.take(i as int));
                assert(d.take(i + 1).last() == x);
            }
            let mut j: usize = res.len();
            while j > 0 && res[j - 1] < x
                invariant
                    j <= res.len(),
                    s == ints_of_usize(res@),
                    forall|k: int| j <= k < s.len() ==> s[k] < x,
                decreases j,
            {
                j -= 1;
            }
            proof {
                lemma_insert_descending_at(s, x as int, j as int);
            }
            res.insert(j, x);
            proof {
                assert(ints_of_usize(res@) =~= s.insert(j as int, x as int));
            }
            i += 1;
        }
        proof {
            assert(d.take(distribution@.len() as int) =~= d);
        }
        res
    }

    fn is_better(&self, a: &Vec<usize>, b: &Vec<usize>) -> (r: bool) {
        lex_smaller(a, b)
    }
}

} // verus!

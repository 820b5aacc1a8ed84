//! Lexicographic stepping through arrangements: the next permutation of a
//! multiset, the next state of an odometer, and the next combination.

use vstd::prelude::*;
use crate::counting::{
    count_of, lemma_count_concat, lemma_count_reverse, lemma_count_split, lemma_suffix_witness,
    lemma_swap_same_counts, same_counts,
};

verus! {

/// The symbols of a byte sequence as mathematical integers.
pub open spec fn ints_of_u8(s: Seq<u8>) -> Seq<int> {
    Seq::new(s.len(), |i: int| s[i] as int)
}

/// The entries of an index sequence as mathematical integers.
pub open spec fn ints_of_usize(s: Seq<usize>) -> Seq<int> {
    Seq::new(s.len(), |i: int| s[i] as int)
}

/// `a` and `b` agree before `k`, and `a` is smaller at `k`.
pub open spec fn first_difference(a: Seq<int>, b: Seq<int>, k: int) -> bool {
    &&& 0 <= k < a.len()
    &&& k < b.len()
    &&& forall|j: int| 0 <= j < k ==> a[j] == b[j]
    &&& a[k] < b[k]
}

/// Strict lexicographic order.
pub open spec fn lex_less(a: Seq<int>, b: Seq<int>) -> bool {
    ||| exists|k: int| first_difference(a, b, k)
    ||| (a.len() < b.len() && forall|j: int| 0 <= j < a.len() ==> a[j] == b[j])
}

/// No rearrangement of `s` is lexicographically greater than `s`.
pub open spec fn is_last_arrangement(s: Seq<int>) -> bool {
    forall|p: Seq<int>| #[trigger] same_counts(p, s) ==> !lex_less(s, p)
}

/// No rearrangement of `s` is lexicographically smaller than `s`.
pub open spec fn is_first_arrangement(s: Seq<int>) -> bool {
    forall|p: Seq<int>| #[trigger] same_counts(p, s) ==> !lex_less(p, s)
}

/// `t` is the rearrangement of `s` that follows `s` immediately in
/// lexicographic order.
pub open spec fn is_next_arrangement(s: Seq<int>, t: Seq<int>) -> bool {
    &&& same_counts(t, s)
    &&& lex_less(s, t)
    &&& forall|p: Seq<int>| #[trigger] same_counts(p, s) ==> !(lex_less(s, p) && lex_less(p, t))
}

/// From place `from` on, no entry of `s` is greater than the one before.
pub open spec fn non_increasing_from(s: Seq<int>, from: int) -> bool {
    forall|k: int| from <= k < s.len() - 1 ==> s[k] >= #[trigger] s[k + 1]
}

/// From place `from` on, no entry of `s` is smaller than the one before.
pub open spec fn non_decreasing_from(s: Seq<int>, from: int) -> bool {
    forall|k: int| from <= k < s.len() - 1 ==> s[k] <= #[trigger] s[k + 1]
}

/// Of two sequences of one length, one is smaller or they are equal.
pub proof fn lemma_lex_total(a: Seq<int>, b: Seq<int>)
    requires
        a.len() == b.len(),
    ensures
        a == b || lex_less(a, b) || lex_less(b, a),
{
    lemma_lex_total_from(a, b, 0);
}

proof fn lemma_lex_total_from(a: Seq<int>, b: Seq<int>, k: int)
    requires
        a.len() == b.len(),
        0 <= k <= a.len(),
        forall|j: int| 0 <= j < k ==> a[j] == b[j],
    ensures
        a == b || lex_less(a, b) || lex_less(b, a),
    decreases a.len() - k,
{
    if k == a.len() {
        assert(a =~= b);
    } else if a[k] < b[k] {
        assert(first_difference(a, b, k));
    } else if b[k] < a[k] {
        assert(first_difference(b, a, k));
    } else {
        lemma_lex_total_from(a, b, k + 1);
    }
}

/// The place where a smaller sequence of the same length first differs.
pub proof fn lemma_lex_witness(a: Seq<int>, b: Seq<int>) -> (k: int)
    requires
        a.len() == b.len(),
        lex_less(a, b),
    ensures
        first_difference(a, b, k),
{
    choose|k: int| first_difference(a, b, k)
}

/// Of two sequences of one length at most one is smaller than the other,
/// and a smaller one is a different one.
pub proof fn lemma_lex_asymmetric(a: Seq<int>, b: Seq<int>)
    requires
        a.len() == b.len(),
        lex_less(a, b),
    ensures
        !lex_less(b, a),
        a != b,
{
    let k = lemma_lex_witness(a, b);
    if lex_less(b, a) {
        let m = lemma_lex_witness(b, a);
        if m < k {
            assert(a[m] == b[m]);
        } else if k < m {
            assert(b[k] == a[k]);
        }
    }
}

/// Among sequences of one length the lexicographic order is transitive.
pub proof fn lemma_lex_transitive(a: Seq<int>, b: Seq<int>, c: Seq<int>)
    requires
        a.len() == b.len(),
        b.len() == c.len(),
        lex_less(a, b),
        lex_less(b, c),
    ensures
        lex_less(a, c),
{
    let k = lemma_lex_witness(a, b);
    let m = lemma_lex_witness(b, c);
    if k <= m {
        assert(first_difference(a, c, k));
    } else {
        assert(first_difference(a, c, m));
    }
}

/// Of any two sequences one is smaller or they are equal.
pub proof fn lemma_lex_total_any(a: Seq<int>, b: Seq<int>)
    ensures
        a == b || lex_less(a, b) || lex_less(b, a),
{
    lemma_lex_total_any_from(a, b, 0);
}

proof fn lemma_lex_total_any_from(a: Seq<int>, b: Seq<int>, k: int)
    requires
        0 <= k <= a.len(),
        k <= b.len(),
        forall|j: int| 0 <= j < k ==> a[j] == b[j],
    ensures
        a == b || lex_less(a, b) || lex_less(b, a),
    decreases a.len() - k,
{
    if k == a.len() || k == b.len() {
        if a.len() == b.len() {
            assert(a =~= b);
        }
    } else if a[k] < b[k] {
        assert(first_difference(a, b, k));
    } else if b[k] < a[k] {
        assert(first_difference(b, a, k));
    } else {
        lemma_lex_total_any_from(a, b, k + 1);
    }
}

/// No sequence is smaller than itself, and of two sequences at most one is
/// smaller than the other.
pub proof fn lemma_lex_asymmetric_any(a: Seq<int>, b: Seq<int>)
    requires
        lex_less(a, b),
    ensures
        !lex_less(b, a),
        a != b,
{
    if exists|k: int| first_difference(a, b, k) {
        let k = choose|k: int| first_difference(a, b, k);
        if exists|m: int| first_difference(b, a, m) {
            let m = choose|m: int| first_difference(b, a, m);
            if m < k {
                assert(a[m] == b[m]);
            } else if k < m {
                assert(b[k] == a[k]);
            }
        } else if lex_less(b, a) {
            assert(b[k] == a[k]);
        }
    } else {
        if exists|m: int| first_difference(b, a, m) {
            let m = choose|m: int| first_difference(b, a, m);
            assert(a[m] == b[m]);
        }
    }
}

/// The lexicographic order is transitive.
pub proof fn lemma_lex_transitive_any(a: Seq<int>, b: Seq<int>, c: Seq<int>)
    requires
        lex_less(a, b),
        lex_less(b, c),
    ensures
        lex_less(a, c),
{
    if exists|k: int| first_difference(a, b, k) {
        let k = choose|k: int| first_difference(a, b, k);
        if exists|m: int| first_difference(b, c, m) {
            let m = choose|m: int| first_difference(b, c, m);
            if k <= m {
                assert(first_difference(a, c, k));
            } else {
                assert(first_difference(a, c, m));
            }
        } else {
            assert(first_difference(a, c, k));
        }
    } else {
        if exists|m: int| first_difference(b, c, m) {
            let m = choose|m: int| first_difference(b, c, m);
            if m < a.len() {
                assert(first_difference(a, c, m));
            }
        }
    }
}

/// A sequence that lies strictly between two sequences which agree before
/// `i` first differs from either at or after `i`.
pub proof fn lemma_lex_between(s: Seq<int>, p: Seq<int>, t: Seq<int>, i: int) -> (w: (int, int))
    requires
        s.len() == p.len(),
        p.len() == t.len(),
        0 <= i <= s.len(),
        forall|k: int| 0 <= k < i ==> s[k] == t[k],
        lex_less(s, p),
        lex_less(p, t),
    ensures
        first_difference(s, p, w.0),
        first_difference(p, t, w.1),
        i <= w.0,
        i <= w.1,
{
    let k1 = lemma_lex_witness(s, p);
    let k2 = lemma_lex_witness(p, t);
    if k1 < i {
        if k2 > k1 {
            assert(p[k1] == t[k1]);
        } else if k2 < k1 {
            assert(s[k2] == p[k2]);
        }
        assert(false);
    }
    if k2 < i {
        assert(s[k2] == p[k2]);
        assert(false);
    }
    (k1, k2)
}

/// In a stretch that does not rise an earlier entry is not smaller than a
/// later one.
pub proof fn lemma_non_increasing_pair(s: Seq<int>, from: int, x: int, y: int)
    requires
        non_increasing_from(s, from),
        0 <= from <= x <= y < s.len(),
    ensures
        s[x] >= s[y],
    decreases y - x,
{
    if x < y {
        lemma_non_increasing_pair(s, from, x, y - 1);
        assert(s[y - 1] >= s[y - 1 + 1]);
    }
}

/// In a stretch that does not fall an earlier entry is not greater than a
/// later one.
pub proof fn lemma_non_decreasing_pair(s: Seq<int>, from: int, x: int, y: int)
    requires
        non_decreasing_from(s, from),
        0 <= from <= x <= y < s.len(),
    ensures
        s[x] <= s[y],
    decreases y - x,
{
    if x < y {
        lemma_non_decreasing_pair(s, from, x, y - 1);
        assert(s[y - 1] <= s[y - 1 + 1]);
    }
}

/// A rearrangement that agrees with `s` before `k`, where `s` does not
/// increase from `k` on, is not greater than `s` at `k`.
proof fn lemma_tail_non_increasing_bound(s: Seq<int>, p: Seq<int>, from: int, k: int)
    requires
        same_counts(p, s),
        0 <= from <= k < s.len(),
        non_increasing_from(s, from),
        forall|j: int| 0 <= j < k ==> s[j] == p[j],
    ensures
        p[k] <= s[k],
{
    assert(p.take(k) =~= s.take(k));
    let m = lemma_suffix_witness(p, s, k);
    lemma_non_increasing_pair(s, from, k, m);
}

/// A rearrangement that agrees with `t` before `k`, where `t` does not
/// decrease from `k` on, is not smaller than `t` at `k`.
proof fn lemma_tail_non_decreasing_bound(t: Seq<int>, p: Seq<int>, from: int, k: int)
    requires
        same_counts(p, t),
        0 <= from <= k < t.len(),
        non_decreasing_from(t, from),
        forall|j: int| 0 <= j < k ==> p[j] == t[j],
    ensures
        p[k] >= t[k],
{
    assert(p.take(k) =~= t.take(k));
    let m = lemma_suffix_witness(p, t, k);
    lemma_non_decreasing_pair(t, from, k, m);
}

/// A sequence that never increases is its own last arrangement.
pub proof fn lemma_non_increasing_is_last(s: Seq<int>)
    requires
        non_increasing_from(s, 0),
    ensures
        is_last_arrangement(s),
{
    assert forall|p: Seq<int>| #[trigger] same_counts(p, s) implies !lex_less(s, p) by {
        if lex_less(s, p) {
            let k = lemma_lex_witness(s, p);
            lemma_tail_non_increasing_bound(s, p, 0, k);
        }
    }
}

/// A sequence that never decreases is its own first arrangement.
pub proof fn lemma_non_decreasing_is_first(s: Seq<int>)
    requires
        non_decreasing_from(s, 0),
    ensures
        is_first_arrangement(s),
{
    assert forall|p: Seq<int>| #[trigger] same_counts(p, s) implies !lex_less(p, s) by {
        if lex_less(p, s) {
            let k = lemma_lex_witness(p, s);
            lemma_tail_non_decreasing_bound(s, p, 0, k);
        }
    }
}

/// The pivot construction yields the immediate successor: `s` rises at `i`
/// and falls after it, `j` is the last place that exceeds `s[i]`, and `t`
/// holds `s[j]` at `i` followed by the remaining tail in rising order.
proof fn lemma_pivot_successor(s: Seq<int>, t: Seq<int>, i: int, j: int)
    requires
        same_counts(t, s),
        0 <= i < j < s.len(),
        non_increasing_from(s, i + 1),
        non_decreasing_from(t, i + 1),
        s[i] < s[j],
        forall|k: int| j < k < s.len() ==> s[k] <= s[i],
        forall|k: int| 0 <= k < i ==> t[k] == s[k],
        t[i] == s[j],
    ensures
        is_next_arrangement(s, t),
{
    assert(first_difference(s, t, i));
    assert forall|p: Seq<int>| #[trigger] same_counts(p, s) implies !(lex_less(s, p) && lex_less(
        p,
        t,
    )) by {
        if lex_less(s, p) && lex_less(p, t) {
            let (k1, k2) = lemma_lex_between(s, p, t, i);
            if k1 > i {
                lemma_tail_non_increasing_bound(s, p, i + 1, k1);
            } else {
                // p[i] > s[i]
                if k2 > i {
                    assert forall|v: int| #[trigger] count_of(p, v) == count_of(t, v) by {
                        assert(count_of(p, v) == count_of(s, v));
                        assert(count_of(t, v) == count_of(s, v));
                    }
                    lemma_tail_non_decreasing_bound(t, p, i + 1, k2);
                } else {
                    // s[i] < p[i] < s[j]: no such value lies in the tail
                    assert(p.take(i) =~= s.take(i));
                    let m = lemma_suffix_witness(p, s, i);
                    if m > j {
                        assert(s[m] <= s[i]);
                    } else {
                        lemma_non_increasing_pair(s, i + 1, m, j);
                    }
                }
            }
        }
    }
}

/// Rearranges `a` into the arrangement that follows it in lexicographic
/// order and returns `true`; returns `false`, leaving `a` as it is, when `a`
/// is already the last arrangement of its symbols.
pub fn next_permutation(a: &mut [u8]) -> (moved: bool)
    ensures
        moved ==> is_next_arrangement(ints_of_u8(old(a)@), ints_of_u8(final(a)@)),
        !moved ==> final(a)@ == old(a)@ && is_last_arrangement(ints_of_u8(old(a)@)),
{
    let ghost s = ints_of_u8(a@);
    let n = a.len();
    if n < 2 {
        proof {
            lemma_non_increasing_is_last(s);
        }
        return false;
    }
    let mut i = n - 2;
    while a[i] >= a[i + 1]
        invariant
            n == a.len(),
            i + 1 < n,
            a@ == old(a)@,
            s == ints_of_u8(a@),
            non_increasing_from(s, i + 1),
        decreases i,
    {
        if i == 0 {
            proof {
                assert forall|k: int| 0 <= k < s.len() - 1 implies s[k] >= #[trigger] s[k + 1] by {
                    if k > 0 {
                        assert(s[(k - 1) + 1 + 1] <= s[k]);
                    }
                }
                lemma_non_increasing_is_last(s);
            }
            return false;
        }
        proof {
            assert forall|k: int| i <= k < s.len() - 1 implies s[k] >= #[trigger] s[k + 1] by {}
        }
        i -= 1;
    }
    let mut j = n - 1;
    while a[i] >= a[j]
        invariant
            n == a.len(),
            i + 1 < n,
            i < j < n,
            a@ == old(a)@,
            s == ints_of_u8(a@),
            s[i as int] < s[i + 1],
            forall|k: int| j < k < n ==> s[k] <= s[i as int],
        decreases j,
    {
        j -= 1;
    }
    let x = a[i];
    let y = a[j];
    a[i] = y;
    a[j] = x;
    let ghost w = s.update(i as int, s[j as int]).update(j as int, s[i as int]);
    proof {
        assert(ints_of_u8(a@) =~= w);
        lemma_swap_same_counts(s, i as int, j as int);
        assert forall|k: int| i + 1 <= k < w.len() - 1 implies w[k] >= #[trigger] w[k + 1] by {
            assert(s[k] >= s[k + 1]);
            if k == j {
                assert(s[k + 1] <= s[i as int]);
            }
            if k + 1 == j {
                lemma_non_increasing_pair(s, i + 1, k, j as int);
            }
        }
    }
    let mut lo = i + 1;
    let mut hi = n - 1;
    while lo < hi
        invariant
            n == a.len(),
            n == w.len(),
            i + 1 <= lo <= n,
            hi < n,
            lo + hi == i + n,
            forall|k: int| 0 <= k <= i ==> a@[k] as int == w[k],
            forall|k: int| lo <= k <= hi ==> a@[k] as int == w[k],
            forall|k: int| i < k < lo || hi < k < n ==> a@[k] as int == w[i + n - k],
        decreases n - lo,
    {
        let u = a[lo];
        let v = a[hi];
        a[lo] = v;
        a[hi] = u;
        lo += 1;
        hi -= 1;
    }
    proof {
        let t = ints_of_u8(a@);
        let tail = w.skip(i + 1);
        assert(t =~= w.take(i + 1) + tail.reverse());
        assert forall|v: int| #[trigger] count_of(t, v) == count_of(s, v) by {
            lemma_count_concat(w.take(i + 1), tail.reverse(), v);
            lemma_count_reverse(tail, v);
            lemma_count_split(w, i + 1, v);
            assert(count_of(w, v) == count_of(s, v));
        }
        assert forall|k: int| i + 1 <= k < t.len() - 1 implies t[k] <= #[trigger] t[k + 1] by {
            assert(w[(i + n - k - 1)] >= w[(i + n - k - 1) + 1]);
        }
        lemma_pivot_successor(s, t, i as int, j as int);
    }
    true
}

/// Every digit to the right of place `i` stands at `maxval`, so that a step
/// of the odometer carries into place `i`.
pub open spec fn carries_into(s: Seq<u8>, maxval: u8, i: int) -> bool {
    forall|k: int| i < k < s.len() ==> s[k] == maxval
}

/// The odometer reading that follows `s`: a digit changes where the carry
/// reaches it; there a digit at `maxval` falls to 0 and any other digit rises
/// by one.
pub open spec fn odometer_step(s: Seq<u8>, maxval: u8) -> Seq<u8> {
    Seq::new(
        s.len(),
        |i: int|
            if carries_into(s, maxval, i) {
                if s[i] == maxval {
                    0u8
                } else {
                    (s[i] + 1) as u8
                }
            } else {
                s[i]
            },
    )
}

/// Every digit of `s` stands at `maxval`.
pub open spec fn all_at_max(s: Seq<u8>, maxval: u8) -> bool {
    forall|k: int| 0 <= k < s.len() ==> s[k] == maxval
}

/// Advances the odometer `a`, whose digits roll over after `maxval`, by one
/// step. Returns `false` when every digit stood at `maxval` (the reading is
/// then all zeros again, or empty), and `true` otherwise.
pub fn increase_vector(a: &mut [u8], maxval: u8) -> (moved: bool)
    requires
        forall|i: int| 0 <= i < old(a)@.len() && old(a)@[i] != maxval ==> old(a)@[i] < u8::MAX,
    ensures
        final(a)@ == odometer_step(old(a)@, maxval),
        moved == !all_at_max(old(a)@, maxval),
{
    let mut l = a.len();
    loop
        invariant
            l <= a.len(),
            a.len() == old(a).len(),
            forall|k: int| 0 <= k < l ==> a@[k] == old(a)@[k],
            forall|k: int| l <= k < a.len() ==> old(a)@[k] == maxval && a@[k] == 0,
            forall|i: int| 0 <= i < old(a)@.len() && old(a)@[i] != maxval ==> old(a)@[i] < u8::MAX,
        decreases l,
    {
        if l == 0 {
            assert(a@ =~= odometer_step(old(a)@, maxval));
            return false;
        }
        l -= 1;
        if a[l] == maxval {
            a[l] = 0;
        } else {
            a[l] += 1;
            proof {
                assert(old(a)@[l as int] != maxval);
                assert forall|k: int| 0 <= k < a.len() implies a@[k] == odometer_step(
                    old(a)@,
                    maxval,
                )[k] by {
                    if k < l {
                        assert(!carries_into(old(a)@, maxval, k));
                    }
                }
                assert(a@ =~= odometer_step(old(a)@, maxval));
            }
            return true;
        }
    }
}

/// `s` rises strictly and holds values from 0 to `max_val`: it lists the
/// members of a set of `s.len()` such values.
pub open spec fn is_combination(s: Seq<int>, max_val: int) -> bool {
    &&& forall|i: int, j: int| 0 <= i < j < s.len() ==> s[i] < s[j]
    &&& forall|i: int| 0 <= i < s.len() ==> 0 <= #[trigger] s[i] <= max_val
}

/// No combination of the same size follows `s` in lexicographic order.
pub open spec fn is_last_combination(s: Seq<int>, max_val: int) -> bool {
    forall|p: Seq<int>|
        p.len() == s.len() && #[trigger] is_combination(p, max_val) ==> !lex_less(s, p)
}

/// `t` is the combination that follows `s` immediately in lexicographic
/// order, among those of the same size.
pub open spec fn is_next_combination(s: Seq<int>, t: Seq<int>, max_val: int) -> bool {
    &&& t.len() == s.len()
    &&& is_combination(t, max_val)
    &&& lex_less(s, t)
    &&& forall|p: Seq<int>|
        p.len() == s.len() && #[trigger] is_combination(p, max_val) ==> !(lex_less(s, p)
            && lex_less(p, t))
}

/// In a combination, place `k` leaves room for the places after it.
pub proof fn lemma_combination_upper(s: Seq<int>, max_val: int, k: int)
    requires
        is_combination(s, max_val),
        0 <= k < s.len(),
    ensures
        s[k] <= max_val - (s.len() - 1 - k),
    decreases s.len() - k,
{
    if k < s.len() - 1 {
        lemma_combination_upper(s, max_val, k + 1);
    }
}

/// In a combination, place `k` holds at least `k`.
pub proof fn lemma_combination_lower(s: Seq<int>, max_val: int, k: int)
    requires
        is_combination(s, max_val),
        0 <= k < s.len(),
    ensures
        s[k] >= k,
    decreases k,
{
    if k > 0 {
        lemma_combination_lower(s, max_val, k - 1);
    }
}

proof fn lemma_combination_last(s: Seq<int>, max_val: int)
    requires
        is_combination(s, max_val),
        forall|k: int| 0 <= k < s.len() ==> s[k] == max_val - (s.len() - 1 - k),
    ensures
        is_last_combination(s, max_val),
{
    assert forall|p: Seq<int>|
        p.len() == s.len() && #[trigger] is_combination(p, max_val) implies !lex_less(s, p) by {
        if lex_less(s, p) {
            let k = lemma_lex_witness(s, p);
            lemma_combination_upper(p, max_val, k);
        }
    }
}

/// Between two places of a combination the values differ by at least the
/// distance of the places.
proof fn lemma_rising_gap(s: Seq<int>, max_val: int, x: int, y: int)
    requires
        is_combination(s, max_val),
        0 <= x <= y < s.len(),
    ensures
        s[y] - s[x] >= y - x,
    decreases y - x,
{
    if x < y {
        lemma_rising_gap(s, max_val, x, y - 1);
    }
}

proof fn lemma_combination_successor(s: Seq<int>, t: Seq<int>, max_val: int, i: int)
    requires
        is_combination(s, max_val),
        t.len() == s.len(),
        0 <= i < s.len(),
        forall|k: int| 0 <= k < i ==> t[k] == s[k],
        forall|k: int| i < k < s.len() ==> s[k] == max_val - (s.len() - 1 - k),
        s[i] < max_val - (s.len() - 1 - i),
        forall|k: int| i <= k < s.len() ==> t[k] == s[i] + 1 + (k - i),
    ensures
        is_next_combination(s, t, max_val),
{
    assert(is_combination(t, max_val)) by {
        assert forall|x: int, y: int| 0 <= x < y < t.len() implies t[x] < t[y] by {
            if x < i {
                lemma_rising_gap(s, max_val, x, i);
            }
        }
        assert forall|x: int| 0 <= x < t.len() implies 0 <= #[trigger] t[x] <= max_val by {
            if x < i {
                assert(0 <= s[x] <= max_val);
            } else {
                assert(0 <= s[i]);
            }
        }
    }
    assert(first_difference(s, t, i));
    assert forall|p: Seq<int>|
        p.len() == s.len() && #[trigger] is_combination(p, max_val) implies !(lex_less(s, p)
            && lex_less(p, t)) by {
        if lex_less(s, p) && lex_less(p, t) {
            let (k1, k2) = lemma_lex_between(s, p, t, i);
            if k1 > i {
                lemma_combination_upper(p, max_val, k1);
            } else if k2 > i {
                assert(p[k2 - 1] == t[k2 - 1]);
            }
        }
    }
}

/// Replaces the combination `arr`, drawn from the values 0 to `max_val`, by
/// the combination that follows it in lexicographic order and returns
/// `true`; returns `false`, leaving `arr` as it is, when there is none.
pub fn try_increase(arr: &mut [usize], max_val: usize) -> (moved: bool)
    requires
        is_combination(ints_of_usize(old(arr)@), max_val as int),
    ensures
        moved ==> is_next_combination(
            ints_of_usize(old(arr)@),
            ints_of_usize(final(arr)@),
            max_val as int,
        ),
        !moved ==> final(arr)@ == old(arr)@ && is_last_combination(
            ints_of_usize(old(arr)@),
            max_val as int,
        ),
{
    let ghost s = ints_of_usize(arr@);
    let n = arr.len();
    let mut i = n;
    let mut limit = max_val;
    loop
        invariant
            n == arr.len(),
            i <= n,
            arr@ == old(arr)@,
            s == ints_of_usize(arr@),
            is_combination(s, max_val as int),
            i > 0 ==> limit == max_val - (n - i),
            forall|k: int| i <= k < n ==> s[k] == max_val - (n - 1 - k),
        decreases i,
    {
        if i == 0 {
            proof {
                lemma_combination_last(s, max_val as int);
            }
            return false;
        }
        i -= 1;
        proof {
            lemma_combination_upper(s, max_val as int, i as int);
            lemma_combination_lower(s, max_val as int, i as int);
        }
        if arr[i] == limit {
            if limit == 0 {
                proof {
                    lemma_combination_last(s, max_val as int);
                }
                return false;
            }
            limit -= 1;
        } else {
            arr[i] += 1;
            let mut k = i + 1;
            while k < n
                invariant
                    n == arr.len(),
                    n == s.len(),
                    i < k <= n,
                    s[i as int] < max_val - (n - 1 - i),
                    forall|m: int| 0 <= m < i ==> arr@[m] as int == s[m],
                    forall|m: int| i <= m < k ==> arr@[m] as int == s[i as int] + 1 + (m - i),
                decreases n - k,
            {
                arr[k] = arr[k - 1] + 1;
                k += 1;
            }
            proof {
                lemma_combination_successor(s, ints_of_usize(arr@), max_val as int, i as int);
            }
            return true;
        }
    }
}

} // verus!

//! Occurrence counts over sequences, and the facts about them that the
//! oracles and the combinatorial generators rest on.

use vstd::prelude::*;

verus! {

/// How many positions of `s` hold `v`.
pub open spec fn count_of<T>(s: Seq<T>, v: T) -> nat
    decreases s.len(),
{
    if s.len() == 0 {
        0
    } else {
        count_of(s.drop_last(), v) + if s.last() == v { 1nat } else { 0nat }
    }
}

/// `a` is a rearrangement of `b`: same length, every value equally often.
pub open spec fn same_counts<T>(a: Seq<T>, b: Seq<T>) -> bool {
    &&& a.len() == b.len()
    &&& forall|v: T| #[trigger] count_of(a, v) == count_of(b, v)
}

/// No value occurs twice in `s`.
pub open spec fn all_distinct<T>(s: Seq<T>) -> bool {
    forall|i: int, j: int| 0 <= i < j < s.len() ==> s[i] != s[j]
}

/// No value is counted more often than there are places.
pub proof fn lemma_count_bound<T>(s: Seq<T>, v: T)
    ensures
        count_of(s, v) <= s.len(),
    decreases s.len(),
{
    if s.len() > 0 {
        lemma_count_bound(s.drop_last(), v);
    }
}

/// One more entry adds one to the count of its value.
pub proof fn lemma_count_push<T>(s: Seq<T>, x: T, v: T)
    ensures
        count_of(s.push(x), v) == count_of(s, v) + if x == v { 1nat } else { 0nat },
{
    assert(s.push(x).drop_last() =~= s);
}

/// The counts of two sequences add up in their concatenation.
pub proof fn lemma_count_concat<T>(a: Seq<T>, b: Seq<T>, v: T)
    ensures
        count_of(a + b, v) == count_of(a, v) + count_of(b, v),
    decreases b.len(),
{
    if b.len() == 0 {
        assert(a + b =~= a);
    } else {
        lemma_count_concat(a, b.drop_last(), v);
        assert((a + b).drop_last() =~= a + b.drop_last());
    }
}

/// The counts of the two parts of a sequence add up to its count.
pub proof fn lemma_count_split<T>(s: Seq<T>, k: int, v: T)
    requires
        0 <= k <= s.len(),
    ensures
        count_of(s, v) == count_of(s.take(k), v) + count_of(s.skip(k), v),
{
    lemma_count_concat(s.take(k), s.skip(k), v);
    assert(s.take(k) + s.skip(k) =~= s);
}

/// A value that is counted occurs somewhere.
pub proof fn lemma_count_witness<T>(s: Seq<T>, v: T) -> (i: int)
    requires
        count_of(s, v) > 0,
    ensures
        0 <= i < s.len(),
        s[i] == v,
    decreases s.len(),
{
    if s.last() == v {
        s.len() - 1
    } else {
        lemma_count_witness(s.drop_last(), v)
    }
}

/// A value that occurs is counted.
pub proof fn lemma_count_of_member<T>(s: Seq<T>, i: int)
    requires
        0 <= i < s.len(),
    ensures
        count_of(s, s[i]) >= 1,
    decreases s.len(),
{
    if i < s.len() - 1 {
        lemma_count_of_member(s.drop_last(), i);
    }
}

/// Replacing an entry takes one from the count of the old value and adds
/// one to the count of the new one.
pub proof fn lemma_count_update<T>(s: Seq<T>, i: int, x: T, v: T)
    requires
        0 <= i < s.len(),
    ensures
        count_of(s.update(i, x), v) + (if s[i] == v { 1nat } else { 0nat }) == count_of(s, v) + (if x
            == v { 1nat } else { 0nat }),
    decreases s.len(),
{
    if i == s.len() - 1 {
        assert(s.update(i, x).drop_last() =~= s.drop_last());
    } else {
        lemma_count_update(s.drop_last(), i, x, v);
        assert(s.update(i, x).drop_last() =~= s.drop_last().update(i, x));
    }
}

/// Exchanging two positions keeps every count.
pub proof fn lemma_swap_same_counts<T>(s: Seq<T>, i: int, j: int)
    requires
        0 <= i < s.len(),
        0 <= j < s.len(),
    ensures
        same_counts(s.update(i, s[j]).update(j, s[i]), s),
{
    let t = s.update(i, s[j]);
    assert forall|v: T| #[trigger] count_of(t.update(j, s[i]), v) == count_of(s, v) by {
        lemma_count_update(s, i, s[j], v);
        lemma_count_update(t, j, s[i], v);
    }
}

/// Reversing a sequence keeps every count.
pub proof fn lemma_count_reverse<T>(s: Seq<T>, v: T)
    ensures
        count_of(s.reverse(), v) == count_of(s, v),
    decreases s.len(),
{
    if s.len() > 0 {
        let r = s.reverse();
        // the first element of the reversal is the last element of `s`
        lemma_count_split(r, 1, v);
        assert(r.skip(1) =~= s.drop_last().reverse());
        lemma_count_reverse(s.drop_last(), v);
        assert(r.take(1) =~= seq![s.last()]);
        assert(seq![s.last()].drop_last() =~= Seq::<T>::empty());
        assert(count_of(Seq::<T>::empty(), v) == 0);
    }
}

/// In a sequence without repetition a value is counted at most once.
pub proof fn lemma_distinct_count<T>(s: Seq<T>, v: T)
    requires
        all_distinct(s),
    ensures
        count_of(s, v) <= 1,
        count_of(s, v) == 1 <==> s.contains(v),
    decreases s.len(),
{
    if s.len() > 0 {
        let t = s.drop_last();
        assert(all_distinct(t));
        lemma_distinct_count(t, v);
        if s.last() == v {
            if count_of(t, v) > 0 {
                let i = lemma_count_witness(t, v);
                assert(s[i] == s[s.len() - 1]);
            }
            assert(s[s.len() - 1] == v);
        } else {
            if s.contains(v) {
                let i = choose|i: int| 0 <= i < s.len() && s[i] == v;
                assert(t[i] == v);
            }
            if t.contains(v) {
                let i = choose|i: int| 0 <= i < t.len() && t[i] == v;
                assert(s[i] == v);
            }
        }
    }
}

/// Two sequences with the same counts that agree before `k` hold the value
/// `a[k]` somewhere at or after `k` in `b`.
pub proof fn lemma_suffix_witness<T>(a: Seq<T>, b: Seq<T>, k: int) -> (m: int)
    requires
        same_counts(a, b),
        0 <= k < a.len(),
        a.take(k) == b.take(k),
    ensures
        k <= m < b.len(),
        b[m] == a[k],
{
    let v = a[k];
    lemma_count_split(a, k, v);
    lemma_count_split(b, k, v);
    assert(count_of(a, v) == count_of(b, v));
    lemma_count_of_member(a.skip(k), 0);
    let i = lemma_count_witness(b.skip(k), v);
    k + i
}

/// The counts agree with those of the sequence's multiset.
pub proof fn lemma_count_is_multiset_count<T>(s: Seq<T>, v: T)
    ensures
        count_of(s, v) == s.to_multiset().count(v),
    decreases s.len(),
{
    broadcast use vstd::seq_lib::group_to_multiset_ensures;
    broadcast use vstd::multiset::group_multiset_axioms;

    if s.len() == 0 {
        assert(s.to_multiset().len() == 0);
        if s.to_multiset().count(v) > 0 {
            assert(s.contains(v));
        }
    } else {
        let t = s.drop_last();
        lemma_count_is_multiset_count(t, v);
        assert(t.push(s.last()) =~= s);
        assert(s.to_multiset() =~= t.to_multiset().insert(s.last()));
    }
}

/// Rearrangements are exactly the sequences with the same multiset.
pub proof fn lemma_same_counts_is_multiset_eq<T>(a: Seq<T>, b: Seq<T>)
    ensures
        same_counts(a, b) <==> a.to_multiset() =~= b.to_multiset(),
{
    broadcast use vstd::seq_lib::group_to_multiset_ensures;

    assert forall|v: T| count_of(a, v) == a.to_multiset().count(v) && count_of(b, v)
        == b.to_multiset().count(v) by {
        lemma_count_is_multiset_count(a, v);
        lemma_count_is_multiset_count(b, v);
    }
    if a.to_multiset() =~= b.to_multiset() {
        assert(a.len() == a.to_multiset().len());
        assert(b.len() == b.to_multiset().len());
        assert(same_counts(a, b));
    }
    if same_counts(a, b) {
        assert forall|v: T| a.to_multiset().count(v) == b.to_multiset().count(v) by {
            assert(count_of(a, v) == count_of(b, v));
        }
    }
}

/// How many of the places below `n` satisfy `p`.
pub open spec fn count_below(p: spec_fn(int) -> bool, n: nat) -> nat
    decreases n,
{
    if n == 0 {
        0
    } else {
        count_below(p, (n - 1) as nat) + if p(n - 1) { 1nat } else { 0nat }
    }
}

/// No more places satisfy a predicate than there are places.
pub proof fn lemma_count_below_bound(p: spec_fn(int) -> bool, n: nat)
    ensures
        count_below(p, n) <= n,
    decreases n,
{
    if n > 0 {
        lemma_count_below_bound(p, (n - 1) as nat);
    }
}

/// Predicates that agree below `n` are satisfied equally often there.
pub proof fn lemma_count_below_agree(p: spec_fn(int) -> bool, q: spec_fn(int) -> bool, n: nat)
    requires
        forall|k: int| 0 <= k < n ==> #[trigger] p(k) == q(k),
    ensures
        count_below(p, n) == count_below(q, n),
    decreases n,
{
    if n > 0 {
        lemma_count_below_agree(p, q, (n - 1) as nat);
    }
}

/// A predicate that no place satisfies is counted 0 times.
pub proof fn lemma_count_below_none(p: spec_fn(int) -> bool, n: nat)
    requires
        forall|k: int| 0 <= k < n ==> !#[trigger] p(k),
    ensures
        count_below(p, n) == 0,
    decreases n,
{
    if n > 0 {
        lemma_count_below_none(p, (n - 1) as nat);
    }
}

/// A predicate that every place satisfies is counted at every place.
pub proof fn lemma_count_below_all(p: spec_fn(int) -> bool, n: nat)
    requires
        forall|k: int| 0 <= k < n ==> #[trigger] p(k),
    ensures
        count_below(p, n) == n,
    decreases n,
{
    if n > 0 {
        lemma_count_below_all(p, (n - 1) as nat);
    }
}

/// A predicate that is counted holds at some place.
pub proof fn lemma_count_below_witness(p: spec_fn(int) -> bool, n: nat) -> (k: int)
    requires
        count_below(p, n) > 0,
    ensures
        0 <= k < n,
        p(k),
    decreases n,
{
    if p(n - 1) {
        n - 1
    } else {
        lemma_count_below_witness(p, (n - 1) as nat)
    }
}

/// A predicate that holds at some place is counted.
pub proof fn lemma_count_below_member(p: spec_fn(int) -> bool, n: nat, k: int)
    requires
        0 <= k < n,
        p(k),
    ensures
        count_below(p, n) > 0,
    decreases n,
{
    if k < n - 1 {
        lemma_count_below_member(p, (n - 1) as nat, k);
    }
}

/// A value that stands at two places is counted twice.
pub proof fn lemma_count_two<T>(s: Seq<T>, i: int, j: int)
    requires
        0 <= i < j < s.len(),
        s[i] == s[j],
    ensures
        count_of(s, s[i]) >= 2,
    decreases s.len(),
{
    if j == s.len() - 1 {
        lemma_count_of_member(s.drop_last(), i);
    } else {
        lemma_count_two(s.drop_last(), i, j);
    }
}

} // verus!

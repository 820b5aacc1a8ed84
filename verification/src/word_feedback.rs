//! The feedback oracle of the word puzzle: one tag for each place of the
//! attempt, and every tag vector that the rules allow for a hidden word.

use vstd::prelude::*;
use crate::comb_utils::{
    ints_of_usize, is_combination, is_last_combination, is_next_combination,
    lemma_combination_lower, lemma_lex_asymmetric, lemma_lex_total, lemma_lex_transitive,
    lemma_lex_witness, lex_less, try_increase,
};
use crate::counting::{
    count_below, lemma_count_below_agree, lemma_count_below_all, lemma_count_below_member,
    lemma_count_below_none, lemma_count_below_witness,
};
use crate::oracle::{chars_of, min_nat};
use crate::universe::{digits_in, lemma_value_bounds, lemma_value_lex, number_value, power};

verus! {

/// What the oracle says of one place of an attempt.
#[derive(Debug, Clone, Copy, PartialEq, Eq, PartialOrd, Ord, Hash, Structural)]
pub enum CharResult {
    /// The hidden word has no use for this symbol here.
    NotPresented,
    /// The hidden word holds this symbol at another place.
    PartialMatch,
    /// The hidden word holds this symbol at this place.
    FullMatch,
}

/// The longest word whose tag vectors have a code.
pub const MAX_WORD_LEN: usize = 20;

/// The digit that stands for a tag in the code of a tag vector.
pub open spec fn tag_digit(t: CharResult) -> nat {
    match t {
        CharResult::NotPresented => 0,
        CharResult::PartialMatch => 1,
        CharResult::FullMatch => 2,
    }
}

/// The code of a tag vector: its tags as the digits of a number in base 3,
/// the first place the least significant.
pub open spec fn code_of(f: Seq<CharResult>) -> nat
    decreases f.len(),
{
    if f.len() == 0 {
        0
    } else {
        code_of(f.drop_last()) + tag_digit(f.last()) * power(3, (f.len() - 1) as nat)
    }
}

/// The places at which `a` holds `c` and `b` does not.
pub open spec fn free_place(a: Seq<char>, b: Seq<char>, c: char) -> spec_fn(int) -> bool {
    |k: int| 0 <= k < a.len() && k < b.len() && a[k] == c && b[k] != c
}

/// The places at which the attempt `a` holds `c` and is tagged a partial
/// match by `f`.
pub open spec fn partial_place(a: Seq<char>, f: Seq<CharResult>, c: char) -> spec_fn(int) -> bool {
    |k: int| 0 <= k < a.len() && k < f.len() && a[k] == c && f[k] == CharResult::PartialMatch
}

/// How many occurrences of `c` in the attempt are tagged a partial match
/// for the hidden word `h`: as many as both words hold `c` outside the full
/// matches.
pub open spec fn partial_quota(a: Seq<char>, h: Seq<char>, c: char) -> nat {
    min_nat(count_below(free_place(a, h, c), a.len()), count_below(free_place(h, a, c), a.len()))
}

/// `f` is a feedback that the hidden word `h` allows for the attempt `a`:
/// the full matches are tagged as such, and of each symbol as many of the
/// other occurrences are tagged partial matches as the hidden word has left
/// of it. Which occurrences those are is left open.
pub open spec fn is_feedback(a: Seq<char>, h: Seq<char>, f: Seq<CharResult>) -> bool {
    &&& f.len() == a.len()
    &&& forall|k: int| 0 <= k < f.len() ==> (f[k] == CharResult::FullMatch <==> a[k] == h[k])
    &&& forall|c: char| #[trigger]
        count_below(partial_place(a, f, c), a.len()) == partial_quota(a, h, c)
}

/// A symbol of the attempt that the hidden word has nothing left of is not
/// presented: where no partial match is due to a symbol, each of its
/// unmatched occurrences is tagged as absent.
pub proof fn lemma_no_partner_is_absent(
    a: Seq<char>,
    h: Seq<char>,
    f: Seq<CharResult>,
    k: int,
)
    requires
        a.len() == h.len(),
        is_feedback(a, h, f),
        0 <= k < a.len(),
        a[k] != h[k],
        partial_quota(a, h, a[k]) == 0,
    ensures
        f[k] == CharResult::NotPresented,
{
    if f[k] == CharResult::PartialMatch {
        assert(partial_place(a, f, a[k])(k));
        lemma_count_below_member(partial_place(a, f, a[k]), a.len(), k);
        assert(count_below(partial_place(a, f, a[k]), a.len()) == partial_quota(a, h, a[k]));
    }
}

/// `s` rises strictly and holds places below `n`.
spec fn rising_below(s: Seq<int>, n: int) -> bool {
    &&& forall|i: int, j: int| 0 <= i < j < s.len() ==> s[i] < s[j]
    &&& forall|i: int| 0 <= i < s.len() ==> 0 <= #[trigger] s[i] < n
}

/// Counting a property of places through a rising list of places that
/// covers it: as many places have the property as entries of the list.
proof fn lemma_count_through(q: spec_fn(int) -> bool, pos: Seq<int>, n: nat)
    requires
        rising_below(pos, n as int),
        forall|k: int| 0 <= k < n && #[trigger] q(k) ==> pos.contains(k),
    ensures
        count_below(q, n) == count_below(|v: int| 0 <= v < pos.len() && q(pos[v]), pos.len()),
    decreases n,
{
    let via = |v: int| 0 <= v < pos.len() && q(pos[v]);
    if n == 0 {
        if pos.len() > 0 {
            let x = pos[0];
            assert(0 <= x && x < n);
        }
        assert(pos.len() == 0);
    } else if pos.len() > 0 && pos.last() == n - 1 {
        let shorter = pos.drop_last();
        let via0 = |v: int| 0 <= v < shorter.len() && q(shorter[v]);
        assert(rising_below(shorter, n - 1)) by {
            assert forall|i: int| 0 <= i < shorter.len() implies 0 <= #[trigger] shorter[i] < n
                - 1 by {
                assert(pos[i] < pos[pos.len() - 1]);
            }
        }
        assert forall|k: int| 0 <= k < n - 1 && #[trigger] q(k) implies shorter.contains(k) by {
            let v = choose|v: int| 0 <= v < pos.len() && pos[v] == k;
            assert(shorter[v] == k);
        }
        lemma_count_through(q, shorter, (n - 1) as nat);
        lemma_count_below_agree(via, via0, shorter.len());
    } else {
        assert(!q(n - 1)) by {
            if q(n - 1) {
                let v = choose|v: int| 0 <= v < pos.len() && pos[v] == n - 1;
                assert(pos[v] <= pos[pos.len() - 1]);
            }
        }
        assert(rising_below(pos, n - 1)) by {
            assert forall|i: int| 0 <= i < pos.len() implies 0 <= #[trigger] pos[i] < n - 1 by {
                assert(pos[i] <= pos[pos.len() - 1]);
            }
        }
        lemma_count_through(q, pos, (n - 1) as nat);
    }
}

/// The places below `n` that satisfy `r`, in rising order.
spec fn selected(r: spec_fn(int) -> bool, n: nat) -> Seq<int>
    decreases n,
{
    if n == 0 {
        Seq::empty()
    } else if r(n - 1) {
        selected(r, (n - 1) as nat).push(n - 1)
    } else {
        selected(r, (n - 1) as nat)
    }
}

/// The selected places rise, are as many as satisfy the predicate, and are
/// exactly those that satisfy it.
proof fn lemma_selected(r: spec_fn(int) -> bool, n: nat)
    ensures
        rising_below(selected(r, n), n as int),
        selected(r, n).len() == count_below(r, n),
        forall|k: int| #[trigger] selected(r, n).contains(k) <==> 0 <= k < n && r(k),
    decreases n,
{
    let s = selected(r, n);
    if n > 0 {
        let s0 = selected(r, (n - 1) as nat);
        lemma_selected(r, (n - 1) as nat);
        assert forall|k: int| #[trigger] s.contains(k) <==> 0 <= k < n && r(k) by {
            if s.contains(k) {
                let i = choose|i: int| 0 <= i < s.len() && s[i] == k;
                if i < s0.len() {
                    assert(s0[i] == k);
                    assert(s0.contains(k));
                }
            }
            if 0 <= k < n && r(k) {
                if k < n - 1 {
                    assert(s0.contains(k));
                    let i = choose|i: int| 0 <= i < s0.len() && s0[i] == k;
                    assert(s[i] == k);
                } else {
                    assert(s[s.len() - 1] == k);
                }
            }
        }
    }
}

/// A code of `f.len()` digits is below 3 to that power.
pub proof fn lemma_code_bound(f: Seq<CharResult>)
    ensures
        code_of(f) < power(3, f.len()),
    decreases f.len(),
{
    if f.len() > 0 {
        lemma_code_bound(f.drop_last());
        let p = power(3, (f.len() - 1) as nat);
        let d = tag_digit(f.last());
        assert(d * p <= 2 * p) by (nonlinear_arith)
            requires
                d <= 2,
        ;
    }
}

/// Changing one tag changes the code by the weight of its place.
proof fn lemma_code_update(f: Seq<CharResult>, k: int, t: CharResult)
    requires
        0 <= k < f.len(),
    ensures
        code_of(f.update(k, t)) + tag_digit(f[k]) * power(3, k as nat) == code_of(f) + tag_digit(t)
            * power(3, k as nat),
    decreases f.len(),
{
    if k == f.len() - 1 {
        assert(f.update(k, t).drop_last() =~= f.drop_last());
    } else {
        lemma_code_update(f.drop_last(), k, t);
        assert(f.update(k, t).drop_last() =~= f.drop_last().update(k, t));
    }
}

/// Tagging an untagged place a partial match adds the weight of the place
/// to the code.
proof fn lemma_code_mark(f: Seq<CharResult>, k: int)
    requires
        0 <= k < f.len(),
        f[k] == CharResult::NotPresented,
    ensures
        code_of(f.update(k, CharResult::PartialMatch)) == code_of(f) + power(3, k as nat),
{
    lemma_code_update(f, k, CharResult::PartialMatch);
    let p = power(3, k as nat);
    assert(tag_digit(f[k]) * p == 0) by (nonlinear_arith)
        requires
            tag_digit(f[k]) == 0,
    ;
    assert(tag_digit(CharResult::PartialMatch) * p == p) by (nonlinear_arith)
        requires
            tag_digit(CharResult::PartialMatch) == 1,
    ;
}

/// One more tag adds its digit, weighted by its place, to the code.
proof fn lemma_code_push(f: Seq<CharResult>, t: CharResult)
    ensures
        code_of(f.push(t)) == code_of(f) + match t {
            CharResult::NotPresented => 0,
            CharResult::PartialMatch => power(3, f.len()),
            CharResult::FullMatch => 2 * power(3, f.len()),
        },
        code_of(f.push(t)) < power(3, f.len() + 1),
{
    let g = f.push(t);
    assert(g.drop_last() =~= f);
    assert(g.last() == t);
    let p = power(3, f.len());
    assert(code_of(g) == code_of(f) + tag_digit(t) * p);
    assert(tag_digit(t) * p == match t {
        CharResult::NotPresented => 0,
        CharResult::PartialMatch => p,
        CharResult::FullMatch => 2 * p,
    }) by (nonlinear_arith)
        requires
            tag_digit(t) == match t {
                CharResult::NotPresented => 0nat,
                CharResult::PartialMatch => 1nat,
                CharResult::FullMatch => 2nat,
            },
    ;
    lemma_code_bound(g);
}

/// Tag vectors of one length with the same code are the same.
pub proof fn lemma_code_injective(f: Seq<CharResult>, g: Seq<CharResult>)
    requires
        f.len() == g.len(),
        code_of(f) == code_of(g),
    ensures
        f == g,
    decreases f.len(),
{
    if f.len() > 0 {
        let f0 = f.drop_last();
        let g0 = g.drop_last();
        lemma_code_bound(f0);
        lemma_code_bound(g0);
        let p = power(3, (f.len() - 1) as nat) as int;
        let df = tag_digit(f.last()) as int;
        let dg = tag_digit(g.last()) as int;
        let cf = code_of(f0) as int;
        let cg = code_of(g0) as int;
        assert(df == dg) by (nonlinear_arith)
            requires
                cf + df * p == cg + dg * p,
                0 <= cf < p,
                0 <= cg < p,
        ;
        assert(f.last() == g.last());
        lemma_code_injective(f0, g0);
        assert(f =~= f0.push(f.last()));
        assert(g =~= g0.push(g.last()));
    } else {
        assert(f =~= g);
    }
}

/// Rising lists with the same members are the same list.
proof fn lemma_rising_unique(s: Seq<int>, t: Seq<int>, n: int)
    requires
        rising_below(s, n),
        rising_below(t, n),
        forall|k: int| s.contains(k) <==> t.contains(k),
    ensures
        s == t,
    decreases s.len(),
{
    if s.len() == 0 {
        if t.len() > 0 {
            assert(t.contains(t[0]));
            let i = choose|i: int| 0 <= i < s.len() && s[i] == t[0];
        }
        assert(s =~= t);
    } else {
        let x = s.last();
        assert(s.contains(x));
        let j = choose|j: int| 0 <= j < t.len() && t[j] == x;
        let z = t.last();
        assert(t.contains(z));
        let i = choose|i: int| 0 <= i < s.len() && s[i] == z;
        assert(s[i] <= s[s.len() - 1]);
        assert(t[j] <= t[t.len() - 1]);
        assert(x == z);
        assert(j == t.len() - 1) by {
            if j < t.len() - 1 {
                assert(t[j] < t[t.len() - 1]);
            }
        }
        let s0 = s.drop_last();
        let t0 = t.drop_last();
        assert forall|k: int| s0.contains(k) <==> t0.contains(k) by {
            if s0.contains(k) {
                let u = choose|u: int| 0 <= u < s0.len() && s0[u] == k;
                assert(s[u] == k);
                assert(s[u] < s[s.len() - 1]);
                assert(s.contains(k));
                let w = choose|w: int| 0 <= w < t.len() && t[w] == k;
                assert(t0[w] == k);
            }
            if t0.contains(k) {
                let u = choose|u: int| 0 <= u < t0.len() && t0[u] == k;
                assert(t[u] == k);
                assert(t[u] < t[t.len() - 1]);
                assert(t.contains(k));
                let w = choose|w: int| 0 <= w < s.len() && s[w] == k;
                assert(s0[w] == k);
            }
        }
        assert(rising_below(s0, n)) by {
            assert forall|i: int| 0 <= i < s0.len() implies 0 <= #[trigger] s0[i] < n by {
                assert(s0[i] == s[i]);
            }
        }
        assert(rising_below(t0, n)) by {
            assert forall|i: int| 0 <= i < t0.len() implies 0 <= #[trigger] t0[i] < n by {
                assert(t0[i] == t[i]);
            }
        }
        lemma_rising_unique(s0, t0, n);
        assert(s =~= s0.push(x));
        assert(t =~= t0.push(z));
    }
}

/// The symbol `c` has an unmatched occurrence in the attempt before place
/// `i`.
spec fn seen_before(a: Seq<char>, h: Seq<char>, c: char, i: int) -> bool {
    exists|j: int| 0 <= j < i && #[trigger] free_place(a, h, c)(j)
}

/// `f` is a feedback as far as the symbols go that have an unmatched
/// occurrence in the attempt before place `i`; no other symbol is tagged a
/// partial match yet.
spec fn is_feedback_upto(a: Seq<char>, h: Seq<char>, f: Seq<CharResult>, i: int) -> bool {
    &&& f.len() == a.len()
    &&& forall|k: int| 0 <= k < f.len() ==> (f[k] == CharResult::FullMatch <==> a[k] == h[k])
    &&& forall|k: int|
        0 <= k < f.len() && f[k] == CharResult::PartialMatch ==> seen_before(a, h, a[k], i)
    &&& forall|c: char| #[trigger]
        seen_before(a, h, c, i) ==> count_below(partial_place(a, f, c), a.len()) == partial_quota(
            a,
            h,
            c,
        )
}

/// `f0` with the places listed in `t` tagged partial matches.
spec fn marked_with(f0: Seq<CharResult>, t: Seq<int>) -> Seq<CharResult> {
    Seq::new(f0.len(), |k: int| if t.contains(k) { CharResult::PartialMatch } else { f0[k] })
}

/// The places that the combination `y` picks from the list `pos`.
spec fn picked(pos: Seq<int>, y: Seq<int>) -> Seq<int> {
    Seq::new(y.len(), |u: int| pos[y[u]])
}

/// At place `i` the attempt holds the symbol `c`, unmatched and for the
/// first time so, and `pos` lists the unmatched places of `c` in the attempt.
spec fn new_symbol_at(a: Seq<char>, h: Seq<char>, i: int, c: char, pos: Seq<int>) -> bool {
    &&& a.len() == h.len()
    &&& 0 <= i < a.len()
    &&& free_place(a, h, c)(i)
    &&& !seen_before(a, h, c, i)
    &&& rising_below(pos, a.len() as int)
    &&& forall|k: int| pos.contains(k) <==> free_place(a, h, c)(k)
}

/// `y` picks as many places from `pos` as the symbol `c` has partial
/// matches.
spec fn picks_quota(a: Seq<char>, h: Seq<char>, c: char, pos: Seq<int>, y: Seq<int>) -> bool {
    &&& is_combination(y, pos.len() - 1)
    &&& y.len() == partial_quota(a, h, c)
}

proof fn lemma_picked_rising(pos: Seq<int>, y: Seq<int>, n: int)
    requires
        rising_below(pos, n),
        is_combination(y, pos.len() - 1),
    ensures
        rising_below(picked(pos, y), n),
        forall|k: int| picked(pos, y).contains(k) ==> pos.contains(k),
{
    let t = picked(pos, y);
    assert forall|i: int, j: int| 0 <= i < j < t.len() implies t[i] < t[j] by {
        assert(0 <= y[i] <= pos.len() - 1);
        assert(0 <= y[j] <= pos.len() - 1);
    }
    assert forall|i: int| 0 <= i < t.len() implies 0 <= #[trigger] t[i] < n by {
        assert(0 <= y[i] <= pos.len() - 1);
        assert(0 <= pos[y[i]] < n);
    }
    assert forall|k: int| t.contains(k) implies pos.contains(k) by {
        let u = choose|u: int| 0 <= u < t.len() && t[u] == k;
        assert(0 <= y[u] <= pos.len() - 1);
        assert(pos[y[u]] == k);
    }
}

/// The first unmatched occurrence of a symbol makes it seen from the next
/// place on; every other symbol is seen from there on exactly if it was seen
/// before.
proof fn lemma_seen_step(a: Seq<char>, h: Seq<char>, i: int, c: char)
    requires
        0 <= i < a.len(),
        a.len() == h.len(),
    ensures
        seen_before(a, h, c, i) ==> seen_before(a, h, c, i + 1),
        free_place(a, h, c)(i) ==> seen_before(a, h, c, i + 1),
        seen_before(a, h, c, i + 1) && !free_place(a, h, c)(i) ==> seen_before(a, h, c, i),
{
    if seen_before(a, h, c, i) {
        let j = choose|j: int| 0 <= j < i && #[trigger] free_place(a, h, c)(j);
        assert(0 <= j < i + 1 && free_place(a, h, c)(j));
    }
    if free_place(a, h, c)(i) {
        assert(0 <= i < i + 1 && free_place(a, h, c)(i));
    }
    if seen_before(a, h, c, i + 1) && !free_place(a, h, c)(i) {
        let j = choose|j: int| 0 <= j < i + 1 && #[trigger] free_place(a, h, c)(j);
        assert(0 <= j < i && free_place(a, h, c)(j));
    }
}

/// A place that brings no new symbol leaves the feedbacks as they are.
proof fn lemma_upto_skip(a: Seq<char>, h: Seq<char>, f: Seq<CharResult>, i: int)
    requires
        0 <= i < a.len(),
        a.len() == h.len(),
        !free_place(a, h, a[i])(i) || seen_before(a, h, a[i], i),
    ensures
        is_feedback_upto(a, h, f, i + 1) <==> is_feedback_upto(a, h, f, i),
{
    assert forall|c: char| seen_before(a, h, c, i + 1) == seen_before(a, h, c, i) by {
        lemma_seen_step(a, h, i, c);
        if free_place(a, h, c)(i) {
            assert(c == a[i]);
        }
    }
    if is_feedback_upto(a, h, f, i) {
        assert forall|k: int|
            0 <= k < f.len() && f[k] == CharResult::PartialMatch implies seen_before(
            a,
            h,
            a[k],
            i + 1,
        ) by {
            assert(seen_before(a, h, a[k], i));
        }
        assert forall|c: char| #[trigger] seen_before(a, h, c, i + 1) implies count_below(
            partial_place(a, f, c),
            a.len(),
        ) == partial_quota(a, h, c) by {
            assert(seen_before(a, h, c, i));
        }
    }
    if is_feedback_upto(a, h, f, i + 1) {
        assert forall|k: int|
            0 <= k < f.len() && f[k] == CharResult::PartialMatch implies seen_before(
            a,
            h,
            a[k],
            i,
        ) by {
            assert(seen_before(a, h, a[k], i + 1));
        }
        assert forall|c: char| #[trigger] seen_before(a, h, c, i) implies count_below(
            partial_place(a, f, c),
            a.len(),
        ) == partial_quota(a, h, c) by {
            assert(seen_before(a, h, c, i + 1));
        }
    }
}

/// Once every place has been looked at, the feedbacks are complete.
proof fn lemma_upto_final(a: Seq<char>, h: Seq<char>, f: Seq<CharResult>)
    requires
        a.len() == h.len(),
    ensures
        is_feedback_upto(a, h, f, a.len() as int) <==> is_feedback(a, h, f),
{
    let n = a.len();
    if is_feedback_upto(a, h, f, n as int) {
        assert forall|c: char| #[trigger]
            count_below(partial_place(a, f, c), n) == partial_quota(a, h, c) by {
            if !seen_before(a, h, c, n as int) {
                assert forall|k: int| 0 <= k < n implies !#[trigger] free_place(a, h, c)(k) by {}
                lemma_count_below_none(free_place(a, h, c), n);
                assert forall|k: int| 0 <= k < n implies !#[trigger] partial_place(a, f, c)(k) by {
                    if partial_place(a, f, c)(k) {
                        assert(seen_before(a, h, a[k], n as int));
                    }
                }
                lemma_count_below_none(partial_place(a, f, c), n);
            }
        }
    }
    if is_feedback(a, h, f) {
        assert forall|k: int|
            0 <= k < f.len() && f[k] == CharResult::PartialMatch implies seen_before(
            a,
            h,
            a[k],
            n as int,
        ) by {
            let c = a[k];
            assert(partial_place(a, f, c)(k));
            lemma_count_below_member(partial_place(a, f, c), n, k);
            assert(count_below(partial_place(a, f, c), n) == partial_quota(a, h, c));
            let j = lemma_count_below_witness(free_place(a, h, c), n);
            assert(0 <= j < n && free_place(a, h, c)(j));
        }
        assert forall|c: char| #[trigger] seen_before(a, h, c, n as int) implies count_below(
            partial_place(a, f, c),
            n,
        ) == partial_quota(a, h, c) by {
            assert(count_below(partial_place(a, f, c), n) == partial_quota(a, h, c));
        }
    }
}

/// Tagging the picked places of a new symbol turns a feedback for the
/// symbols seen so far into one for the symbols seen from the next place on.
proof fn lemma_mark_sound(
    a: Seq<char>,
    h: Seq<char>,
    i: int,
    c: char,
    pos: Seq<int>,
    y: Seq<int>,
    f0: Seq<CharResult>,
)
    requires
        new_symbol_at(a, h, i, c, pos),
        picks_quota(a, h, c, pos, y),
        is_feedback_upto(a, h, f0, i),
    ensures
        is_feedback_upto(a, h, marked_with(f0, picked(pos, y)), i + 1),
{
    let n = a.len();
    let t = picked(pos, y);
    let f = marked_with(f0, t);
    lemma_picked_rising(pos, y, n as int);
    assert forall|k: int| 0 <= k < f.len() implies (f[k] == CharResult::FullMatch <==> a[k]
        == h[k]) by {
        if t.contains(k) {
            assert(pos.contains(k));
            assert(free_place(a, h, c)(k));
        }
    }
    assert forall|k: int|
        0 <= k < f.len() && f[k] == CharResult::PartialMatch implies seen_before(
        a,
        h,
        a[k],
        i + 1,
    ) by {
        lemma_seen_step(a, h, i, a[k]);
        if t.contains(k) {
            assert(pos.contains(k));
            assert(free_place(a, h, c)(k));
        } else {
            assert(seen_before(a, h, a[k], i));
        }
    }
    assert forall|d: char| #[trigger] seen_before(a, h, d, i + 1) implies count_below(
        partial_place(a, f, d),
        n,
    ) == partial_quota(a, h, d) by {
        lemma_seen_step(a, h, i, d);
        if d == c {
            let q = partial_place(a, f, c);
            assert forall|k: int| 0 <= k < n && #[trigger] q(k) implies t.contains(k) by {
                if !t.contains(k) {
                    assert(f0[k] == CharResult::PartialMatch);
                    assert(seen_before(a, h, a[k], i));
                }
            }
            lemma_count_through(q, t, n);
            let via = |u: int| 0 <= u < t.len() && q(t[u]);
            assert forall|u: int| 0 <= u < t.len() implies #[trigger] via(u) by {
                assert(t.contains(t[u]));
                assert(pos.contains(t[u]));
                assert(free_place(a, h, c)(t[u]));
            }
            lemma_count_below_all(via, t.len());
        } else {
            assert(!free_place(a, h, d)(i));
            assert(seen_before(a, h, d, i));
            assert forall|k: int| 0 <= k < n implies #[trigger] partial_place(a, f, d)(k)
                == partial_place(a, f0, d)(k) by {
                if t.contains(k) {
                    assert(pos.contains(k));
                    assert(free_place(a, h, c)(k));
                }
            }
            lemma_count_below_agree(partial_place(a, f, d), partial_place(a, f0, d), n);
        }
    }
}

/// `f` with the partial matches of the symbol `c` taken back.
spec fn unmarked(a: Seq<char>, f: Seq<CharResult>, c: char) -> Seq<CharResult> {
    Seq::new(
        f.len(),
        |k: int|
            if a[k] == c && f[k] == CharResult::PartialMatch {
                CharResult::NotPresented
            } else {
                f[k]
            },
    )
}

/// The entries of `pos` whose places `f` tags as partial matches.
spec fn pick_of(f: Seq<CharResult>, pos: Seq<int>) -> Seq<int> {
    selected(|v: int| 0 <= v < pos.len() && f[pos[v]] == CharResult::PartialMatch, pos.len())
}

/// Every feedback for the symbols seen from the next place on arises from
/// one for the symbols seen so far by tagging picked places of the new
/// symbol.
proof fn lemma_mark_complete(
    a: Seq<char>,
    h: Seq<char>,
    i: int,
    c: char,
    pos: Seq<int>,
    f: Seq<CharResult>,
)
    requires
        new_symbol_at(a, h, i, c, pos),
        is_feedback_upto(a, h, f, i + 1),
    ensures
        is_feedback_upto(a, h, unmarked(a, f, c), i),
        picks_quota(a, h, c, pos, pick_of(f, pos)),
        f == marked_with(unmarked(a, f, c), picked(pos, pick_of(f, pos))),
{
    let n = a.len();
    let f0 = unmarked(a, f, c);
    let r = |v: int| 0 <= v < pos.len() && f[pos[v]] == CharResult::PartialMatch;
    let y = pick_of(f, pos);
    let t = picked(pos, y);
    lemma_selected(r, pos.len());
    assert(is_combination(y, pos.len() - 1)) by {
        assert forall|u: int| 0 <= u < y.len() implies 0 <= #[trigger] y[u] <= pos.len() - 1 by {
            assert(0 <= y[u] < pos.len());
        }
    }
    // the quota
    let q = partial_place(a, f, c);
    lemma_seen_step(a, h, i, c);
    assert(seen_before(a, h, c, i + 1));
    assert(count_below(q, n) == partial_quota(a, h, c));
    assert forall|k: int| 0 <= k < n && #[trigger] q(k) implies pos.contains(k) by {
        assert(free_place(a, h, c)(k));
    }
    lemma_count_through(q, pos, n);
    let via = |v: int| 0 <= v < pos.len() && q(pos[v]);
    assert forall|v: int| 0 <= v < pos.len() implies #[trigger] via(v) == r(v) by {
        assert(pos.contains(pos[v]));
        assert(free_place(a, h, c)(pos[v]));
    }
    lemma_count_below_agree(via, r, pos.len());
    // the tags
    lemma_picked_rising(pos, y, n as int);
    assert forall|k: int| 0 <= k < n implies (t.contains(k) <==> a[k] == c && f[k]
        == CharResult::PartialMatch) by {
        if t.contains(k) {
            let u = choose|u: int| 0 <= u < t.len() && t[u] == k;
            assert(y.contains(y[u]));
            assert(r(y[u]));
            assert(pos.contains(k));
            assert(free_place(a, h, c)(k));
        }
        if a[k] == c && f[k] == CharResult::PartialMatch {
            assert(q(k));
            assert(pos.contains(k));
            let v = choose|v: int| 0 <= v < pos.len() && pos[v] == k;
            assert(r(v));
            assert(y.contains(v));
            let u = choose|u: int| 0 <= u < y.len() && y[u] == v;
            assert(t[u] == k);
        }
    }
    assert(f =~= marked_with(f0, t));
    // the feedback before
    assert forall|k: int|
        0 <= k < f0.len() && f0[k] == CharResult::PartialMatch implies seen_before(
        a,
        h,
        a[k],
        i,
    ) by {
        lemma_seen_step(a, h, i, a[k]);
        assert(seen_before(a, h, a[k], i + 1));
    }
    assert forall|d: char| #[trigger] seen_before(a, h, d, i) implies count_below(
        partial_place(a, f0, d),
        n,
    ) == partial_quota(a, h, d) by {
        lemma_seen_step(a, h, i, d);
        assert(seen_before(a, h, d, i + 1));
        assert forall|k: int| 0 <= k < n implies #[trigger] partial_place(a, f0, d)(k)
            == partial_place(a, f, d)(k) by {}
        lemma_count_below_agree(partial_place(a, f0, d), partial_place(a, f, d), n);
    }
}

/// Different feedbacks or different picks give different tag vectors.
proof fn lemma_mark_injective(
    a: Seq<char>,
    h: Seq<char>,
    i: int,
    c: char,
    pos: Seq<int>,
    y1: Seq<int>,
    f1: Seq<CharResult>,
    y2: Seq<int>,
    f2: Seq<CharResult>,
)
    requires
        new_symbol_at(a, h, i, c, pos),
        is_combination(y1, pos.len() - 1),
        is_combination(y2, pos.len() - 1),
        is_feedback_upto(a, h, f1, i),
        is_feedback_upto(a, h, f2, i),
        marked_with(f1, picked(pos, y1)) == marked_with(f2, picked(pos, y2)),
    ensures
        y1 == y2,
        f1 == f2,
{
    let n = a.len() as int;
    let t1 = picked(pos, y1);
    let t2 = picked(pos, y2);
    let m1 = marked_with(f1, t1);
    let m2 = marked_with(f2, t2);
    lemma_picked_rising(pos, y1, n);
    lemma_picked_rising(pos, y2, n);
    assert forall|k: int| t1.contains(k) <==> t2.contains(k) by {
        if t1.contains(k) {
            assert(pos.contains(k));
            assert(free_place(a, h, c)(k));
            assert(m1[k] == CharResult::PartialMatch);
            if !t2.contains(k) {
                assert(m2[k] == f2[k]);
                assert(seen_before(a, h, a[k], i));
            }
        }
        if t2.contains(k) {
            assert(pos.contains(k));
            assert(free_place(a, h, c)(k));
            assert(m2[k] == CharResult::PartialMatch);
            if !t1.contains(k) {
                assert(m1[k] == f1[k]);
                assert(seen_before(a, h, a[k], i));
            }
        }
    }
    lemma_rising_unique(t1, t2, n);
    assert(y1.len() == t1.len() && y2.len() == t2.len());
    assert forall|u: int| 0 <= u < y1.len() implies y1[u] == y2[u] by {
        assert(t1[u] == t2[u]);
        assert(0 <= y1[u] <= pos.len() - 1);
        assert(0 <= y2[u] <= pos.len() - 1);
        if y1[u] < y2[u] {
            assert(pos[y1[u]] < pos[y2[u]]);
        }
        if y2[u] < y1[u] {
            assert(pos[y2[u]] < pos[y1[u]]);
        }
    }
    assert(y1 =~= y2);
    assert forall|k: int| 0 <= k < f1.len() implies f1[k] == f2[k] by {
        if t1.contains(k) {
            assert(pos.contains(k));
            assert(free_place(a, h, c)(k));
            if f1[k] == CharResult::PartialMatch {
                assert(seen_before(a, h, a[k], i));
            }
            if f2[k] == CharResult::PartialMatch {
                assert(seen_before(a, h, a[k], i));
            }
        } else {
            assert(m1[k] == f1[k]);
            assert(m2[k] == f2[k]);
        }
    }
    assert(f1 =~= f2);
}

/// The powers of 3 up to the one that bounds the codes of the longest
/// words.
pub proof fn lemma_power3_values()
    ensures
        power(3, 0) == 1,
        power(3, 20) == 3486784401,
        forall|e: nat| e <= 20 ==> #[trigger] power(3, e) <= 3486784401,
{
    assert(power(3, 0) == 1);
    assert(power(3, 1) == 3);
    assert(power(3, 2) == 9);
    assert(power(3, 3) == 27);
    assert(power(3, 4) == 81);
    assert(power(3, 5) == 243);
    assert(power(3, 6) == 729);
    assert(power(3, 7) == 2187);
    assert(power(3, 8) == 6561);
    assert(power(3, 9) == 19683);
    assert(power(3, 10) == 59049);
    assert(power(3, 11) == 177147);
    assert(power(3, 12) == 531441);
    assert(power(3, 13) == 1594323);
    assert(power(3, 14) == 4782969);
    assert(power(3, 15) == 14348907);
    assert(power(3, 16) == 43046721);
    assert(power(3, 17) == 129140163);
    assert(power(3, 18) == 387420489);
    assert(power(3, 19) == 1162261467);
    assert(power(3, 20) == 3486784401);
    assert forall|e: nat| e <= 20 implies #[trigger] power(3, e) <= 3486784401 by {
        lemma_power3_rises(e, 20);
    }
}

/// The powers of 3 do not fall as the exponent grows.
proof fn lemma_power3_rises(e1: nat, e2: nat)
    requires
        e1 <= e2,
    ensures
        power(3, e1) <= power(3, e2),
    decreases e2,
{
    if e1 < e2 {
        lemma_power3_rises(e1, (e2 - 1) as nat);
    }
}

/// Whether a response says that the attempt is the hidden word: every
/// place is a full match.
pub fn is_full_match(response: &[CharResult]) -> (r: bool)
    ensures
        r == forall|i: int| 0 <= i < response@.len() ==> response@[i] == CharResult::FullMatch,
{
    let mut i: usize = 0;
    while i < response.len()
        invariant
            i <= response.len(),
            forall|k: int| 0 <= k < i ==> response@[k] == CharResult::FullMatch,
        decreases response.len() - i,
    {
        if response[i] != CharResult::FullMatch {
            return false;
        }
        i += 1;
    }
    true
}

/// The code of a tag vector.
pub fn convert_res(arg: &[CharResult]) -> (res: u32)
    requires
        arg@.len() <= MAX_WORD_LEN,
    ensures
        res == code_of(arg@),
{
    let mut res: u32 = 0;
    let mut delta: u32 = 1;
    let mut i: usize = 0;
    proof {
        lemma_power3_values();
    }
    while i < arg.len()
        invariant
            i <= arg.len(),
            arg@.len() <= MAX_WORD_LEN,
            res == code_of(arg@.take(i as int)),
            i < arg.len() ==> delta == power(3, i as nat),
            forall|e: nat| e <= 20 ==> #[trigger] power(3, e) <= 3486784401,
        decreases arg.len() - i,
    {
        proof {
            assert(arg@.take(i + 1) =~= arg@.take(i as int).push(arg@[i as int]));
            lemma_code_push(arg@.take(i as int), arg@[i as int]);
            assert(power(3, (i + 1) as nat) <= 3486784401);
        }
        match arg[i] {
            CharResult::FullMatch => {
                res += delta + delta;
            },
            CharResult::PartialMatch => {
                res += delta;
            },
            CharResult::NotPresented => {},
        }
        i += 1;
        if i < arg.len() {
            proof {
                assert(power(3, i as nat) <= 3486784401);
            }
            delta *= 3;
        }
    }
    assert(arg@.take(arg@.len() as int) =~= arg@);
    res
}

/// The codes of a list of tag vectors.
spec fn codes_of(fs: Seq<Seq<CharResult>>) -> Seq<u32> {
    Seq::new(fs.len(), |k: int| code_of(fs[k]) as u32)
}

/// `fs` lists, each once, the feedbacks for the symbols seen before place
/// `i`.
spec fn lists_feedbacks_upto(
    a: Seq<char>,
    h: Seq<char>,
    i: int,
    fs: Seq<Seq<CharResult>>,
) -> bool {
    &&& forall|k: int| 0 <= k < fs.len() ==> is_feedback_upto(a, h, #[trigger] fs[k], i)
    &&& forall|k1: int, k2: int| 0 <= k1 < k2 < fs.len() ==> fs[k1] != fs[k2]
    &&& forall|f: Seq<CharResult>| #[trigger] is_feedback_upto(a, h, f, i) ==> fs.contains(f)
}

/// `fs` with the places tagged that `t` lists, entry by entry.
spec fn batch_of(fs: Seq<Seq<CharResult>>, t: Seq<int>) -> Seq<Seq<CharResult>> {
    Seq::new(fs.len(), |k: int| marked_with(fs[k], t))
}

/// `ys` lists the combinations of `m` values up to `max` that come before
/// `cur` in lexicographic order.
spec fn lists_combinations_before(
    ys: Seq<Seq<int>>,
    cur: Seq<int>,
    m: nat,
    max: int,
) -> bool {
    &&& forall|j: int|
        0 <= j < ys.len() ==> (#[trigger] ys[j]).len() == m && is_combination(ys[j], max)
            && lex_less(ys[j], cur)
    &&& forall|p: Seq<int>|
        p.len() == m && #[trigger] is_combination(p, max) && lex_less(p, cur) ==> ys.contains(p)
}

/// `f` is an entry of `fs` tagged by a pick of `ys`.
spec fn is_batch_entry(
    fs: Seq<Seq<CharResult>>,
    pos: Seq<int>,
    ys: Seq<Seq<int>>,
    f: Seq<CharResult>,
) -> bool {
    exists|j: int, k: int|
        0 <= j < ys.len() && 0 <= k < fs.len() && f == #[trigger] marked_with(
            fs[k],
            picked(pos, ys[j]),
        )
}

/// `fs2` holds, each once, the entries of `fs` tagged by each pick of `ys`.
spec fn holds_batches(
    fs: Seq<Seq<CharResult>>,
    pos: Seq<int>,
    ys: Seq<Seq<int>>,
    fs2: Seq<Seq<CharResult>>,
) -> bool {
    &&& forall|x: int| 0 <= x < fs2.len() ==> is_batch_entry(fs, pos, ys, #[trigger] fs2[x])
    &&& forall|j: int, k: int|
        0 <= j < ys.len() && 0 <= k < fs.len() ==> fs2.contains(
            #[trigger] marked_with(fs[k], picked(pos, ys[j])),
        )
    &&& forall|x1: int, x2: int| 0 <= x1 < x2 < fs2.len() ==> fs2[x1] != fs2[x2]
}

proof fn lemma_first_combination(y: Seq<int>, max: int)
    requires
        forall|u: int| 0 <= u < y.len() ==> y[u] == u,
        y.len() <= max + 1,
    ensures
        is_combination(y, max),
        lists_combinations_before(Seq::empty(), y, y.len(), max),
{
    assert forall|p: Seq<int>|
        p.len() == y.len() && #[trigger] is_combination(p, max) && lex_less(p, y) implies Seq::<
        Seq<int>,
    >::empty().contains(p) by {
        let k = lemma_lex_witness(p, y);
        lemma_combination_lower(p, max, k);
    }
}

proof fn lemma_next_combination(ys: Seq<Seq<int>>, cur: Seq<int>, next: Seq<int>, max: int)
    requires
        is_combination(cur, max),
        lists_combinations_before(ys, cur, cur.len(), max),
        is_next_combination(cur, next, max),
    ensures
        lists_combinations_before(ys.push(cur), next, cur.len(), max),
{
    let ys2 = ys.push(cur);
    let m = cur.len();
    assert forall|j: int| 0 <= j < ys2.len() implies (#[trigger] ys2[j]).len() == m
        && is_combination(ys2[j], max) && lex_less(ys2[j], next) by {
        if j < ys.len() {
            assert(ys2[j] == ys[j]);
            lemma_lex_transitive(ys[j], cur, next);
        }
    }
    assert forall|p: Seq<int>|
        p.len() == m && #[trigger] is_combination(p, max) && lex_less(p, next) implies ys2.contains(
        p,
    ) by {
        lemma_lex_total(p, cur);
        if p == cur {
            assert(ys2[ys.len() as int] == p);
        } else if lex_less(p, cur) {
            assert(ys.contains(p));
            let j = choose|j: int| 0 <= j < ys.len() && ys[j] == p;
            assert(ys2[j] == p);
        }
    }
}

proof fn lemma_last_combination(ys: Seq<Seq<int>>, cur: Seq<int>, max: int)
    requires
        is_combination(cur, max),
        lists_combinations_before(ys, cur, cur.len(), max),
        is_last_combination(cur, max),
    ensures
        forall|p: Seq<int>|
            p.len() == cur.len() && #[trigger] is_combination(p, max) ==> ys.push(cur).contains(p),
{
    let ys2 = ys.push(cur);
    assert forall|p: Seq<int>| p.len() == cur.len() && #[trigger] is_combination(p, max) implies ys2.contains(
        p,
    ) by {
        lemma_lex_total(p, cur);
        if p == cur {
            assert(ys2[ys.len() as int] == p);
        } else {
            assert(lex_less(p, cur));
            assert(ys.contains(p));
            let j = choose|j: int| 0 <= j < ys.len() && ys[j] == p;
            assert(ys2[j] == p);
        }
    }
}

/// One more pick, applied to every entry, keeps the batches in order.
proof fn lemma_batch_extends(
    a: Seq<char>,
    h: Seq<char>,
    i: int,
    c: char,
    pos: Seq<int>,
    fs: Seq<Seq<CharResult>>,
    ys: Seq<Seq<int>>,
    y: Seq<int>,
    fs2: Seq<Seq<CharResult>>,
)
    requires
        new_symbol_at(a, h, i, c, pos),
        lists_feedbacks_upto(a, h, i, fs),
        is_combination(y, pos.len() - 1),
        lists_combinations_before(ys, y, y.len(), pos.len() - 1),
        holds_batches(fs, pos, ys, fs2),
    ensures
        holds_batches(fs, pos, ys.push(y), fs2 + batch_of(fs, picked(pos, y))),
{
    let t = picked(pos, y);
    let ys2 = ys.push(y);
    let added = batch_of(fs, t);
    let fs3 = fs2 + added;
    assert forall|x: int| 0 <= x < fs3.len() implies is_batch_entry(
        fs,
        pos,
        ys2,
        #[trigger] fs3[x],
    ) by {
        if x < fs2.len() {
            assert(is_batch_entry(fs, pos, ys, fs2[x]));
            let (j, k) = choose|j: int, k: int|
                0 <= j < ys.len() && 0 <= k < fs.len() && fs2[x] == #[trigger] marked_with(
                    fs[k],
                    picked(pos, ys[j]),
                );
            assert(ys2[j] == ys[j]);
            assert(fs3[x] == marked_with(fs[k], picked(pos, ys2[j])));
        } else {
            let k = x - fs2.len();
            let j = ys.len() as int;
            assert(ys2[j] == y);
            assert(fs3[x] == marked_with(fs[k], picked(pos, ys2[j])));
        }
    }
    assert forall|j: int, k: int| 0 <= j < ys2.len() && 0 <= k < fs.len() implies fs3.contains(
        #[trigger] marked_with(fs[k], picked(pos, ys2[j])),
    ) by {
        let f = marked_with(fs[k], picked(pos, ys2[j]));
        if j < ys.len() {
            assert(ys2[j] == ys[j]);
            assert(fs2.contains(marked_with(fs[k], picked(pos, ys[j]))));
            let x = choose|x: int| 0 <= x < fs2.len() && fs2[x] == f;
            assert(fs3[x] == f);
        } else {
            assert(fs3[fs2.len() + k] == f);
        }
    }
    assert forall|x1: int, x2: int| 0 <= x1 < x2 < fs3.len() implies fs3[x1] != fs3[x2] by {
        if x2 < fs2.len() {
            assert(fs3[x1] == fs2[x1] && fs3[x2] == fs2[x2]);
        } else {
            let k2 = x2 - fs2.len();
            assert(fs3[x2] == marked_with(fs[k2], t));
            assert(is_feedback_upto(a, h, fs[k2], i));
            if x1 < fs2.len() {
                assert(is_batch_entry(fs, pos, ys, fs2[x1]));
                let (j, k) = choose|j: int, k: int|
                    0 <= j < ys.len() && 0 <= k < fs.len() && fs2[x1] == #[trigger] marked_with(
                        fs[k],
                        picked(pos, ys[j]),
                    );
                assert(is_feedback_upto(a, h, fs[k], i));
                assert(lex_less(ys[j], y));
                lemma_lex_asymmetric(ys[j], y);
                if fs3[x1] == fs3[x2] {
                    lemma_mark_injective(a, h, i, c, pos, ys[j], fs[k], y, fs[k2]);
                }
            } else {
                let k1 = x1 - fs2.len();
                assert(fs3[x1] == marked_with(fs[k1], t));
                assert(is_feedback_upto(a, h, fs[k1], i));
                if fs3[x1] == fs3[x2] {
                    lemma_mark_injective(a, h, i, c, pos, y, fs[k1], y, fs[k2]);
                }
            }
        }
    }
}

/// When every pick has been applied, the batches list the feedbacks for the
/// symbols seen from the next place on.
proof fn lemma_batches_complete(
    a: Seq<char>,
    h: Seq<char>,
    i: int,
    c: char,
    pos: Seq<int>,
    fs: Seq<Seq<CharResult>>,
    ys: Seq<Seq<int>>,
    fs2: Seq<Seq<CharResult>>,
)
    requires
        new_symbol_at(a, h, i, c, pos),
        lists_feedbacks_upto(a, h, i, fs),
        holds_batches(fs, pos, ys, fs2),
        forall|j: int| 0 <= j < ys.len() ==> picks_quota(a, h, c, pos, #[trigger] ys[j]),
        forall|p: Seq<int>| #[trigger] picks_quota(a, h, c, pos, p) ==> ys.contains(p),
    ensures
        lists_feedbacks_upto(a, h, i + 1, fs2),
{
    assert forall|x: int| 0 <= x < fs2.len() implies is_feedback_upto(
        a,
        h,
        #[trigger] fs2[x],
        i + 1,
    ) by {
        assert(is_batch_entry(fs, pos, ys, fs2[x]));
        let (j, k) = choose|j: int, k: int|
            0 <= j < ys.len() && 0 <= k < fs.len() && fs2[x] == #[trigger] marked_with(
                fs[k],
                picked(pos, ys[j]),
            );
        assert(picks_quota(a, h, c, pos, ys[j]));
        assert(is_feedback_upto(a, h, fs[k], i));
        lemma_mark_sound(a, h, i, c, pos, ys[j], fs[k]);
    }
    assert forall|f: Seq<CharResult>| #[trigger]
        is_feedback_upto(a, h, f, i + 1) implies fs2.contains(f) by {
        lemma_mark_complete(a, h, i, c, pos, f);
        let f0 = unmarked(a, f, c);
        let y = pick_of(f, pos);
        assert(fs.contains(f0));
        let k = choose|k: int| 0 <= k < fs.len() && fs[k] == f0;
        assert(ys.contains(y));
        let j = choose|j: int| 0 <= j < ys.len() && ys[j] == y;
        assert(fs2.contains(marked_with(fs[k], picked(pos, ys[j]))));
    }
}

/// The powers of 3 below the `n`-th.
fn pow3_table(n: usize) -> (p: Vec<u32>)
    requires
        n <= MAX_WORD_LEN,
    ensures
        p.len() == n,
        forall|i: int| 0 <= i < n ==> p@[i] == power(3, i as nat),
{
    let mut p: Vec<u32> = Vec::new();
    let mut d: u32 = 1;
    let mut i: usize = 0;
    proof {
        lemma_power3_values();
    }
    while i < n
        invariant
            i <= n,
            n <= MAX_WORD_LEN,
            p.len() == i,
            i < n ==> d == power(3, i as nat),
            forall|k: int| 0 <= k < i ==> p@[k] == power(3, k as nat),
            forall|e: nat| e <= 20 ==> #[trigger] power(3, e) <= 3486784401,
        decreases n - i,
    {
        p.push(d);
        i += 1;
        if i < n {
            proof {
                assert(power(3, i as nat) <= 3486784401);
            }
            d *= 3;
        }
    }
    p
}

/// The places at which `a` holds `c` and `b` does not, in rising order.
fn free_positions(a: &Vec<char>, b: &Vec<char>, c: char) -> (r: Vec<usize>)
    requires
        a.len() == b.len(),
    ensures
        rising_below(ints_of_usize(r@), a.len() as int),
        forall|k: int| ints_of_usize(r@).contains(k) <==> free_place(a@, b@, c)(k),
        r.len() == count_below(free_place(a@, b@, c), a.len() as nat),
{
    let mut r: Vec<usize> = Vec::new();
    let mut i: usize = 0;
    while i < a.len()
        invariant
            i <= a.len(),
            a.len() == b.len(),
            rising_below(ints_of_usize(r@), i as int),
            forall|k: int|
                ints_of_usize(r@).contains(k) <==> 0 <= k < i && free_place(a@, b@, c)(k),
            r.len() == count_below(free_place(a@, b@, c), i as nat),
        decreases a.len() - i,
    {
        let ghost before = ints_of_usize(r@);
        if a[i] == c && b[i] != c {
            r.push(i);
        }
        proof {
            let after = ints_of_usize(r@);
            assert forall|k: int| after.contains(k) <==> 0 <= k < i + 1 && free_place(a@, b@, c)(
                k,
            ) by {
                if after.contains(k) {
                    let u = choose|u: int| 0 <= u < after.len() && after[u] == k;
                    if u < before.len() {
                        assert(before[u] == k);
                        assert(before.contains(k));
                    }
                }
                if 0 <= k < i && free_place(a@, b@, c)(k) {
                    assert(before.contains(k));
                    let u = choose|u: int| 0 <= u < before.len() && before[u] == k;
                    assert(after[u] == k);
                }
                if k == i && free_place(a@, b@, c)(k) {
                    assert(after[after.len() - 1] == k);
                }
            }
            assert forall|x: int, y: int| 0 <= x < y < after.len() implies after[x] < after[y] by {
                if y < before.len() {
                    assert(after[x] == before[x] && after[y] == before[y]);
                } else {
                    assert(after[x] == before[x]);
                    assert(0 <= before[x] < i);
                }
            }
            assert forall|x: int| 0 <= x < after.len() implies 0 <= #[trigger] after[x] < i + 1 by {
                if x < before.len() {
                    assert(after[x] == before[x]);
                    assert(0 <= before[x] < i);
                }
            }
        }
        i += 1;
    }
    r
}

/// How many places hold `c` in `a` and not in `b`.
fn free_count(a: &Vec<char>, b: &Vec<char>, c: char) -> (r: usize)
    requires
        a.len() == b.len(),
    ensures
        r == count_below(free_place(a@, b@, c), a.len() as nat),
{
    let mut r: usize = 0;
    let mut i: usize = 0;
    while i < a.len()
        invariant
            i <= a.len(),
            a.len() == b.len(),
            r == count_below(free_place(a@, b@, c), i as nat),
            r <= i,
        decreases a.len() - i,
    {
        if a[i] == c && b[i] != c {
            r += 1;
        }
        i += 1;
    }
    r
}

/// Whether `a` holds `c`, unmatched by `b`, before place `i`.
fn seen(a: &Vec<char>, b: &Vec<char>, c: char, i: usize) -> (r: bool)
    requires
        a.len() == b.len(),
        i <= a.len(),
    ensures
        r == seen_before(a@, b@, c, i as int),
{
    let mut j: usize = 0;
    while j < i
        invariant
            j <= i,
            i <= a.len(),
            a.len() == b.len(),
            forall|k: int| 0 <= k < j ==> !#[trigger] free_place(a@, b@, c)(k),
        decreases i - j,
    {
        if a[j] == c && b[j] != c {
            assert(free_place(a@, b@, c)(j as int));
            return true;
        }
        j += 1;
    }
    false
}

/// The code of the tag vector `f0`, whose code is `prev`, with the places
/// tagged that `yellow` picks from `pos`.
fn marked_code(
    prev: u32,
    pos: &Vec<usize>,
    yellow: &Vec<usize>,
    pow3: &Vec<u32>,
    Ghost(f0): Ghost<Seq<CharResult>>,
) -> (r: u32)
    requires
        f0.len() <= MAX_WORD_LEN,
        prev == code_of(f0),
        rising_below(ints_of_usize(pos@), f0.len() as int),
        is_combination(ints_of_usize(yellow@), pos.len() - 1),
        forall|k: int|
            ints_of_usize(pos@).contains(k) ==> f0[k] == CharResult::NotPresented,
        pow3.len() == f0.len(),
        forall|i: int| 0 <= i < pow3.len() ==> pow3@[i] == power(3, i as nat),
    ensures
        r == code_of(marked_with(f0, picked(ints_of_usize(pos@), ints_of_usize(yellow@)))),
{
    let ghost ps = ints_of_usize(pos@);
    let ghost ys = ints_of_usize(yellow@);
    let ghost t = picked(ps, ys);
    let mut np: u32 = prev;
    let mut v: usize = 0;
    proof {
        lemma_picked_rising(ps, ys, f0.len() as int);
        assert(marked_with(f0, t.take(0)) =~= f0);
        lemma_power3_values();
    }
    while v < yellow.len()
        invariant
            v <= yellow.len(),
            f0.len() <= MAX_WORD_LEN,
            ps == ints_of_usize(pos@),
            ys == ints_of_usize(yellow@),
            t == picked(ps, ys),
            rising_below(ps, f0.len() as int),
            rising_below(t, f0.len() as int),
            is_combination(ys, pos.len() - 1),
            forall|k: int| ps.contains(k) ==> f0[k] == CharResult::NotPresented,
            pow3.len() == f0.len(),
            forall|i: int| 0 <= i < pow3.len() ==> pow3@[i] == power(3, i as nat),
            forall|e: nat| e <= 20 ==> #[trigger] power(3, e) <= 3486784401,
            np == code_of(marked_with(f0, t.take(v as int))),
        decreases yellow.len() - v,
    {
        proof {
            assert(0 <= ys[v as int] <= pos.len() - 1);
        }
        let place = pos[yellow[v]];
        proof {
            let t0 = t.take(v as int);
            let t1 = t.take(v + 1);
            let before = marked_with(f0, t0);
            let after = marked_with(f0, t1);
            assert(t[v as int] == place);
            assert(0 <= ps[ys[v as int]] < f0.len());
            assert(ps.contains(place as int));
            assert(!t0.contains(place as int)) by {
                if t0.contains(place as int) {
                    let u = choose|u: int| 0 <= u < t0.len() && t0[u] == place;
                    assert(t[u] < t[v as int]);
                }
            }
            assert forall|k: int| 0 <= k < f0.len() implies after[k] == before.update(
                place as int,
                CharResult::PartialMatch,
            )[k] by {
                if t1.contains(k) {
                    let u = choose|u: int| 0 <= u < t1.len() && t1[u] == k;
                    if u < v {
                        assert(t0[u] == k);
                    }
                }
                if t0.contains(k) {
                    let u = choose|u: int| 0 <= u < t0.len() && t0[u] == k;
                    assert(t1[u] == k);
                }
                if k == place {
                    assert(t1[v as int] == k);
                }
            }
            assert(after =~= before.update(place as int, CharResult::PartialMatch));
            assert(before[place as int] == f0[place as int]);
            lemma_code_mark(before, place as int);
            lemma_code_bound(after);
            assert(power(3, f0.len()) <= 3486784401);
        }
        np += pow3[place];
        v += 1;
    }
    proof {
        assert(t.take(yellow.len() as int) =~= t);
    }
    np
}

/// Appends to `tmp` the codes of the tag vectors `fs`, whose codes `res`
/// holds, each with the places tagged that `yellow` picks from `pos`.
fn append_batch(
    tmp: &mut Vec<u32>,
    res: &Vec<u32>,
    pos: &Vec<usize>,
    yellow: &Vec<usize>,
    pow3: &Vec<u32>,
    Ghost(fs): Ghost<Seq<Seq<CharResult>>>,
)
    requires
        res@ == codes_of(fs),
        pow3.len() <= MAX_WORD_LEN,
        forall|k: int| 0 <= k < fs.len() ==> (#[trigger] fs[k]).len() == pow3.len(),
        rising_below(ints_of_usize(pos@), pow3.len() as int),
        is_combination(ints_of_usize(yellow@), pos.len() - 1),
        forall|k: int, x: int|
            0 <= k < fs.len() && ints_of_usize(pos@).contains(x) ==> #[trigger] fs[k][x]
                == CharResult::NotPresented,
        forall|i: int| 0 <= i < pow3.len() ==> pow3@[i] == power(3, i as nat),
    ensures
        final(tmp)@ == old(tmp)@ + codes_of(
            batch_of(fs, picked(ints_of_usize(pos@), ints_of_usize(yellow@))),
        ),
{
    let ghost t = picked(ints_of_usize(pos@), ints_of_usize(yellow@));
    let ghost added = codes_of(batch_of(fs, t));
    let mut k: usize = 0;
    proof {
        lemma_power3_values();
        assert(tmp@ =~= old(tmp)@ + added.take(0));
    }
    while k < res.len()
        invariant
            k <= res.len(),
            res@ == codes_of(fs),
            pow3.len() <= MAX_WORD_LEN,
            forall|k: int| 0 <= k < fs.len() ==> (#[trigger] fs[k]).len() == pow3.len(),
            rising_below(ints_of_usize(pos@), pow3.len() as int),
            is_combination(ints_of_usize(yellow@), pos.len() - 1),
            forall|k: int, x: int|
                0 <= k < fs.len() && ints_of_usize(pos@).contains(x) ==> #[trigger] fs[k][x]
                    == CharResult::NotPresented,
            forall|i: int| 0 <= i < pow3.len() ==> pow3@[i] == power(3, i as nat),
            forall|e: nat| e <= 20 ==> #[trigger] power(3, e) <= 3486784401,
            t == picked(ints_of_usize(pos@), ints_of_usize(yellow@)),
            added == codes_of(batch_of(fs, t)),
            tmp@ == old(tmp)@ + added.take(k as int),
        decreases res.len() - k,
    {
        proof {
            assert(fs[k as int].len() == pow3.len());
            lemma_code_bound(fs[k as int]);
            assert(power(3, fs[k as int].len()) <= 3486784401);
            assert(res@[k as int] == code_of(fs[k as int]));
        }
        let np = marked_code(res[k], pos, yellow, pow3, Ghost(fs[k as int]));
        proof {
            lemma_code_bound(marked_with(fs[k as int], t));
            assert(added[k as int] == np);
            assert(added.take(k + 1) =~= added.take(k as int).push(np));
        }
        tmp.push(np);
        k += 1;
    }
    proof {
        assert(added.take(res.len() as int) =~= added);
    }
}

/// `code` is the code of a feedback that the hidden word `h` allows for the
/// attempt `a`.
pub open spec fn is_feedback_code(a: Seq<char>, h: Seq<char>, code: u32) -> bool {
    exists|f: Seq<CharResult>| #[trigger] is_feedback(a, h, f) && code_of(f) == code
}

/// `res` holds, each once, the codes of the feedbacks that the hidden word
/// `h` allows for the attempt `a`, and nothing else.
pub open spec fn holds_all_feedbacks(a: Seq<char>, h: Seq<char>, res: Seq<u32>) -> bool {
    &&& res.no_duplicates()
    &&& forall|code: u32| res.contains(code) <==> is_feedback_code(a, h, code)
}

proof fn lemma_codes_concat(x: Seq<Seq<CharResult>>, y: Seq<Seq<CharResult>>)
    ensures
        codes_of(x + y) == codes_of(x) + codes_of(y),
{
    assert(codes_of(x + y) =~= codes_of(x) + codes_of(y));
}

/// The codes of the feedbacks for the symbols seen up to place `i`, from
/// those for the symbols seen before it, where place `i` brings a new
/// symbol.
fn extend_with_symbol(
    res: &Vec<u32>,
    a: &Vec<char>,
    h: &Vec<char>,
    i: usize,
    pow3: &Vec<u32>,
    Ghost(fs): Ghost<Seq<Seq<CharResult>>>,
) -> (r: (Vec<u32>, Ghost<Seq<Seq<CharResult>>>))
    requires
        a.len() == h.len(),
        a.len() <= MAX_WORD_LEN,
        i < a.len(),
        free_place(a@, h@, a@[i as int])(i as int),
        !seen_before(a@, h@, a@[i as int], i as int),
        pow3.len() == a.len(),
        forall|k: int| 0 <= k < pow3.len() ==> pow3@[k] == power(3, k as nat),
        res@ == codes_of(fs),
        lists_feedbacks_upto(a@, h@, i as int, fs),
    ensures
        r.0@ == codes_of(r.1@),
        lists_feedbacks_upto(a@, h@, i + 1, r.1@),
{
    let c = a[i];
    let pos = free_positions(a, h, c);
    let hcount = free_count(h, a, c);
    let m = if pos.len() <= hcount { pos.len() } else { hcount };
    let ghost ps = ints_of_usize(pos@);
    proof {
        assert(ps.contains(i as int));
        assert(new_symbol_at(a@, h@, i as int, c, ps));
        assert(m == partial_quota(a@, h@, c));
        assert forall|k: int, x: int| 0 <= k < fs.len() && ps.contains(x) implies #[trigger] fs[k][x]
            == CharResult::NotPresented by {
            assert(is_feedback_upto(a@, h@, fs[k], i as int));
            assert(free_place(a@, h@, c)(x));
            if fs[k][x] == CharResult::PartialMatch {
                assert(seen_before(a@, h@, a@[x], i as int));
            }
        }
        assert forall|k: int| 0 <= k < fs.len() implies (#[trigger] fs[k]).len() == pow3.len() by {
            assert(is_feedback_upto(a@, h@, fs[k], i as int));
        }
    }
    let mut yellow: Vec<usize> = Vec::new();
    let mut u: usize = 0;
    while u < m
        invariant
            u <= m,
            yellow.len() == u,
            forall|x: int| 0 <= x < u ==> yellow@[x] == x,
        decreases m - u,
    {
        yellow.push(u);
        u += 1;
    }
    let mut tmp: Vec<u32> = Vec::new();
    let ghost mut fs2: Seq<Seq<CharResult>> = Seq::empty();
    let ghost mut ys: Seq<Seq<int>> = Seq::empty();
    proof {
        lemma_first_combination(ints_of_usize(yellow@), pos.len() - 1);
        assert(tmp@ =~= codes_of(fs2));
    }
    loop
        invariant
            a.len() == h.len(),
            a.len() <= MAX_WORD_LEN,
            i < a.len(),
            c == a@[i as int],
            pos.len() >= 1,
            ps == ints_of_usize(pos@),
            new_symbol_at(a@, h@, i as int, c, ps),
            m == partial_quota(a@, h@, c),
            m <= pos.len(),
            pow3.len() == a.len(),
            forall|k: int| 0 <= k < pow3.len() ==> pow3@[k] == power(3, k as nat),
            res@ == codes_of(fs),
            lists_feedbacks_upto(a@, h@, i as int, fs),
            forall|k: int, x: int|
                0 <= k < fs.len() && ps.contains(x) ==> #[trigger] fs[k][x]
                    == CharResult::NotPresented,
            forall|k: int| 0 <= k < fs.len() ==> (#[trigger] fs[k]).len() == pow3.len(),
            yellow.len() == m,
            is_combination(ints_of_usize(yellow@), pos.len() - 1),
            lists_combinations_before(ys, ints_of_usize(yellow@), m as nat, pos.len() - 1),
            holds_batches(fs, ps, ys, fs2),
            tmp@ == codes_of(fs2),
        decreases
                power(pos.len() as nat, m as nat) - number_value(
                    ints_of_usize(yellow@),
                    pos.len() as int,
                ),
    {
        let ghost y = ints_of_usize(yellow@);
        append_batch(&mut tmp, res, &pos, &yellow, pow3, Ghost(fs));
        proof {
            lemma_batch_extends(a@, h@, i as int, c, ps, fs, ys, y, fs2);
            lemma_codes_concat(fs2, batch_of(fs, picked(ps, y)));
            fs2 = fs2 + batch_of(fs, picked(ps, y));
        }
        let moved = try_increase(yellow.as_mut_slice(), pos.len() - 1);
        if !moved {
            proof {
                lemma_last_combination(ys, y, pos.len() - 1);
                let ys2 = ys.push(y);
                assert forall|j: int| 0 <= j < ys2.len() implies picks_quota(
                    a@,
                    h@,
                    c,
                    ps,
                    #[trigger] ys2[j],
                ) by {
                    if j < ys.len() {
                        assert(ys2[j] == ys[j]);
                    }
                }
                assert forall|p: Seq<int>| #[trigger] picks_quota(a@, h@, c, ps, p) implies ys2.contains(
                    p,
                ) by {
                    assert(is_combination(p, pos.len() - 1));
                }
                lemma_batches_complete(a@, h@, i as int, c, ps, fs, ys2, fs2);
            }
            return (tmp, Ghost(fs2));
        }
        proof {
            let y2 = ints_of_usize(yellow@);
            lemma_next_combination(ys, y, y2, pos.len() - 1);
            ys = ys.push(y);
            assert(digits_in(y, pos.len() as int)) by {
                assert forall|x: int| 0 <= x < y.len() implies 0 <= #[trigger] y[x] < pos.len() by {
                    assert(0 <= y[x] <= pos.len() - 1);
                }
            }
            assert(digits_in(y2, pos.len() as int)) by {
                assert forall|x: int| 0 <= x < y2.len() implies 0 <= #[trigger] y2[x]
                    < pos.len() by {
                    assert(0 <= y2[x] <= pos.len() - 1);
                }
            }
            lemma_value_lex(y, y2, pos.len() as int);
            lemma_value_bounds(y2, pos.len() as int);
        }
    }
}

/// Every feedback that the hidden word allows for the attempt: `res` is
/// cleared and then holds the code of each of them once, in no particular
/// order. Where the attempt repeats a symbol more often than the hidden word
/// can account for, each choice of the occurrences that count as partial
/// matches gives a feedback of its own.
pub fn calc_all_answers(attempt_word: &str, hidden_word: &str, res: &mut Vec<u32>)
    requires
        attempt_word@.len() == hidden_word@.len(),
        attempt_word@.len() <= MAX_WORD_LEN,
    ensures
        holds_all_feedbacks(attempt_word@, hidden_word@, final(res)@),
{
    let a = chars_of(attempt_word);
    let h = chars_of(hidden_word);
    let n = a.len();
    let pow3 = pow3_table(n);
    let mut tags: Vec<CharResult> = Vec::new();
    let mut k: usize = 0;
    while k < n
        invariant
            k <= n,
            n == a.len(),
            a.len() == h.len(),
            tags.len() == k,
            forall|x: int|
                0 <= x < k ==> tags@[x] == if a@[x] == h@[x] {
                    CharResult::FullMatch
                } else {
                    CharResult::NotPresented
                },
        decreases n - k,
    {
        if a[k] == h[k] {
            tags.push(CharResult::FullMatch);
        } else {
            tags.push(CharResult::NotPresented);
        }
        k += 1;
    }
    let code = convert_res(tags.as_slice());
    res.clear();
    res.push(code);
    let ghost mut fs: Seq<Seq<CharResult>> = seq![tags@];
    proof {
        assert(res@ =~= codes_of(fs));
        assert(is_feedback_upto(a@, h@, tags@, 0));
        assert forall|f: Seq<CharResult>| #[trigger] is_feedback_upto(a@, h@, f, 0) implies fs.contains(
            f,
        ) by {
            assert forall|x: int| 0 <= x < f.len() implies f[x] == tags@[x] by {
                if f[x] == CharResult::PartialMatch {
                    assert(seen_before(a@, h@, a@[x], 0));
                }
            }
            assert(f =~= tags@);
            assert(fs[0] == f);
        }
    }
    let mut i: usize = 0;
    while i < n
        invariant
            i <= n,
            n == a.len(),
            a.len() == h.len(),
            a.len() <= MAX_WORD_LEN,
            pow3.len() == a.len(),
            forall|k: int| 0 <= k < pow3.len() ==> pow3@[k] == power(3, k as nat),
            res@ == codes_of(fs),
            lists_feedbacks_upto(a@, h@, i as int, fs),
        decreases n - i,
    {
        let c = a[i];
        if c != h[i] && !seen(&a, &h, c, i) {
            let (tmp, Ghost(fs2)) = extend_with_symbol(res, &a, &h, i, &pow3, Ghost(fs));
            *res = tmp;
            proof {
                fs = fs2;
            }
        } else {
            proof {
                assert forall|f: Seq<CharResult>|
                    is_feedback_upto(a@, h@, f, i + 1) == is_feedback_upto(a@, h@, f, i as int) by {
                    lemma_upto_skip(a@, h@, f, i as int);
                }
                assert forall|k: int| 0 <= k < fs.len() implies is_feedback_upto(
                    a@,
                    h@,
                    #[trigger] fs[k],
                    i + 1,
                ) by {
                    assert(is_feedback_upto(a@, h@, fs[k], i as int));
                }
                assert forall|f: Seq<CharResult>| #[trigger]
                    is_feedback_upto(a@, h@, f, i + 1) implies fs.contains(f) by {
                    assert(is_feedback_upto(a@, h@, f, i as int));
                }
            }
        }
        i += 1;
    }
    proof {
        lemma_power3_values();
        assert forall|f: Seq<CharResult>|
            is_feedback_upto(a@, h@, f, n as int) == is_feedback(a@, h@, f) by {
            lemma_upto_final(a@, h@, f);
        }
        assert forall|x: int| 0 <= x < fs.len() implies code_of(#[trigger] fs[x]) == res@[x]
            && fs[x].len() == n && is_feedback(a@, h@, fs[x]) by {
            assert(is_feedback_upto(a@, h@, fs[x], n as int));
            lemma_code_bound(fs[x]);
            assert(power(3, n as nat) <= 3486784401);
        }
        assert forall|x1: int, x2: int|
            0 <= x1 < res@.len() && 0 <= x2 < res@.len() && x1 != x2 implies res@[x1]
            != res@[x2] by {
            assert(code_of(fs[x1]) == res@[x1]);
            assert(code_of(fs[x2]) == res@[x2]);
            if res@[x1] == res@[x2] {
                lemma_code_injective(fs[x1], fs[x2]);
            }
        }
        assert forall|code: u32| res@.contains(code) <==> is_feedback_code(a@, h@, code) by {
            if res@.contains(code) {
                let x = choose|x: int| 0 <= x < res@.len() && res@[x] == code;
                assert(is_feedback(a@, h@, fs[x]) && code_of(fs[x]) == code);
            }
            if is_feedback_code(a@, h@, code) {
                let f = choose|f: Seq<CharResult>| #[trigger]
                    is_feedback(a@, h@, f) && code_of(f) == code;
                assert(is_feedback_upto(a@, h@, f, n as int));
                assert(fs.contains(f));
                let x = choose|x: int| 0 <= x < fs.len() && fs[x] == f;
                assert(res@[x] == code_of(fs[x]));
            }
        }
    }
}

} // verus!

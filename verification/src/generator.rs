//! The combinatorial generator: lazy walks through the candidate universe
//! of a configuration, and the listing of the whole universe.

use vstd::prelude::*;
use crate::comb_utils::{
    all_at_max, carries_into, first_difference, increase_vector, ints_of_u8,
    is_last_arrangement, is_next_arrangement, lemma_lex_asymmetric,
    lemma_lex_between, lemma_lex_total, lemma_lex_witness, lemma_non_decreasing_is_first,
    lex_less, next_permutation, non_decreasing_from, odometer_step,
};
use crate::counting::{
    all_distinct, count_of, lemma_count_bound, lemma_count_of_member, lemma_count_two,
    lemma_count_update, lemma_count_witness, lemma_distinct_count, same_counts,
};
use crate::game_params::GameParams;
use crate::number::{views_of, Number, MAX_BASE};
use crate::universe::{
    counts_up, digit_mask, follows, lemma_listing_complete, lemma_listing_grows,
    lemma_order_key_bounds, lemma_precedes_key, lists_universe, lists_up_to, number_value,
    order_key, order_key_bound, power, precedes, universe_size,
};

verus! {

/// A source of items that hands out references into its own state.
pub trait RefIter {
    type Item;

    /// The state is one in which `next` may be called.
    spec fn ready(&self) -> bool;

    /// The item that the state holds: what the last call of `next` returned.
    spec fn held(&self) -> Option<Self::Item>;

    /// Moves to the next item and returns it, or `None` at the end.
    fn next(&mut self) -> (r: Option<&Self::Item>)
        requires
            old(self).ready(),
        ensures
            final(self).ready(),
            match r {
                Some(x) => final(self).held() == Some(*x),
                None => final(self).held() is None,
            },
    ;
}

/// The view of a value that may be absent.
pub open spec fn held_view(n: Option<Number>) -> Option<Seq<u8>> {
    match n {
        Some(x) => Some(x@),
        None => None,
    }
}

// ---------------------------------------------------------------------
// With repetition: the odometer
// ---------------------------------------------------------------------
/// A step of the odometer adds one to the number that the digits write;
/// from the last reading it leads back to the number 0.
proof fn lemma_value_of_step(v: Seq<u8>, maxval: u8)
    requires
        forall|i: int| 0 <= i < v.len() ==> v[i] <= maxval,
        maxval < u8::MAX,
    ensures
        !all_at_max(v, maxval) ==> number_value(ints_of_u8(odometer_step(v, maxval)), maxval + 1)
            == number_value(ints_of_u8(v), maxval + 1) + 1,
        all_at_max(v, maxval) ==> number_value(ints_of_u8(v), maxval + 1) + 1 == power(
            (maxval + 1) as nat,
            v.len(),
        ) && number_value(ints_of_u8(odometer_step(v, maxval)), maxval + 1) == 0,
    decreases v.len(),
{
    let base = maxval + 1;
    let w = odometer_step(v, maxval);
    if v.len() > 0 {
        let v0 = v.drop_last();
        let w0 = odometer_step(v0, maxval);
        lemma_value_of_step(v0, maxval);
        assert(ints_of_u8(v).drop_last() =~= ints_of_u8(v0));
        assert(carries_into(v, maxval, v.len() - 1));
        if v.last() == maxval {
            assert forall|i: int| 0 <= i < v0.len() implies (carries_into(v, maxval, i)
                <==> carries_into(v0, maxval, i)) by {
                if carries_into(v0, maxval, i) {
                    assert forall|k: int| i < k < v.len() implies v[k] == maxval by {
                        if k < v0.len() {
                            assert(v0[k] == maxval);
                        }
                    }
                }
                if carries_into(v, maxval, i) {
                    assert forall|k: int| i < k < v0.len() implies v0[k] == maxval by {
                        assert(v[k] == maxval);
                    }
                }
            }
            assert(w.drop_last() =~= w0);
            assert(ints_of_u8(w).drop_last() =~= ints_of_u8(w0));
            assert(ints_of_u8(w).last() == 0);
            if all_at_max(v0, maxval) {
                assert forall|k: int| 0 <= k < v.len() implies v[k] == maxval by {
                    if k < v0.len() {
                        assert(v0[k] == maxval);
                    }
                }
                assert(all_at_max(v, maxval));
                let x = number_value(ints_of_u8(v0), base);
                let p = power(base as nat, v0.len()) as int;
                assert(x * base + maxval + 1 == base * p) by (nonlinear_arith)
                    requires
                        x + 1 == p,
                        base == maxval + 1,
                ;
            } else {
                let k = choose|k: int| 0 <= k < v0.len() && v0[k] != maxval;
                assert(v[k] != maxval);
                let x = number_value(ints_of_u8(v0), base);
                let y = number_value(ints_of_u8(w0), base);
                assert(y * base + 0 == x * base + maxval + 1) by (nonlinear_arith)
                    requires
                        y == x + 1,
                        base == maxval + 1,
                ;
            }
        } else {
            assert(v[v.len() - 1] != maxval);
            assert forall|i: int| 0 <= i < v0.len() implies !carries_into(v, maxval, i) by {
                assert(v[v.len() - 1] != maxval);
            }
            assert(w.drop_last() =~= v0);
            assert(ints_of_u8(w).drop_last() =~= ints_of_u8(v0));
            assert(ints_of_u8(w).last() == v.last() + 1);
        }
    } else {
        assert(all_at_max(v, maxval));
    }
}

/// With repetition the value of zeros is the first of the universe.
proof fn lemma_zeros_are_first(g: GameParams, w: Seq<u8>)
    requires
        g.spec_has_repetitions(),
        w.len() == g.spec_number_len(),
        forall|i: int| 0 <= i < w.len() ==> w[i] == 0,
        g.spec_base() > 0 || g.spec_number_len() == 0,
    ensures
        follows(g, None, Some(w)),
        counts_up(g, None, Some(w)),
{
    assert forall|u: Seq<u8>| #[trigger] g.admits(u) implies u == w || precedes(g, w, u) by {
        lemma_lex_total(ints_of_u8(u), ints_of_u8(w));
        if lex_less(ints_of_u8(u), ints_of_u8(w)) {
            let k = lemma_lex_witness(ints_of_u8(u), ints_of_u8(w));
            assert(ints_of_u8(w)[k] == 0);
        }
        if ints_of_u8(u) == ints_of_u8(w) {
            crate::universe::lemma_ints_injective(u, w);
        }
    }
    lemma_value_of_zeros(w, g.spec_base() as int);
}

/// Zeros write the number 0.
proof fn lemma_value_of_zeros(w: Seq<u8>, base: int)
    requires
        forall|i: int| 0 <= i < w.len() ==> w[i] == 0,
    ensures
        number_value(ints_of_u8(w), base) == 0,
    decreases w.len(),
{
    if w.len() > 0 {
        lemma_value_of_zeros(w.drop_last(), base);
        assert(ints_of_u8(w).drop_last() =~= ints_of_u8(w.drop_last()));
    }
}

/// An alphabet without digits has no value of a positive length.
proof fn lemma_no_values_without_digits(g: GameParams)
    requires
        g.spec_base() == 0,
        g.spec_number_len() > 0,
    ensures
        follows(g, None, None),
        g.spec_has_repetitions() ==> counts_up(g, None, None),
{
    assert forall|u: Seq<u8>| !#[trigger] g.admits(u) by {
        if g.admits(u) {
            assert(u[0] < g.spec_base());
        }
    }
    assert(power(0, g.spec_number_len() as nat) == 0);
}

/// With repetition a step of the odometer leads to the value that follows
/// in the universe, and the last reading has no value after it.
proof fn lemma_odometer_follows(g: GameParams, v: Seq<u8>, maxval: u8)
    requires
        g.spec_has_repetitions(),
        g.admits(v),
        g.spec_base() <= MAX_BASE,
        g.spec_base() > 0 ==> maxval == g.spec_base() - 1,
    ensures
        !all_at_max(v, maxval) ==> follows(g, Some(v), Some(odometer_step(v, maxval)))
            && counts_up(g, Some(v), Some(odometer_step(v, maxval))),
        all_at_max(v, maxval) ==> follows(g, Some(v), None) && counts_up(g, Some(v), None),
{
    let w = odometer_step(v, maxval);
    let a = ints_of_u8(v);
    let b = ints_of_u8(w);
    if v.len() == 0 {
        assert(all_at_max(v, maxval));
        assert forall|u: Seq<u8>| #[trigger] g.admits(u) implies !precedes(g, v, u) by {
            if lex_less(a, ints_of_u8(u)) {
                let k = lemma_lex_witness(a, ints_of_u8(u));
            }
        }
        assert(power(g.spec_base() as nat, 0) == 1);
    } else {
        assert(v[0] < g.spec_base());
        lemma_value_of_step(v, maxval);
        if all_at_max(v, maxval) {
            assert forall|u: Seq<u8>| #[trigger] g.admits(u) implies !precedes(g, v, u) by {
                if lex_less(a, ints_of_u8(u)) {
                    let k = lemma_lex_witness(a, ints_of_u8(u));
                    assert(u[k] < g.spec_base());
                    assert(v[k] == maxval);
                }
            }
        } else {
            // the place that the carry stops at
            let i = choose|i: int|
                0 <= i < v.len() && v[i] != maxval && carries_into(v, maxval, i);
            assert(exists|i: int| 0 <= i < v.len() && v[i] != maxval && carries_into(v, maxval, i))
                by {
                lemma_carry_stops(v, maxval, v.len() as int);
            }
            assert forall|k: int| 0 <= k < i implies !carries_into(v, maxval, k) by {}
            assert(g.admits(w)) by {
                assert forall|k: int| 0 <= k < w.len() implies w[k] < g.spec_base() by {
                    assert(v[k] < g.spec_base());
                }
            }
            assert(first_difference(a, b, i)) by {
                assert forall|j: int| 0 <= j < i implies a[j] == b[j] by {
                    assert(!carries_into(v, maxval, j));
                }
            }
            assert forall|u: Seq<u8>| #[trigger] g.admits(u) implies !(precedes(g, v, u)
                && precedes(g, u, w)) by {
                let c = ints_of_u8(u);
                if lex_less(a, c) && lex_less(c, b) {
                    assert forall|k: int| 0 <= k < i implies a[k] == b[k] by {
                        assert(!carries_into(v, maxval, k));
                    }
                    let (k1, k2) = lemma_lex_between(a, c, b, i);
                    assert(u[k1] < g.spec_base());
                    assert(u[k2] < g.spec_base());
                    if k1 > i {
                        assert(v[k1] == maxval);
                    } else if k2 > i {
                        assert(v[k2] == maxval);
                        assert(carries_into(v, maxval, k2)) by {
                            assert forall|k: int| k2 < k < v.len() implies v[k] == maxval by {}
                        }
                        assert(b[k2] == 0);
                    }
                }
            }
        }
    }
}

/// Where not every digit stands at the maximum, the carry stops at some
/// place.
proof fn lemma_carry_stops(v: Seq<u8>, maxval: u8, n: int)
    requires
        0 <= n <= v.len(),
        forall|k: int| n <= k < v.len() ==> v[k] == maxval,
        exists|k: int| 0 <= k < n && v[k] != maxval,
    ensures
        exists|i: int| 0 <= i < v.len() && v[i] != maxval && carries_into(v, maxval, i),
    decreases n,
{
    if v[n - 1] != maxval {
        assert(carries_into(v, maxval, n - 1));
    } else {
        let k = choose|k: int| 0 <= k < n && v[k] != maxval;
        assert(k < n - 1);
        lemma_carry_stops(v, maxval, n - 1);
    }
}

/// The walk through the universe of a configuration with repetition: an
/// odometer with one wheel for each place of a value.
pub struct NumbersWithRepetitions {
    cur_number: Option<Number>,
    params: GameParams,
}

impl NumbersWithRepetitions {
    /// The configuration whose universe is walked.
    pub closed spec fn params(&self) -> GameParams {
        self.params
    }

    /// The value that the walk stands at.
    pub closed spec fn current(&self) -> Option<Seq<u8>> {
        held_view(self.cur_number)
    }

    /// The walk is in a state that it can reach.
    pub closed spec fn wf(&self) -> bool {
        &&& self.params.spec_has_repetitions()
        &&& self.cur_number is Some ==> self.params.admits(self.cur_number->0@)
    }

    /// A walk that stands before the first value.
    pub fn new(g: &GameParams) -> (it: Self)
        requires
            g.spec_has_repetitions(),
        ensures
            it.wf(),
            it.params() == *g,
            it.current() is None,
    {
        NumbersWithRepetitions { cur_number: None, params: *g }
    }
}

impl RefIter for NumbersWithRepetitions {
    type Item = Number;

    closed spec fn ready(&self) -> bool {
        self.wf()
    }

    closed spec fn held(&self) -> Option<Number> {
        self.cur_number
    }

    fn next(&mut self) -> (r: Option<&Number>)
        ensures
            final(self).wf(),
            final(self).params() == old(self).params(),
            follows(old(self).params(), old(self).current(), final(self).current()),
            counts_up(old(self).params(), old(self).current(), final(self).current()),
            final(self).current() == held_view(final(self).held()),
    {
        let base = self.params.base();
        let len = self.params.number_len();
        let cur = self.cur_number.take();
        match cur {
            Some(num) => {
                let mut data = num.into_digits();
                let maxval: u8 = if base == 0 { 0 } else { base - 1 };
                let ghost v = data@;
                proof {
                    lemma_odometer_follows(self.params, v, maxval);
                }
                if increase_vector(data.as_mut_slice(), maxval) {
                    self.cur_number = Some(Number::new(data));
                }
            },
            None => {
                if base == 0 && len > 0 {
                    proof {
                        lemma_no_values_without_digits(self.params);
                    }
                } else {
                    let mut data: Vec<u8> = Vec::new();
                    let mut i: u8 = 0;
                    while i < len
                        invariant
                            i <= len,
                            data.len() == i,
                            forall|k: int| 0 <= k < i ==> data@[k] == 0,
                        decreases len - i,
                    {
                        data.push(0);
                        i += 1;
                    }
                    proof {
                        lemma_zeros_are_first(self.params, data@);
                    }
                    self.cur_number = Some(Number::new(data));
                }
            },
        }
        self.cur_number.as_ref()
    }
}

// ---------------------------------------------------------------------
// Without repetition: digit sets, and the arrangements of each set
// ---------------------------------------------------------------------
/// A sequence of one value counts that value at every place and no other
/// value.
proof fn lemma_count_constant(n: nat, c: int, x: int)
    ensures
        count_of(Seq::new(n, |i: int| c), x) == if x == c { n } else { 0 },
    decreases n,
{
    let s = Seq::new(n, |i: int| c);
    if n > 0 {
        lemma_count_constant((n - 1) as nat, c, x);
        assert(s.drop_last() =~= Seq::new((n - 1) as nat, |i: int| c));
    }
}

/// The mask of a value without repetition holds a 1 for each of its digits
/// and a 0 for every other digit of the alphabet.
proof fn lemma_mask_counts(v: Seq<u8>, base: u8, x: int)
    requires
        all_distinct(v),
        forall|i: int| 0 <= i < v.len() ==> v[i] < base,
    ensures
        x == 1 ==> count_of(digit_mask(v, base), x) == v.len(),
        x == 0 ==> count_of(digit_mask(v, base), x) + v.len() == base,
        x != 0 && x != 1 ==> count_of(digit_mask(v, base), x) == 0,
    decreases v.len(),
{
    let m = digit_mask(v, base);
    if v.len() == 0 {
        assert(m =~= Seq::new(base as nat, |i: int| 0int));
        lemma_count_constant(base as nat, 0, x);
    } else {
        let v0 = v.drop_last();
        let d = v.last();
        let m0 = digit_mask(v0, base);
        assert(all_distinct(v0));
        lemma_mask_counts(v0, base, x);
        if v0.contains(d) {
            let k = choose|k: int| 0 <= k < v0.len() && v0[k] == d;
            assert(v[k] == v[v.len() - 1]);
        }
        assert(v[v.len() - 1] < base);
        assert forall|e: int| 0 <= e < base implies m[e] == m0.update(d as int, 1)[e] by {
            if v.contains(e as u8) {
                let k = choose|k: int| 0 <= k < v.len() && v[k] == e as u8;
                if k < v0.len() {
                    assert(v0[k] == e as u8);
                }
            }
            if v0.contains(e as u8) {
                let k = choose|k: int| 0 <= k < v0.len() && v0[k] == e as u8;
                assert(v[k] == e as u8);
            }
            if e == d {
                assert(v[v.len() - 1] == e as u8);
            }
        }
        assert(m =~= m0.update(d as int, 1));
        lemma_count_update(m0, d as int, 1, x);
    }
}

/// The masks of two values of one configuration without repetition are
/// rearrangements of each other.
proof fn lemma_masks_rearranged(g: GameParams, u: Seq<u8>, v: Seq<u8>)
    requires
        !g.spec_has_repetitions(),
        g.admits(u),
        g.admits(v),
    ensures
        same_counts(digit_mask(u, g.spec_base()), digit_mask(v, g.spec_base())),
{
    assert forall|x: int| #[trigger]
        count_of(digit_mask(u, g.spec_base()), x) == count_of(digit_mask(v, g.spec_base()), x) by {
        lemma_mask_counts(u, g.spec_base(), x);
        lemma_mask_counts(v, g.spec_base(), x);
    }
}

/// Two values without repetition that hold the same digits are
/// rearrangements of each other.
proof fn lemma_same_mask_rearranged(u: Seq<u8>, v: Seq<u8>, base: u8)
    requires
        all_distinct(u),
        all_distinct(v),
        u.len() == v.len(),
        forall|i: int| 0 <= i < u.len() ==> u[i] < base,
        forall|i: int| 0 <= i < v.len() ==> v[i] < base,
        digit_mask(u, base) == digit_mask(v, base),
    ensures
        same_counts(ints_of_u8(u), ints_of_u8(v)),
{
    let a = ints_of_u8(u);
    let b = ints_of_u8(v);
    assert(all_distinct(a)) by {
        assert forall|i: int, j: int| 0 <= i < j < a.len() implies a[i] != a[j] by {
            assert(u[i] != u[j]);
        }
    }
    assert(all_distinct(b)) by {
        assert forall|i: int, j: int| 0 <= i < j < b.len() implies b[i] != b[j] by {
            assert(v[i] != v[j]);
        }
    }
    assert forall|x: int| #[trigger] count_of(a, x) == count_of(b, x) by {
        lemma_distinct_count(a, x);
        lemma_distinct_count(b, x);
        if a.contains(x) {
            let k = choose|k: int| 0 <= k < a.len() && a[k] == x;
            assert(u[k] == x as u8);
            assert(u.contains(x as u8));
            assert(digit_mask(u, base)[x] == 1);
            assert(digit_mask(v, base)[x] == 1);
            let k2 = choose|k2: int| 0 <= k2 < v.len() && v[k2] == x as u8;
            assert(b[k2] == x);
        }
        if b.contains(x) {
            let k = choose|k: int| 0 <= k < b.len() && b[k] == x;
            assert(v[k] == x as u8);
            assert(v.contains(x as u8));
            assert(digit_mask(v, base)[x] == 1);
            assert(digit_mask(u, base)[x] == 1);
            let k2 = choose|k2: int| 0 <= k2 < u.len() && u[k2] == x as u8;
            assert(a[k2] == x);
        }
    }
}

/// A rearrangement of a value holds the same digits.
proof fn lemma_rearranged_same_mask(u: Seq<u8>, v: Seq<u8>, base: u8)
    requires
        same_counts(ints_of_u8(u), ints_of_u8(v)),
    ensures
        digit_mask(u, base) == digit_mask(v, base),
{
    let a = ints_of_u8(u);
    let b = ints_of_u8(v);
    assert forall|d: int| 0 <= d < base implies digit_mask(u, base)[d] == digit_mask(v, base)[d] by {
        assert(count_of(a, d) == count_of(b, d));
        if u.contains(d as u8) {
            let k = choose|k: int| 0 <= k < u.len() && u[k] == d as u8;
            assert(a[k] == d);
            lemma_count_of_member(a, k);
            let k2 = lemma_count_witness(b, d);
            assert(v[k2] == d as u8);
        }
        if v.contains(d as u8) {
            let k = choose|k: int| 0 <= k < v.len() && v[k] == d as u8;
            assert(b[k] == d);
            lemma_count_of_member(b, k);
            let k2 = lemma_count_witness(a, d);
            assert(u[k2] == d as u8);
        }
    }
    assert(digit_mask(u, base) =~= digit_mask(v, base));
}

/// A rearrangement of a value of a configuration is a value of it.
proof fn lemma_rearranged_admitted(g: GameParams, v: Seq<u8>, w: Seq<u8>)
    requires
        !g.spec_has_repetitions(),
        g.admits(v),
        same_counts(ints_of_u8(w), ints_of_u8(v)),
    ensures
        g.admits(w),
{
    let a = ints_of_u8(v);
    let b = ints_of_u8(w);
    assert(all_distinct(a)) by {
        assert forall|i: int, j: int| 0 <= i < j < a.len() implies a[i] != a[j] by {
            assert(v[i] != v[j]);
        }
    }
    assert forall|k: int| 0 <= k < w.len() implies w[k] < g.spec_base() by {
        assert(b[k] == w[k]);
        lemma_count_of_member(b, k);
        assert(count_of(b, b[k]) == count_of(a, b[k]));
        let k2 = lemma_count_witness(a, b[k]);
        assert(v[k2] < g.spec_base());
    }
    assert forall|i: int, j: int| 0 <= i < j < w.len() implies w[i] != w[j] by {
        if w[i] == w[j] {
            assert(b[i] == b[j]);
            lemma_count_two(b, i, j);
            assert(count_of(b, b[i]) == count_of(a, b[i]));
            lemma_distinct_count(a, b[i]);
        }
    }
}

/// The next arrangement of a value is the value that follows it in the
/// universe.
proof fn lemma_step_within_group(g: GameParams, v: Seq<u8>, w: Seq<u8>)
    requires
        !g.spec_has_repetitions(),
        g.admits(v),
        is_next_arrangement(ints_of_u8(v), ints_of_u8(w)),
    ensures
        g.admits(w),
        digit_mask(w, g.spec_base()) == digit_mask(v, g.spec_base()),
        follows(g, Some(v), Some(w)),
{
    let base = g.spec_base();
    let a = ints_of_u8(v);
    let b = ints_of_u8(w);
    let mv = digit_mask(v, base);
    lemma_rearranged_admitted(g, v, w);
    lemma_rearranged_same_mask(w, v, base);
    assert forall|u: Seq<u8>| #[trigger] g.admits(u) implies !(precedes(g, v, u) && precedes(
        g,
        u,
        w,
    )) by {
        let c = ints_of_u8(u);
        let mu = digit_mask(u, base);
        if precedes(g, v, u) && precedes(g, u, w) {
            if lex_less(mv, mu) {
                lemma_lex_asymmetric(mv, mu);
            } else {
                if lex_less(mu, mv) {
                    lemma_lex_asymmetric(mu, mv);
                }
                lemma_same_mask_rearranged(u, v, base);
                assert(same_counts(c, a));
            }
        }
    }
}

/// After the last arrangement of a set of digits comes the first
/// arrangement of the set with the next mask.
proof fn lemma_step_to_next_group(g: GameParams, v: Seq<u8>, m2: Seq<int>, w: Seq<u8>)
    requires
        !g.spec_has_repetitions(),
        g.admits(v),
        g.admits(w),
        is_last_arrangement(ints_of_u8(v)),
        is_next_arrangement(digit_mask(v, g.spec_base()), m2),
        digit_mask(w, g.spec_base()) == m2,
        non_decreasing_from(ints_of_u8(w), 0),
    ensures
        follows(g, Some(v), Some(w)),
{
    let base = g.spec_base();
    let a = ints_of_u8(v);
    let b = ints_of_u8(w);
    let mv = digit_mask(v, base);
    lemma_non_decreasing_is_first(b);
    assert forall|u: Seq<u8>| #[trigger] g.admits(u) implies !(precedes(g, v, u) && precedes(
        g,
        u,
        w,
    )) by {
        let c = ints_of_u8(u);
        let mu = digit_mask(u, base);
        if precedes(g, v, u) && precedes(g, u, w) {
            lemma_masks_rearranged(g, u, v);
            if lex_less(mv, mu) {
                if lex_less(mu, m2) {
                    assert(same_counts(mu, mv));
                } else {
                    lemma_same_mask_rearranged(u, w, base);
                    assert(same_counts(c, b));
                }
            } else {
                lemma_same_mask_rearranged(u, v, base);
                assert(same_counts(c, a));
            }
        }
    }
}

/// The last arrangement of the set with the last mask has no value after
/// it.
proof fn lemma_step_end(g: GameParams, v: Seq<u8>)
    requires
        !g.spec_has_repetitions(),
        g.admits(v),
        is_last_arrangement(ints_of_u8(v)),
        is_last_arrangement(digit_mask(v, g.spec_base())),
    ensures
        follows(g, Some(v), None),
{
    let base = g.spec_base();
    let a = ints_of_u8(v);
    let mv = digit_mask(v, base);
    assert forall|u: Seq<u8>| #[trigger] g.admits(u) implies !precedes(g, v, u) by {
        let c = ints_of_u8(u);
        let mu = digit_mask(u, base);
        if precedes(g, v, u) {
            lemma_masks_rearranged(g, u, v);
            if lex_less(mv, mu) {
                assert(same_counts(mu, mv));
            } else {
                lemma_same_mask_rearranged(u, v, base);
                assert(same_counts(c, a));
            }
        }
    }
}

/// The rising arrangement of the set with the first mask is the first value
/// of the universe.
proof fn lemma_first_without_repetitions(g: GameParams, w: Seq<u8>)
    requires
        !g.spec_has_repetitions(),
        g.admits(w),
        non_decreasing_from(ints_of_u8(w), 0),
        non_decreasing_from(digit_mask(w, g.spec_base()), 0),
    ensures
        follows(g, None, Some(w)),
{
    let base = g.spec_base();
    let b = ints_of_u8(w);
    let mw = digit_mask(w, base);
    lemma_non_decreasing_is_first(b);
    lemma_non_decreasing_is_first(mw);
    assert forall|u: Seq<u8>| #[trigger] g.admits(u) implies u == w || precedes(g, w, u) by {
        let c = ints_of_u8(u);
        let mu = digit_mask(u, base);
        lemma_masks_rearranged(g, u, w);
        assert(same_counts(mu, mw));
        lemma_lex_total(mu, mw);
        if mu == mw {
            lemma_same_mask_rearranged(u, w, base);
            assert(same_counts(c, b));
            lemma_lex_total(c, b);
            if c == b {
                crate::universe::lemma_ints_injective(u, w);
            }
        }
    }
}

/// No value holds more different digits than the alphabet has.
proof fn lemma_none_without_repetitions(g: GameParams)
    requires
        !g.spec_has_repetitions(),
        g.spec_number_len() > g.spec_base(),
    ensures
        follows(g, None, None),
{
    assert forall|u: Seq<u8>| !#[trigger] g.admits(u) by {
        if g.admits(u) {
            lemma_mask_counts(u, g.spec_base(), 1);
            lemma_count_bound(digit_mask(u, g.spec_base()), 1);
        }
    }
}

/// The digits that a mask marks, in rising order.
fn indices_of_mask(mask: &Vec<u8>) -> (r: Vec<u8>)
    requires
        mask.len() <= MAX_BASE,
    ensures
        forall|i: int, j: int| 0 <= i < j < r.len() ==> r@[i] < r@[j],
        forall|i: int| 0 <= i < r.len() ==> r@[i] < mask.len(),
        forall|d: int| 0 <= d < mask.len() ==> (r@.contains(d as u8) <==> mask@[d] != 0),
        r.len() + count_of(ints_of_u8(mask@), 0) == mask.len(),
{
    let mut r: Vec<u8> = Vec::new();
    let mut d: usize = 0;
    let ghost m = ints_of_u8(mask@);
    while d < mask.len()
        invariant
            d <= mask.len(),
            mask.len() <= MAX_BASE,
            m == ints_of_u8(mask@),
            forall|i: int, j: int| 0 <= i < j < r.len() ==> r@[i] < r@[j],
            forall|i: int| 0 <= i < r.len() ==> r@[i] < d,
            forall|e: int| 0 <= e < d ==> (r@.contains(e as u8) <==> mask@[e] != 0),
            r.len() + count_of(m.take(d as int), 0) == d,
        decreases mask.len() - d,
    {
        let ghost r0 = r@;
        if mask[d] != 0 {
            r.push(d as u8);
        }
        proof {
            assert(m.take(d + 1).drop_last() =~= m.take(d as int));
            assert(m.take(d + 1).last() == mask@[d as int]);
            assert forall|e: int| 0 <= e < d + 1 implies (r@.contains(e as u8) <==> mask@[e]
                != 0) by {
                if r0.contains(e as u8) {
                    let k = choose|k: int| 0 <= k < r0.len() && r0[k] == e as u8;
                    assert(r@[k] == e as u8);
                }
                if r@.contains(e as u8) {
                    let k = choose|k: int| 0 <= k < r@.len() && r@[k] == e as u8;
                    if k < r0.len() {
                        assert(r0[k] == e as u8);
                    }
                }
                if e == d && mask@[e] != 0 {
                    assert(r@[r@.len() - 1] == e as u8);
                }
            }
        }
        d += 1;
    }
    assert(m.take(mask.len() as int) =~= m);
    r
}

/// The walk through the universe of a configuration without repetition:
/// through the sets of digits, and for each set through its arrangements.
pub struct NumbersWithoutRepetitions {
    cur_number: Option<Number>,
    used_digits: Vec<u8>,
    params: GameParams,
}

impl NumbersWithoutRepetitions {
    /// The configuration whose universe is walked.
    pub closed spec fn params(&self) -> GameParams {
        self.params
    }

    /// The value that the walk stands at.
    pub closed spec fn current(&self) -> Option<Seq<u8>> {
        held_view(self.cur_number)
    }

    /// The walk is in a state that it can reach.
    pub closed spec fn wf(&self) -> bool {
        &&& !self.params.spec_has_repetitions()
        &&& self.cur_number is Some ==> {
            &&& self.params.admits(self.cur_number->0@)
            &&& ints_of_u8(self.used_digits@) == digit_mask(
                self.cur_number->0@,
                self.params.spec_base(),
            )
        }
    }

    /// A walk that stands before the first value.
    pub fn new(g: &GameParams) -> (it: Self)
        requires
            !g.spec_has_repetitions(),
        ensures
            it.wf(),
            it.params() == *g,
            it.current() is None,
    {
        NumbersWithoutRepetitions { cur_number: None, used_digits: Vec::new(), params: *g }
    }
}

impl RefIter for NumbersWithoutRepetitions {
    type Item = Number;

    closed spec fn ready(&self) -> bool {
        self.wf()
    }

    closed spec fn held(&self) -> Option<Number> {
        self.cur_number
    }

    fn next(&mut self) -> (r: Option<&Number>)
        ensures
            final(self).wf(),
            final(self).params() == old(self).params(),
            follows(old(self).params(), old(self).current(), final(self).current()),
            final(self).current() == held_view(final(self).held()),
    {
        let base = self.params.base();
        let len = self.params.number_len();
        let ghost g = self.params;
        let cur = self.cur_number.take();
        match cur {
            Some(num) => {
                let mut data = num.into_digits();
                let ghost v = data@;
                let ghost mv = ints_of_u8(self.used_digits@);
                if next_permutation(data.as_mut_slice()) {
                    proof {
                        lemma_step_within_group(g, v, data@);
                    }
                    self.cur_number = Some(Number::new(data));
                } else if next_permutation(self.used_digits.as_mut_slice()) {
                    let ghost m2 = ints_of_u8(self.used_digits@);
                    proof {
                        assert(m2.len() == mv.len());
                    }
                    let w = indices_of_mask(&self.used_digits);
                    proof {
                        lemma_mask_counts(v, base, 0);
                        assert(count_of(m2, 0) == count_of(mv, 0));
                        assert forall|d: int| 0 <= d < base implies digit_mask(w@, base)[d]
                            == m2[d] by {
                            lemma_count_of_member(m2, d);
                            assert(count_of(m2, m2[d]) == count_of(mv, m2[d]));
                            lemma_mask_counts(v, base, m2[d]);
                            assert(m2[d] == self.used_digits@[d] as int);
                        }
                        assert(digit_mask(w@, base) =~= m2);
                        assert(all_distinct(w@));
                        assert(non_decreasing_from(ints_of_u8(w@), 0));
                        lemma_step_to_next_group(g, v, m2, w@);
                    }
                    self.cur_number = Some(Number::new(w));
                } else {
                    proof {
                        lemma_step_end(g, v);
                    }
                }
            },
            None => {
                if len > base {
                    proof {
                        lemma_none_without_repetitions(g);
                    }
                } else {
                    let mut mask: Vec<u8> = Vec::new();
                    let mut data: Vec<u8> = Vec::new();
                    let mut d: u8 = 0;
                    while d < base
                        invariant
                            d <= base,
                            len <= base,
                            mask.len() == d,
                            forall|k: int|
                                0 <= k < d ==> mask@[k] == if k < base - len {
                                    0u8
                                } else {
                                    1u8
                                },
                            data.len() == if d < base - len {
                                0
                            } else {
                                d - (base - len)
                            },
                            forall|k: int| 0 <= k < data.len() ==> data@[k] == base - len + k,
                        decreases base - d,
                    {
                        if d < base - len {
                            mask.push(0);
                        } else {
                            mask.push(1);
                            data.push(d);
                        }
                        d += 1;
                    }
                    proof {
                        let w = data@;
                        let m = ints_of_u8(mask@);
                        assert forall|e: int| 0 <= e < base implies digit_mask(w, base)[e]
                            == m[e] by {
                            if e >= base - len {
                                assert(w[e - (base - len)] == e as u8);
                            }
                            if w.contains(e as u8) {
                                let k = choose|k: int| 0 <= k < w.len() && w[k] == e as u8;
                            }
                        }
                        assert(digit_mask(w, base) =~= m);
                        assert(all_distinct(w));
                        assert(g.admits(w));
                        lemma_first_without_repetitions(g, w);
                    }
                    self.used_digits = mask;
                    self.cur_number = Some(Number::new(data));
                }
            },
        }
        self.cur_number.as_ref()
    }
}

/// A walk through the universe of any configuration.
pub enum NumbersIter {
    WithRepetitions(NumbersWithRepetitions),
    WithoutRepetitions(NumbersWithoutRepetitions),
}

impl NumbersIter {
    /// The configuration whose universe is walked.
    pub open spec fn params(&self) -> GameParams {
        match self {
            NumbersIter::WithRepetitions(it) => it.params(),
            NumbersIter::WithoutRepetitions(it) => it.params(),
        }
    }

    /// The value that the walk stands at.
    pub open spec fn current(&self) -> Option<Seq<u8>> {
        match self {
            NumbersIter::WithRepetitions(it) => it.current(),
            NumbersIter::WithoutRepetitions(it) => it.current(),
        }
    }

    /// The walk is in a state that it can reach.
    pub open spec fn wf(&self) -> bool {
        match self {
            NumbersIter::WithRepetitions(it) => it.wf() && it.params().spec_has_repetitions(),
            NumbersIter::WithoutRepetitions(it) => it.wf() && !it.params().spec_has_repetitions(),
        }
    }

    /// Moves to the next value of the universe and returns a copy of it, or
    /// `None` at the end. A further call starts the walk again.
    pub fn next_number(&mut self) -> (r: Option<Number>)
        requires
            old(self).wf(),
        ensures
            final(self).wf(),
            final(self).params() == old(self).params(),
            follows(old(self).params(), old(self).current(), final(self).current()),
            old(self).params().spec_has_repetitions() ==> counts_up(
                old(self).params(),
                old(self).current(),
                final(self).current(),
            ),
            held_view(r) == final(self).current(),
    {
        match self.next() {
            Some(x) => Some(x.clone()),
            None => None,
        }
    }
}

impl RefIter for NumbersIter {
    type Item = Number;

    open spec fn ready(&self) -> bool {
        self.wf()
    }

    open spec fn held(&self) -> Option<Number> {
        match self {
            NumbersIter::WithRepetitions(it) => it.held(),
            NumbersIter::WithoutRepetitions(it) => it.held(),
        }
    }

    fn next(&mut self) -> (r: Option<&Number>)
        ensures
            final(self).params() == old(self).params(),
            follows(old(self).params(), old(self).current(), final(self).current()),
            old(self).params().spec_has_repetitions() ==> counts_up(
                old(self).params(),
                old(self).current(),
                final(self).current(),
            ),
            final(self).current() == held_view(final(self).held()),
    {
        match self {
            NumbersIter::WithRepetitions(it) => it.next(),
            NumbersIter::WithoutRepetitions(it) => it.next(),
        }
    }
}

/// A walk through the universe of `g` that stands before the first value.
pub fn get_numbers_iter(g: &GameParams) -> (it: NumbersIter)
    ensures
        it.wf(),
        it.params() == *g,
        it.current() is None,
{
    if !g.has_repetitions() {
        NumbersIter::WithoutRepetitions(NumbersWithoutRepetitions::new(g))
    } else {
        NumbersIter::WithRepetitions(NumbersWithRepetitions::new(g))
    }
}

impl GameParams {
    /// A walk through the universe of this configuration that stands before
    /// the first value.
    pub fn get_numbers_iter(&self) -> (it: NumbersIter)
        ensures
            it.wf(),
            it.params() == *self,
            it.current() is None,
    {
        get_numbers_iter(self)
    }
}

/// The whole universe of `g`, in generation order: with repetition as many
/// values as the alphabet size to the power of the length, without it as
/// many as the product of that many numbers from the alphabet size downwards.
pub fn collect_numbers(g: &GameParams) -> (r: Vec<Number>)
    ensures
        lists_universe(*g, views_of(r@)),
        r.len() == universe_size(*g),
{
    let mut it = get_numbers_iter(g);
    let mut out: Vec<Number> = Vec::new();
    loop
        invariant
            it.wf(),
            it.params() == *g,
            lists_up_to(*g, views_of(out@), it.current()),
        decreases
                order_key_bound(*g) - (match it.current() {
                    None => -1,
                    Some(v) => order_key(*g, v),
                }),
    {
        let ghost cur = it.current();
        let ghost listing = views_of(out@);
        match it.next_number() {
            Some(x) => {
                proof {
                    lemma_listing_grows(*g, listing, cur, x@);
                    lemma_order_key_bounds(*g, x@);
                    if cur is Some {
                        assert(g.admits(listing[listing.len() - 1]));
                        lemma_precedes_key(*g, cur->0, x@);
                    }
                    assert(views_of(out@.push(x)) =~= listing.push(x@));
                }
                out.push(x);
            },
            None => {
                proof {
                    lemma_listing_complete(*g, listing, cur);
                    lemma_universe_size(*g, listing);
                }
                return out;
            },
        }
    }
}

/// A listing of the universe holds as many values as the size of the
/// universe says. Without repetition that is the falling product: the
/// alphabet size times one less and so on, as many factors as a value has
/// digits. With repetition it is the alphabet size to the power of the
/// length.
pub proof fn lemma_universe_size(g: GameParams, listing: Seq<Seq<u8>>)
    requires
        lists_universe(g, listing),
    ensures
        listing.len() == universe_size(g),
{
    lemma_listing_is_exact(g, listing);
    if g.spec_has_repetitions() {
        assert forall|v: Seq<u8>|
            listing.contains(v) <==> v.len() == g.spec_number_len() as nat && forall|k: int|
                0 <= k < v.len() ==> v[k] < g.spec_base() by {
            assert(g.admits(v) <==> listing.contains(v));
        }
        crate::arrangements::lemma_count_of_tuples(
            listing,
            g.spec_base(),
            g.spec_number_len() as nat,
        );
    } else {
        assert forall|v: Seq<u8>|
            listing.contains(v) <==> v.len() == g.spec_number_len() as nat && all_distinct(v)
                && forall|k: int| 0 <= k < v.len() ==> v[k] < g.spec_base() by {
            assert(g.admits(v) <==> listing.contains(v));
        }
        crate::arrangements::lemma_count_of_arrangements(
            listing,
            g.spec_base(),
            g.spec_number_len() as nat,
        );
    }
}

/// Generating the universe of one configuration twice, or of two
/// configurations that agree in length, alphabet and repetition, yields the
/// same values: as sets, and even place by place.
pub proof fn lemma_generation_idempotent(
    g1: GameParams,
    g2: GameParams,
    first: Seq<Seq<u8>>,
    second: Seq<Seq<u8>>,
)
    requires
        g1.spec_number_len() == g2.spec_number_len(),
        g1.spec_base() == g2.spec_base(),
        g1.spec_has_repetitions() == g2.spec_has_repetitions(),
        lists_universe(g1, first),
        lists_universe(g2, second),
    ensures
        first.to_set() == second.to_set(),
        first == second,
{
    assert forall|v: Seq<u8>| g1.admits(v) == g2.admits(v) by {}
    assert forall|v: Seq<u8>, w: Seq<u8>| precedes(g1, v, w) == precedes(g2, v, w) by {}
    assert(lists_universe(g1, second));
    crate::universe::lemma_listing_unique(g1, first, second);
}

/// A listing of a universe holds values of the configuration's length whose
/// digits belong to its alphabet; without repetition no value holds a digit
/// twice; no value is listed twice; and every such value is listed.
pub proof fn lemma_listing_is_exact(g: GameParams, listing: Seq<Seq<u8>>)
    requires
        lists_universe(g, listing),
    ensures
        forall|k: int|
            0 <= k < listing.len() ==> (#[trigger] listing[k]).len() == g.spec_number_len(),
        forall|k: int, i: int|
            0 <= k < listing.len() && 0 <= i < listing[k].len() ==> (#[trigger] listing[k][i])
                < g.spec_base(),
        !g.spec_has_repetitions() ==> forall|k: int|
            0 <= k < listing.len() ==> all_distinct(#[trigger] listing[k]),
        listing.no_duplicates(),
        forall|v: Seq<u8>| g.admits(v) <==> listing.contains(v),
{
    assert forall|i: int, j: int| 0 <= i < listing.len() && 0 <= j < listing.len() && i
        != j implies listing[i] != listing[j] by {
        assert(g.admits(listing[i]));
        assert(g.admits(listing[j]));
        crate::universe::lemma_precedes_order(g, listing[i], listing[j]);
        crate::universe::lemma_precedes_order(g, listing[i], listing[i]);
        if i < j {
            assert(precedes(g, listing[i], listing[j]));
        } else {
            assert(precedes(g, listing[j], listing[i]));
        }
    }
    assert forall|k: int| 0 <= k < listing.len() implies (#[trigger] listing[k]).len()
        == g.spec_number_len() by {
        assert(g.admits(listing[k]));
    }
    assert forall|k: int, i: int|
        0 <= k < listing.len() && 0 <= i < listing[k].len() implies (#[trigger] listing[k][i])
        < g.spec_base() by {
        assert(g.admits(listing[k]));
    }
    if !g.spec_has_repetitions() {
        assert forall|k: int| 0 <= k < listing.len() implies all_distinct(
            #[trigger] listing[k],
        ) by {
            assert(g.admits(listing[k]));
        }
    }
    assert forall|v: Seq<u8>| listing.contains(v) implies g.admits(v) by {
        let k = choose|k: int| 0 <= k < listing.len() && listing[k] == v;
        assert(g.admits(listing[k]));
    }
}

} // verus!

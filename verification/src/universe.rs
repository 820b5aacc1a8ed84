//! The candidate universe of a configuration as a mathematical object: which
//! values belong to it, and the order in which they are generated.

use vstd::prelude::*;
use crate::comb_utils::{
    first_difference, ints_of_u8, lemma_lex_asymmetric, lemma_lex_total, lemma_lex_transitive,
    lemma_lex_witness, lex_less,
};
use crate::game_params::GameParams;

verus! {

/// `b` to the power `e`.
pub open spec fn power(b: nat, e: nat) -> nat
    decreases e,
{
    if e == 0 {
        1
    } else {
        b * power(b, (e - 1) as nat)
    }
}

/// The product of the `count` numbers from `from` downwards.
pub open spec fn falling_product(from: nat, count: nat) -> nat
    decreases count,
{
    if count == 0 {
        1
    } else if from == 0 {
        0
    } else {
        from * falling_product((from - 1) as nat, (count - 1) as nat)
    }
}

/// The number that the digits `s` write in base `base`, most significant
/// digit first.
pub open spec fn number_value(s: Seq<int>, base: int) -> int
    decreases s.len(),
{
    if s.len() == 0 {
        0
    } else {
        number_value(s.drop_last(), base) * base + s.last()
    }
}

/// Every entry of `s` is a digit of base `base`.
pub open spec fn digits_in(s: Seq<int>, base: int) -> bool {
    forall|i: int| 0 <= i < s.len() ==> 0 <= #[trigger] s[i] < base
}

/// The powers of a positive number are positive.
pub proof fn lemma_power_positive(b: nat, e: nat)
    requires
        b > 0,
    ensures
        power(b, e) > 0,
    decreases e,
{
    if e > 0 {
        lemma_power_positive(b, (e - 1) as nat);
        assert(b * power(b, (e - 1) as nat) > 0) by (nonlinear_arith)
            requires
                b > 0,
                power(b, (e - 1) as nat) > 0,
        ;
    }
}

/// A number of `s.len()` digits is below the base to that power.
pub proof fn lemma_value_bounds(s: Seq<int>, base: int)
    requires
        digits_in(s, base),
        base >= 0,
    ensures
        0 <= number_value(s, base) < power(base as nat, s.len()),
    decreases s.len(),
{
    if s.len() > 0 {
        let t = s.drop_last();
        assert(digits_in(t, base)) by {
            assert forall|i: int| 0 <= i < t.len() implies 0 <= #[trigger] t[i] < base by {
                assert(t[i] == s[i]);
            }
        }
        lemma_value_bounds(t, base);
        let v = number_value(t, base);
        let p = power(base as nat, t.len()) as int;
        let d = s.last();
        assert(0 <= d < base);
        assert(power(base as nat, s.len()) == base * p);
        assert(0 <= v * base + d < base * p) by (nonlinear_arith)
            requires
                0 <= v < p,
                0 <= d < base,
        ;
    }
}

/// Among numbers of one length, the lexicographically smaller is the
/// smaller number.
pub proof fn lemma_value_lex(a: Seq<int>, b: Seq<int>, base: int)
    requires
        a.len() == b.len(),
        digits_in(a, base),
        digits_in(b, base),
        lex_less(a, b),
    ensures
        number_value(a, base) < number_value(b, base),
    decreases a.len(),
{
    let k = lemma_lex_witness(a, b);
    let a0 = a.drop_last();
    let b0 = b.drop_last();
    if k == a.len() - 1 {
        assert(a0 =~= b0);
    } else {
        assert(first_difference(a0, b0, k));
        assert(digits_in(a0, base)) by {
            assert forall|i: int| 0 <= i < a0.len() implies 0 <= #[trigger] a0[i] < base by {
                assert(a0[i] == a[i]);
            }
        }
        assert(digits_in(b0, base)) by {
            assert forall|i: int| 0 <= i < b0.len() implies 0 <= #[trigger] b0[i] < base by {
                assert(b0[i] == b[i]);
            }
        }
        lemma_value_lex(a0, b0, base);
        let va = number_value(a0, base);
        let vb = number_value(b0, base);
        let da = a.last();
        let db = b.last();
        assert(0 <= da < base && 0 <= db < base);
        assert(va * base + da < vb * base + db) by (nonlinear_arith)
            requires
                va < vb,
                0 <= da < base,
                0 <= db < base,
        ;
    }
}

/// Which digits below `base` the value `v` holds: 1 at the place of each
/// digit that occurs, 0 elsewhere.
pub open spec fn digit_mask(v: Seq<u8>, base: u8) -> Seq<int> {
    Seq::new(base as nat, |d: int| if v.contains(d as u8) { 1int } else { 0int })
}

/// `v` is generated before `w`. With repetition the values come in
/// lexicographic order. Without it they come grouped by the set of their
/// digits, the sets in the lexicographic order of their masks, and in
/// lexicographic order within a group.
pub open spec fn precedes(g: GameParams, v: Seq<u8>, w: Seq<u8>) -> bool {
    if g.spec_has_repetitions() {
        lex_less(ints_of_u8(v), ints_of_u8(w))
    } else {
        let mv = digit_mask(v, g.spec_base());
        let mw = digit_mask(w, g.spec_base());
        lex_less(mv, mw) || (mv == mw && lex_less(ints_of_u8(v), ints_of_u8(w)))
    }
}

/// `listing` holds the universe of `g` exactly: values of `g` only, each
/// value of `g`, in generation order and so none twice.
pub open spec fn lists_universe(g: GameParams, listing: Seq<Seq<u8>>) -> bool {
    &&& forall|k: int| 0 <= k < listing.len() ==> g.admits(#[trigger] listing[k])
    &&& forall|i: int, j: int|
        0 <= i < j < listing.len() ==> precedes(g, #[trigger] listing[i], #[trigger] listing[j])
    &&& forall|v: Seq<u8>| g.admits(v) ==> listing.contains(v)
}

/// The size of the universe of `g`.
pub open spec fn universe_size(g: GameParams) -> nat {
    if g.spec_has_repetitions() {
        power(g.spec_base() as nat, g.spec_number_len() as nat)
    } else {
        falling_product(g.spec_base() as nat, g.spec_number_len() as nat)
    }
}

/// Values with the same digits as integers are the same value.
pub proof fn lemma_ints_injective(v: Seq<u8>, w: Seq<u8>)
    requires
        ints_of_u8(v) == ints_of_u8(w),
    ensures
        v == w,
{
    assert(v.len() == ints_of_u8(v).len());
    assert(w.len() == ints_of_u8(w).len());
    assert forall|i: int| 0 <= i < v.len() implies v[i] == w[i] by {
        assert(ints_of_u8(v)[i] == v[i] as int);
        assert(ints_of_u8(w)[i] == w[i] as int);
    }
    assert(v =~= w);
}

/// No value is generated before itself, and of two values one comes first.
pub proof fn lemma_precedes_order(g: GameParams, v: Seq<u8>, w: Seq<u8>)
    requires
        v.len() == w.len(),
    ensures
        !precedes(g, v, v),
        v == w || precedes(g, v, w) || precedes(g, w, v),
        !(precedes(g, v, w) && precedes(g, w, v)),
{
    let a = ints_of_u8(v);
    let b = ints_of_u8(w);
    let mv = digit_mask(v, g.spec_base());
    let mw = digit_mask(w, g.spec_base());
    lemma_lex_total(a, b);
    lemma_lex_total(mv, mw);
    if a == b {
        lemma_ints_injective(v, w);
    }
    if lex_less(a, a) {
        lemma_lex_asymmetric(a, a);
    }
    if lex_less(mv, mv) {
        lemma_lex_asymmetric(mv, mv);
    }
    if lex_less(a, b) {
        lemma_lex_asymmetric(a, b);
    }
    if lex_less(mv, mw) {
        lemma_lex_asymmetric(mv, mw);
    }
    if lex_less(mw, mv) {
        lemma_lex_asymmetric(mw, mv);
    }
}

/// Two listings of one universe hold the same values at the same places.
pub proof fn lemma_listing_unique(g: GameParams, x: Seq<Seq<u8>>, y: Seq<Seq<u8>>)
    requires
        lists_universe(g, x),
        lists_universe(g, y),
    ensures
        x == y,
{
    lemma_listing_prefix(g, x, y, x.len() as int);
    lemma_listing_prefix(g, y, x, y.len() as int);
    assert(x =~= y);
}

/// The place at which a listing holds a value of its universe.
pub proof fn lemma_listing_index(g: GameParams, x: Seq<Seq<u8>>, v: Seq<u8>) -> (k: int)
    requires
        lists_universe(g, x),
        g.admits(v),
    ensures
        0 <= k < x.len(),
        x[k] == v,
{
    assert(x.contains(v));
    choose|k: int| 0 <= k < x.len() && x[k] == v
}

proof fn lemma_listing_prefix(g: GameParams, x: Seq<Seq<u8>>, y: Seq<Seq<u8>>, n: int)
    requires
        lists_universe(g, x),
        lists_universe(g, y),
        0 <= n <= x.len(),
    ensures
        n <= y.len(),
        forall|k: int| 0 <= k < n ==> x[k] == y[k],
    decreases n,
{
    if n > 0 {
        lemma_listing_prefix(g, x, y, n - 1);
        // x[n - 1] stands in y at some place m; every earlier place of y holds
        // an earlier value of x, and every earlier value of x stands earlier in y
        let v = x[n - 1];
        assert(g.admits(v));
        let m = lemma_listing_index(g, y, v);
        if m < n - 1 {
            assert(x[m] == y[m]);
            assert(precedes(g, x[m], x[n - 1]));
            lemma_precedes_order(g, v, v);
        } else if m > n - 1 {
            let u = y[n - 1];
            assert(g.admits(u));
            let j = lemma_listing_index(g, x, u);
            assert(precedes(g, y[n - 1], y[m]));
            lemma_precedes_order(g, u, v);
            if j < n - 1 {
                assert(x[j] == y[j]);
                assert(precedes(g, y[j], y[n - 1]));
                lemma_precedes_order(g, u, u);
            } else if j > n - 1 {
                assert(precedes(g, x[n - 1], x[j]));
            }
        }
    }
}

/// `next` is what the generation of the universe of `g` yields after
/// `cur`. For `cur`, `None` stands for the state before the first value; for
/// `next`, for the end of the universe.
pub open spec fn follows(g: GameParams, cur: Option<Seq<u8>>, next: Option<Seq<u8>>) -> bool {
    match (cur, next) {
        (None, None) => forall|u: Seq<u8>| !#[trigger] g.admits(u),
        (None, Some(w)) => g.admits(w) && forall|u: Seq<u8>| #[trigger]
            g.admits(u) ==> u == w || precedes(g, w, u),
        (Some(v), Some(w)) => g.admits(w) && precedes(g, v, w) && forall|u: Seq<u8>| #[trigger]
            g.admits(u) ==> !(precedes(g, v, u) && precedes(g, u, w)),
        (Some(v), None) => forall|u: Seq<u8>| #[trigger] g.admits(u) ==> !precedes(g, v, u),
    }
}

/// With repetition, the values are generated in the order of the numbers
/// that they write: from 0, each one more than the one before, up to the
/// last number of the configuration's length.
pub open spec fn counts_up(g: GameParams, cur: Option<Seq<u8>>, next: Option<Seq<u8>>) -> bool {
    let base = g.spec_base() as int;
    match (cur, next) {
        (None, None) => universe_size(g) == 0,
        (None, Some(w)) => number_value(ints_of_u8(w), base) == 0,
        (Some(v), Some(w)) => number_value(ints_of_u8(w), base) == number_value(
            ints_of_u8(v),
            base,
        ) + 1,
        (Some(v), None) => number_value(ints_of_u8(v), base) + 1 == universe_size(g),
    }
}

/// A number that grows along the generation order.
pub open spec fn order_key(g: GameParams, v: Seq<u8>) -> int {
    let base = g.spec_base() as int;
    if g.spec_has_repetitions() {
        number_value(ints_of_u8(v), base)
    } else {
        number_value(digit_mask(v, g.spec_base()), 2) * power(
            g.spec_base() as nat,
            g.spec_number_len() as nat,
        ) + number_value(ints_of_u8(v), base)
    }
}

/// A number that no `order_key` of the configuration reaches.
pub open spec fn order_key_bound(g: GameParams) -> int {
    (power(2, g.spec_base() as nat) * power(g.spec_base() as nat, g.spec_number_len() as nat))
        as int
}

proof fn lemma_admitted_digits(g: GameParams, v: Seq<u8>)
    requires
        g.admits(v),
    ensures
        digits_in(ints_of_u8(v), g.spec_base() as int),
        digits_in(digit_mask(v, g.spec_base()), 2),
        ints_of_u8(v).len() == g.spec_number_len(),
        digit_mask(v, g.spec_base()).len() == g.spec_base(),
{
    let a = ints_of_u8(v);
    assert forall|i: int| 0 <= i < a.len() implies 0 <= #[trigger] a[i] < g.spec_base() by {
        assert(v[i] < g.spec_base());
    }
}

/// The key of a value of the configuration lies below the bound of the
/// keys.
pub proof fn lemma_order_key_bounds(g: GameParams, v: Seq<u8>)
    requires
        g.admits(v),
    ensures
        0 <= order_key(g, v) < order_key_bound(g),
{
    let base = g.spec_base() as int;
    let a = ints_of_u8(v);
    let m = digit_mask(v, g.spec_base());
    lemma_admitted_digits(g, v);
    lemma_value_bounds(a, base);
    lemma_value_bounds(m, 2);
    lemma_power_positive(2, g.spec_base() as nat);
    let p = power(g.spec_base() as nat, g.spec_number_len() as nat) as int;
    let q = power(2, g.spec_base() as nat) as int;
    let x = number_value(a, base);
    let y = number_value(m, 2);
    assert(0 <= y * p + x < q * p && x < q * p) by (nonlinear_arith)
        requires
            0 <= x < p,
            0 <= y < q,
    ;
}

/// A value that is generated before another has the smaller key.
pub proof fn lemma_precedes_key(g: GameParams, v: Seq<u8>, w: Seq<u8>)
    requires
        g.admits(v),
        g.admits(w),
        precedes(g, v, w),
    ensures
        order_key(g, v) < order_key(g, w),
{
    let base = g.spec_base() as int;
    let a = ints_of_u8(v);
    let b = ints_of_u8(w);
    let mv = digit_mask(v, g.spec_base());
    let mw = digit_mask(w, g.spec_base());
    lemma_admitted_digits(g, v);
    lemma_admitted_digits(g, w);
    if g.spec_has_repetitions() {
        lemma_value_lex(a, b, base);
    } else if lex_less(mv, mw) {
        lemma_value_lex(mv, mw, 2);
        lemma_value_bounds(a, base);
        lemma_value_bounds(b, base);
        let p = power(g.spec_base() as nat, g.spec_number_len() as nat) as int;
        let x = number_value(a, base);
        let x2 = number_value(b, base);
        let y = number_value(mv, 2);
        let y2 = number_value(mw, 2);
        assert(y * p + x < y2 * p + x2) by (nonlinear_arith)
            requires
                0 <= x < p,
                0 <= x2 < p,
                y < y2,
        ;
    } else {
        lemma_value_lex(a, b, base);
    }
}

/// The generation order is transitive.
pub proof fn lemma_precedes_transitive(g: GameParams, u: Seq<u8>, v: Seq<u8>, w: Seq<u8>)
    requires
        u.len() == v.len(),
        v.len() == w.len(),
        precedes(g, u, v),
        precedes(g, v, w),
    ensures
        precedes(g, u, w),
{
    let a = ints_of_u8(u);
    let b = ints_of_u8(v);
    let c = ints_of_u8(w);
    let mu = digit_mask(u, g.spec_base());
    let mv = digit_mask(v, g.spec_base());
    let mw = digit_mask(w, g.spec_base());
    if g.spec_has_repetitions() {
        lemma_lex_transitive(a, b, c);
    } else {
        if lex_less(mu, mv) && lex_less(mv, mw) {
            lemma_lex_transitive(mu, mv, mw);
        } else if mu == mv && mv == mw {
            lemma_lex_transitive(a, b, c);
        }
    }
}

/// Extending a listing of everything up to the value `cur` by the value
/// that follows `cur` gives a listing of everything up to that value.
pub open spec fn lists_up_to(g: GameParams, listing: Seq<Seq<u8>>, cur: Option<Seq<u8>>) -> bool {
    &&& forall|k: int| 0 <= k < listing.len() ==> g.admits(#[trigger] listing[k])
    &&& forall|i: int, j: int|
        0 <= i < j < listing.len() ==> precedes(g, #[trigger] listing[i], #[trigger] listing[j])
    &&& match cur {
        None => listing.len() == 0,
        Some(v) => listing.len() > 0 && listing.last() == v && forall|u: Seq<u8>| #[trigger]
            g.admits(u) && precedes(g, u, v) ==> listing.contains(u),
    }
}

/// One step of the generation keeps a listing complete up to the current
/// value.
pub proof fn lemma_listing_grows(
    g: GameParams,
    listing: Seq<Seq<u8>>,
    cur: Option<Seq<u8>>,
    w: Seq<u8>,
)
    requires
        lists_up_to(g, listing, cur),
        follows(g, cur, Some(w)),
    ensures
        lists_up_to(g, listing.push(w), Some(w)),
{
    let longer = listing.push(w);
    assert forall|k: int| 0 <= k < longer.len() implies g.admits(#[trigger] longer[k]) by {
        if k < listing.len() {
            assert(longer[k] == listing[k]);
        }
    }
    assert forall|i: int, j: int| 0 <= i < j < longer.len() implies precedes(
        g,
        #[trigger] longer[i],
        #[trigger] longer[j],
    ) by {
        if j < listing.len() {
            assert(longer[i] == listing[i] && longer[j] == listing[j]);
        } else {
            let v = cur->0;
            assert(g.admits(listing[i]));
            assert(g.admits(listing[listing.len() - 1]));
            if i < listing.len() - 1 {
                assert(precedes(g, listing[i], listing[listing.len() - 1]));
                lemma_precedes_transitive(g, listing[i], v, w);
            }
        }
    }
    assert forall|u: Seq<u8>| #[trigger] g.admits(u) && precedes(g, u, w) implies longer.contains(
        u,
    ) by {
        lemma_precedes_order(g, u, w);
        match cur {
            None => {},
            Some(v) => {
                assert(g.admits(listing[listing.len() - 1]));
                lemma_precedes_order(g, u, v);
                if u == v {
                    assert(longer[listing.len() - 1] == u);
                } else {
                    assert(precedes(g, u, v));
                    let k = choose|k: int| 0 <= k < listing.len() && listing[k] == u;
                    assert(longer[k] == u);
                }
            },
        }
    }
    assert(longer.last() == w);
}

/// When the generation ends, a listing that is complete up to the current
/// value holds the whole universe.
pub proof fn lemma_listing_complete(g: GameParams, listing: Seq<Seq<u8>>, cur: Option<Seq<u8>>)
    requires
        lists_up_to(g, listing, cur),
        follows(g, cur, None),
    ensures
        lists_universe(g, listing),
{
    assert forall|u: Seq<u8>| g.admits(u) implies listing.contains(u) by {
        match cur {
            None => {},
            Some(v) => {
                assert(g.admits(listing[listing.len() - 1]));
                lemma_precedes_order(g, u, v);
                if u == v {
                    assert(listing[listing.len() - 1] == u);
                }
            },
        }
    }
}

} // verus!

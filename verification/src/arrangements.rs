//! Counting the values without repetition: the arrangements of `n` of the
//! symbols of an alphabet, listed and counted.

use vstd::prelude::*;
use crate::counting::all_distinct;
use crate::universe::{falling_product, power};

verus! {

/// `v` arranges `n` different symbols of the alphabet `a`.
spec fn is_arrangement(v: Seq<u8>, a: Seq<u8>, n: nat) -> bool {
    &&& v.len() == n
    &&& all_distinct(v)
    &&& forall|k: int| 0 <= k < v.len() ==> a.contains(#[trigger] v[k])
}

/// Each of `ws` with the symbol `d` put in front.
spec fn prefixed(d: u8, ws: Seq<Seq<u8>>) -> Seq<Seq<u8>> {
    Seq::new(ws.len(), |k: int| seq![d] + ws[k])
}

/// The arrangements of `n` symbols of the alphabet `a`: for each symbol of
/// the alphabet in turn, those that begin with it.
spec fn arrangements(a: Seq<u8>, n: nat) -> Seq<Seq<u8>>
    decreases n, 1nat, 0nat,
{
    if n == 0 {
        seq![Seq::<u8>::empty()]
    } else {
        arrangements_from(a, n, a.len())
    }
}

/// The arrangements of `n` symbols of the alphabet `a` that begin with one
/// of the first `i` symbols of the alphabet.
spec fn arrangements_from(a: Seq<u8>, n: nat, i: nat) -> Seq<Seq<u8>>
    decreases n, 0nat, i,
{
    if n == 0 || i == 0 || i > a.len() {
        Seq::empty()
    } else {
        arrangements_from(a, n, (i - 1) as nat) + prefixed(
            a[i - 1],
            arrangements(a.remove(i - 1), (n - 1) as nat),
        )
    }
}

/// `listing` holds every arrangement of `n` symbols of `a`, each once, and
/// nothing else.
spec fn lists_arrangements(listing: Seq<Seq<u8>>, a: Seq<u8>, n: nat) -> bool {
    &&& listing.no_duplicates()
    &&& forall|v: Seq<u8>| #[trigger] listing.contains(v) <==> is_arrangement(v, a, n)
}

/// `listing` holds every arrangement of `n` symbols of `a` that begins
/// with one of the first `i` symbols of `a`, each once, and nothing else.
spec fn lists_arrangements_from(
    listing: Seq<Seq<u8>>,
    a: Seq<u8>,
    n: nat,
    i: nat,
) -> bool {
    &&& listing.no_duplicates()
    &&& forall|v: Seq<u8>| #[trigger]
        listing.contains(v) <==> is_arrangement(v, a, n) && begins_within(v, a, i)
}

/// `v` begins with one of the first `i` symbols of `a`.
spec fn begins_within(v: Seq<u8>, a: Seq<u8>, i: nat) -> bool {
    exists|j: int| 0 <= j < i && j < a.len() && v.len() > 0 && #[trigger] a[j] == v[0]
}

proof fn lemma_remove_distinct(a: Seq<u8>, j: int)
    requires
        all_distinct(a),
        0 <= j < a.len(),
    ensures
        all_distinct(a.remove(j)),
        !a.remove(j).contains(a[j]),
        forall|x: u8| a.contains(x) && x != a[j] ==> a.remove(j).contains(x),
        forall|x: u8| a.remove(j).contains(x) ==> a.contains(x),
{
    let r = a.remove(j);
    assert forall|p: int, q: int| 0 <= p < q < r.len() implies r[p] != r[q] by {
        let p0 = if p < j { p } else { p + 1 };
        let q0 = if q < j { q } else { q + 1 };
        assert(r[p] == a[p0] && r[q] == a[q0]);
    }
    if r.contains(a[j]) {
        let p = choose|p: int| 0 <= p < r.len() && r[p] == a[j];
        let p0 = if p < j { p } else { p + 1 };
        assert(r[p] == a[p0]);
    }
    assert forall|x: u8| a.contains(x) && x != a[j] implies r.contains(x) by {
        let p = choose|p: int| 0 <= p < a.len() && a[p] == x;
        if p < j {
            assert(r[p] == x);
        } else {
            assert(r[p - 1] == x);
        }
    }
    assert forall|x: u8| r.contains(x) implies a.contains(x) by {
        let p = choose|p: int| 0 <= p < r.len() && r[p] == x;
        let p0 = if p < j { p } else { p + 1 };
        assert(a[p0] == x);
    }
}

/// The arrangements that begin with `a[j]` are the arrangements of the
/// other symbols with `a[j]` put in front.
proof fn lemma_prefixed(a: Seq<u8>, n: nat, j: int, ws: Seq<Seq<u8>>)
    requires
        all_distinct(a),
        0 <= j < a.len(),
        n > 0,
        lists_arrangements(ws, a.remove(j), (n - 1) as nat),
    ensures
        prefixed(a[j], ws).no_duplicates(),
        forall|v: Seq<u8>| #[trigger]
            prefixed(a[j], ws).contains(v) <==> is_arrangement(v, a, n) && v[0] == a[j],
{
    let d = a[j];
    let rest = a.remove(j);
    let p = prefixed(d, ws);
    lemma_remove_distinct(a, j);
    assert forall|x: int, y: int| 0 <= x < p.len() && 0 <= y < p.len() && x != y implies p[x]
        != p[y] by {
        if p[x] == p[y] {
            assert((seq![d] + ws[x]).drop_first() =~= ws[x]);
            assert((seq![d] + ws[y]).drop_first() =~= ws[y]);
        }
    }
    assert forall|v: Seq<u8>| #[trigger] p.contains(v) <==> is_arrangement(v, a, n) && v[0]
        == d by {
        if p.contains(v) {
            let k = choose|k: int| 0 <= k < p.len() && p[k] == v;
            let w = ws[k];
            assert(ws.contains(w));
            assert(is_arrangement(w, rest, (n - 1) as nat));
            assert forall|t: int| 0 <= t < v.len() implies a.contains(#[trigger] v[t]) by {
                if t > 0 {
                    assert(v[t] == w[t - 1]);
                    assert(rest.contains(w[t - 1]));
                }
            }
            assert forall|s: int, t: int| 0 <= s < t < v.len() implies v[s] != v[t] by {
                assert(v[t] == w[t - 1]);
                if s == 0 {
                    assert(rest.contains(w[t - 1]));
                } else {
                    assert(v[s] == w[s - 1]);
                }
            }
        }
        if is_arrangement(v, a, n) && v[0] == d {
            let w = v.drop_first();
            assert forall|t: int| 0 <= t < w.len() implies rest.contains(#[trigger] w[t]) by {
                assert(w[t] == v[t + 1]);
                assert(a.contains(v[t + 1]));
                assert(v[0] != v[t + 1]);
            }
            assert(all_distinct(w)) by {
                assert forall|s: int, t: int| 0 <= s < t < w.len() implies w[s] != w[t] by {
                    assert(w[s] == v[s + 1] && w[t] == v[t + 1]);
                }
            }
            assert(is_arrangement(w, rest, (n - 1) as nat));
            assert(ws.contains(w));
            let k = choose|k: int| 0 <= k < ws.len() && ws[k] == w;
            assert(p[k] =~= v);
        }
    }
}

/// The listing of the arrangements is exact, and as long as the falling
/// product says.
proof fn lemma_arrangements(a: Seq<u8>, n: nat)
    requires
        all_distinct(a),
    ensures
        lists_arrangements(arrangements(a, n), a, n),
        arrangements(a, n).len() == falling_product(a.len(), n),
    decreases n, 1nat, 0nat,
{
    let r = arrangements(a, n);
    if n == 0 {
        assert forall|v: Seq<u8>| #[trigger] r.contains(v) <==> is_arrangement(v, a, n) by {
            if r.contains(v) {
                let k = choose|k: int| 0 <= k < r.len() && r[k] == v;
            }
            if is_arrangement(v, a, n) {
                assert(v =~= Seq::<u8>::empty());
                assert(r[0] == v);
            }
        }
    } else {
        lemma_arrangements_from(a, n, a.len());
        assert forall|v: Seq<u8>| #[trigger] r.contains(v) <==> is_arrangement(v, a, n) by {
            if is_arrangement(v, a, n) {
                assert(a.contains(v[0]));
                let j = choose|j: int| 0 <= j < a.len() && a[j] == v[0];
                assert(begins_within(v, a, a.len()));
            }
        }
        if a.len() == 0 {
            assert(falling_product(0, n) == 0);
        } else {
            assert(falling_product(a.len(), n) == a.len() * falling_product(
                (a.len() - 1) as nat,
                (n - 1) as nat,
            ));
        }
    }
}

proof fn lemma_arrangements_from(a: Seq<u8>, n: nat, i: nat)
    requires
        all_distinct(a),
        n > 0,
        i <= a.len(),
    ensures
        lists_arrangements_from(arrangements_from(a, n, i), a, n, i),
        arrangements_from(a, n, i).len() == i * falling_product(
            (a.len() - 1) as nat,
            (n - 1) as nat,
        ),
    decreases n, 0nat, i,
{
    let r = arrangements_from(a, n, i);
    let c = falling_product((a.len() - 1) as nat, (n - 1) as nat);
    if i == 0 {
        assert(0 * c == 0) by (nonlinear_arith);
        assert forall|v: Seq<u8>| #[trigger]
            r.contains(v) <==> is_arrangement(v, a, n) && begins_within(v, a, i) by {
            if r.contains(v) {
                let k = choose|k: int| 0 <= k < r.len() && r[k] == v;
            }
        }
    } else {
        let j = (i - 1) as int;
        let before = arrangements_from(a, n, (i - 1) as nat);
        let ws = arrangements(a.remove(j), (n - 1) as nat);
        let p = prefixed(a[j], ws);
        lemma_arrangements_from(a, n, (i - 1) as nat);
        lemma_remove_distinct(a, j);
        lemma_arrangements(a.remove(j), (n - 1) as nat);
        lemma_prefixed(a, n, j, ws);
        assert(r == before + p);
        assert((i - 1) * c + c == i * c) by (nonlinear_arith);
        assert forall|v: Seq<u8>| #[trigger]
            r.contains(v) <==> is_arrangement(v, a, n) && begins_within(v, a, i) by {
            if r.contains(v) {
                let k = choose|k: int| 0 <= k < r.len() && r[k] == v;
                if k < before.len() {
                    assert(before[k] == v);
                    assert(before.contains(v));
                    let m = choose|m: int|
                        0 <= m < i - 1 && m < a.len() && v.len() > 0 && #[trigger] a[m] == v[0];
                    assert(0 <= m < i && a[m] == v[0]);
                } else {
                    assert(p[k - before.len()] == v);
                    assert(p.contains(v));
                    assert(0 <= j < i && a[j] == v[0]);
                }
            }
            if is_arrangement(v, a, n) && begins_within(v, a, i) {
                let m = choose|m: int|
                    0 <= m < i && m < a.len() && v.len() > 0 && #[trigger] a[m] == v[0];
                if m < i - 1 {
                    assert(begins_within(v, a, (i - 1) as nat));
                    assert(before.contains(v));
                    let k = choose|k: int| 0 <= k < before.len() && before[k] == v;
                    assert(r[k] == v);
                } else {
                    assert(p.contains(v));
                    let k = choose|k: int| 0 <= k < p.len() && p[k] == v;
                    assert(r[before.len() + k] == v);
                }
            }
        }
        assert forall|x: int, y: int| 0 <= x < r.len() && 0 <= y < r.len() && x != y implies r[x]
            != r[y] by {
            if x < before.len() && y < before.len() {
                assert(r[x] == before[x] && r[y] == before[y]);
            } else if x >= before.len() && y >= before.len() {
                assert(r[x] == p[x - before.len()] && r[y] == p[y - before.len()]);
            } else {
                let (u, w) = if x < before.len() {
                    (x, y)
                } else {
                    (y, x)
                };
                assert(r[u] == before[u]);
                assert(r[w] == p[w - before.len()]);
                assert(before.contains(before[u]));
                assert(p.contains(p[w - before.len()]));
                let m = choose|m: int|
                    0 <= m < i - 1 && m < a.len() && before[u].len() > 0 && #[trigger] a[m]
                        == before[u][0];
                assert(a[m] != a[j]);
            }
        }
    }
}

/// The symbols below `base`, in rising order.
spec fn alphabet(base: u8) -> Seq<u8> {
    Seq::new(base as nat, |d: int| d as u8)
}

/// Two listings without repetition that hold the same items are equally
/// long.
proof fn lemma_same_members_same_len<T>(x: Seq<T>, y: Seq<T>)
    requires
        x.no_duplicates(),
        y.no_duplicates(),
        forall|v: T| x.contains(v) <==> y.contains(v),
    ensures
        x.len() == y.len(),
{
    x.unique_seq_to_set();
    y.unique_seq_to_set();
    assert(x.to_set() =~= y.to_set());
}

/// A listing, without repetition, of the sequences of `len` different
/// symbols below `base` holds as many of them as the falling product says:
/// `base` times `base - 1` and so on, `len` factors.
pub proof fn lemma_count_of_arrangements(listing: Seq<Seq<u8>>, base: u8, len: nat)
    requires
        listing.no_duplicates(),
        forall|v: Seq<u8>|
            listing.contains(v) <==> v.len() == len && all_distinct(v) && forall|k: int|
                0 <= k < v.len() ==> v[k] < base,
    ensures
        listing.len() == falling_product(base as nat, len),
{
    let a = alphabet(base);
    assert(all_distinct(a));
    lemma_arrangements(a, len);
    let r = arrangements(a, len);
    assert forall|v: Seq<u8>| listing.contains(v) <==> r.contains(v) by {
        if listing.contains(v) {
            assert forall|k: int| 0 <= k < v.len() implies a.contains(#[trigger] v[k]) by {
                assert(a[v[k] as int] == v[k]);
            }
            assert(is_arrangement(v, a, len));
        }
        if r.contains(v) {
            assert(is_arrangement(v, a, len));
            assert forall|k: int| 0 <= k < v.len() implies v[k] < base by {
                assert(a.contains(v[k]));
                let m = choose|m: int| 0 <= m < a.len() && a[m] == v[k];
            }
        }
    }
    lemma_same_members_same_len(listing, r);
}

/// `v` holds `n` symbols of the alphabet `a`.
spec fn is_tuple(v: Seq<u8>, a: Seq<u8>, n: nat) -> bool {
    &&& v.len() == n
    &&& forall|k: int| 0 <= k < v.len() ==> a.contains(#[trigger] v[k])
}

/// The sequences of `n` symbols of the alphabet `a`: for each symbol of the
/// alphabet in turn, those that begin with it.
spec fn tuples(a: Seq<u8>, n: nat) -> Seq<Seq<u8>>
    decreases n, 1nat, 0nat,
{
    if n == 0 {
        seq![Seq::<u8>::empty()]
    } else {
        tuples_from(a, n, a.len())
    }
}

/// The sequences of `n` symbols of the alphabet `a` that begin with one of
/// the first `i` symbols of the alphabet.
spec fn tuples_from(a: Seq<u8>, n: nat, i: nat) -> Seq<Seq<u8>>
    decreases n, 0nat, i,
{
    if n == 0 || i == 0 || i > a.len() {
        Seq::empty()
    } else {
        tuples_from(a, n, (i - 1) as nat) + prefixed(a[i - 1], tuples(a, (n - 1) as nat))
    }
}

proof fn lemma_prefixed_tuples(a: Seq<u8>, n: nat, j: int, ws: Seq<Seq<u8>>)
    requires
        0 <= j < a.len(),
        n > 0,
        ws.no_duplicates(),
        forall|v: Seq<u8>| #[trigger] ws.contains(v) <==> is_tuple(v, a, (n - 1) as nat),
    ensures
        prefixed(a[j], ws).no_duplicates(),
        forall|v: Seq<u8>| #[trigger]
            prefixed(a[j], ws).contains(v) <==> is_tuple(v, a, n) && v[0] == a[j],
{
    let d = a[j];
    let p = prefixed(d, ws);
    assert forall|x: int, y: int| 0 <= x < p.len() && 0 <= y < p.len() && x != y implies p[x]
        != p[y] by {
        if p[x] == p[y] {
            assert((seq![d] + ws[x]).drop_first() =~= ws[x]);
            assert((seq![d] + ws[y]).drop_first() =~= ws[y]);
        }
    }
    assert forall|v: Seq<u8>| #[trigger] p.contains(v) <==> is_tuple(v, a, n) && v[0] == d by {
        if p.contains(v) {
            let k = choose|k: int| 0 <= k < p.len() && p[k] == v;
            let w = ws[k];
            assert(ws.contains(w));
            assert forall|t: int| 0 <= t < v.len() implies a.contains(#[trigger] v[t]) by {
                if t > 0 {
                    assert(v[t] == w[t - 1]);
                    assert(a.contains(w[t - 1]));
                }
            }
        }
        if is_tuple(v, a, n) && v[0] == d {
            let w = v.drop_first();
            assert forall|t: int| 0 <= t < w.len() implies a.contains(#[trigger] w[t]) by {
                assert(w[t] == v[t + 1]);
                assert(a.contains(v[t + 1]));
            }
            assert(ws.contains(w));
            let k = choose|k: int| 0 <= k < ws.len() && ws[k] == w;
            assert(p[k] =~= v);
        }
    }
}

/// The listing of the sequences is exact, and as long as the power says.
proof fn lemma_tuples(a: Seq<u8>, n: nat)
    requires
        all_distinct(a),
    ensures
        tuples(a, n).no_duplicates(),
        forall|v: Seq<u8>| #[trigger] tuples(a, n).contains(v) <==> is_tuple(v, a, n),
        tuples(a, n).len() == power(a.len(), n),
    decreases n, 1nat, 0nat,
{
    let r = tuples(a, n);
    if n == 0 {
        assert forall|v: Seq<u8>| #[trigger] r.contains(v) <==> is_tuple(v, a, n) by {
            if r.contains(v) {
                let k = choose|k: int| 0 <= k < r.len() && r[k] == v;
            }
            if is_tuple(v, a, n) {
                assert(v =~= Seq::<u8>::empty());
                assert(r[0] == v);
            }
        }
    } else {
        lemma_tuples_from(a, n, a.len());
        assert forall|v: Seq<u8>| #[trigger] r.contains(v) <==> is_tuple(v, a, n) by {
            if is_tuple(v, a, n) {
                assert(a.contains(v[0]));
                let j = choose|j: int| 0 <= j < a.len() && a[j] == v[0];
                assert(begins_within(v, a, a.len()));
            }
        }
    }
}

proof fn lemma_tuples_from(a: Seq<u8>, n: nat, i: nat)
    requires
        all_distinct(a),
        n > 0,
        i <= a.len(),
    ensures
        tuples_from(a, n, i).no_duplicates(),
        forall|v: Seq<u8>| #[trigger]
            tuples_from(a, n, i).contains(v) <==> is_tuple(v, a, n) && begins_within(v, a, i),
        tuples_from(a, n, i).len() == i * power(a.len(), (n - 1) as nat),
    decreases n, 0nat, i,
{
    let r = tuples_from(a, n, i);
    let c = power(a.len(), (n - 1) as nat);
    if i == 0 {
        assert(0 * c == 0) by (nonlinear_arith);
        assert forall|v: Seq<u8>| #[trigger]
            r.contains(v) <==> is_tuple(v, a, n) && begins_within(v, a, i) by {
            if r.contains(v) {
                let k = choose|k: int| 0 <= k < r.len() && r[k] == v;
            }
        }
    } else {
        let j = (i - 1) as int;
        let before = tuples_from(a, n, (i - 1) as nat);
        let ws = tuples(a, (n - 1) as nat);
        let p = prefixed(a[j], ws);
        lemma_tuples_from(a, n, (i - 1) as nat);
        lemma_tuples(a, (n - 1) as nat);
        lemma_prefixed_tuples(a, n, j, ws);
        assert(r == before + p);
        assert((i - 1) * c + c == i * c) by (nonlinear_arith);
        assert forall|v: Seq<u8>| #[trigger]
            r.contains(v) <==> is_tuple(v, a, n) && begins_within(v, a, i) by {
            if r.contains(v) {
                let k = choose|k: int| 0 <= k < r.len() && r[k] == v;
                if k < before.len() {
                    assert(before[k] == v);
                    assert(before.contains(v));
                    let m = choose|m: int|
                        0 <= m < i - 1 && m < a.len() && v.len() > 0 && #[trigger] a[m] == v[0];
                    assert(0 <= m < i && a[m] == v[0]);
                } else {
                    assert(p[k - before.len()] == v);
                    assert(p.contains(v));
                    assert(0 <= j < i && a[j] == v[0]);
                }
            }
            if is_tuple(v, a, n) && begins_within(v, a, i) {
                let m = choose|m: int|
                    0 <= m < i && m < a.len() && v.len() > 0 && #[trigger] a[m] == v[0];
                if m < i - 1 {
                    assert(begins_within(v, a, (i - 1) as nat));
                    assert(before.contains(v));
                    let k = choose|k: int| 0 <= k < before.len() && before[k] == v;
                    assert(r[k] == v);
                } else {
                    assert(p.contains(v));
                    let k = choose|k: int| 0 <= k < p.len() && p[k] == v;
                    assert(r[before.len() + k] == v);
                }
            }
        }
        assert forall|x: int, y: int| 0 <= x < r.len() && 0 <= y < r.len() && x != y implies r[x]
            != r[y] by {
            if x < before.len() && y < before.len() {
                assert(r[x] == before[x] && r[y] == before[y]);
            } else if x >= before.len() && y >= before.len() {
                assert(r[x] == p[x - before.len()] && r[y] == p[y - before.len()]);
            } else {
                let (u, w) = if x < before.len() {
                    (x, y)
                } else {
                    (y, x)
                };
                assert(r[u] == before[u]);
                assert(r[w] == p[w - before.len()]);
                assert(before.contains(before[u]));
                assert(p.contains(p[w - before.len()]));
                let m = choose|m: int|
                    0 <= m < i - 1 && m < a.len() && before[u].len() > 0 && #[trigger] a[m]
                        == before[u][0];
                assert(a[m] != a[j]);
            }
        }
    }
}

/// A listing, without repetition, of the sequences of `len` symbols below
/// `base` holds as many of them as the power says: `base` to the power
/// `len`.
pub proof fn lemma_count_of_tuples(listing: Seq<Seq<u8>>, base: u8, len: nat)
    requires
        listing.no_duplicates(),
        forall|v: Seq<u8>|
            listing.contains(v) <==> v.len() == len && forall|k: int|
                0 <= k < v.len() ==> v[k] < base,
    ensures
        listing.len() == power(base as nat, len),
{
    let a = alphabet(base);
    assert(all_distinct(a));
    lemma_tuples(a, len);
    let r = tuples(a, len);
    assert forall|v: Seq<u8>| listing.contains(v) <==> r.contains(v) by {
        if listing.contains(v) {
            assert forall|k: int| 0 <= k < v.len() implies a.contains(#[trigger] v[k]) by {
                assert(a[v[k] as int] == v[k]);
            }
            assert(is_tuple(v, a, len));
        }
        if r.contains(v) {
            assert(is_tuple(v, a, len));
            assert forall|k: int| 0 <= k < v.len() implies v[k] < base by {
                assert(a.contains(v[k]));
                let m = choose|m: int| 0 <= m < a.len() && a[m] == v[k];
            }
        }
    }
    lemma_same_members_same_len(listing, r);
}

} // verus!

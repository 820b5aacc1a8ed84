//! The feedback oracle of the numeric puzzle: exact matches ("bulls") and
//! the overlap of the remaining symbols ("cows").

use vstd::prelude::*;
use crate::comb_utils::ints_of_u8;
use crate::counting::count_of;
use crate::number::Number;

verus! {

/// The codes of the symbols of a text.
pub open spec fn codes_of_text(t: Seq<char>) -> Seq<int> {
    Seq::new(t.len(), |i: int| t[i] as int)
}

/// How many places two values are compared at: the shorter length.
pub open spec fn compared_len(g: Seq<int>, h: Seq<int>) -> nat {
    if g.len() <= h.len() {
        g.len()
    } else {
        h.len()
    }
}

/// How many of the first `n` places hold the same symbol in `g` and `h`.
pub open spec fn matches_below(g: Seq<int>, h: Seq<int>, n: nat) -> nat
    decreases n,
{
    if n == 0 {
        0
    } else {
        matches_below(g, h, (n - 1) as nat) + if g[n - 1] == h[n - 1] { 1nat } else { 0nat }
    }
}

/// How many of the first `n` places hold `d` in `g` without being a match.
pub open spec fn free_below(g: Seq<int>, h: Seq<int>, d: int, n: nat) -> nat
    decreases n,
{
    if n == 0 {
        0
    } else {
        free_below(g, h, d, (n - 1) as nat) + if g[n - 1] == d && h[n - 1] != d {
            1nat
        } else {
            0nat
        }
    }
}

/// The smaller of two numbers.
pub open spec fn min_nat(a: nat, b: nat) -> nat {
    if a <= b {
        a
    } else {
        b
    }
}

/// The sum, over the symbols below `bound`, of the smaller of the two
/// counts of that symbol at unmatched places among the first `n`.
pub open spec fn overlap_below(g: Seq<int>, h: Seq<int>, n: nat, bound: nat) -> nat
    decreases bound,
{
    if bound == 0 {
        0
    } else {
        overlap_below(g, h, n, (bound - 1) as nat) + min_nat(
            free_below(g, h, bound - 1, n),
            free_below(h, g, bound - 1, n),
        )
    }
}

/// Exact matches of `g` against `h`.
pub open spec fn bulls(g: Seq<int>, h: Seq<int>) -> nat {
    matches_below(g, h, compared_len(g, h))
}

/// Overlap of `g` and `h` outside the exact matches, over the symbols below
/// `bound`.
pub open spec fn cows(g: Seq<int>, h: Seq<int>, bound: nat) -> nat {
    overlap_below(g, h, compared_len(g, h), bound)
}

/// The score of the numeric puzzle for two digit sequences.
pub open spec fn score_of(g: Seq<u8>, h: Seq<u8>) -> (nat, nat) {
    (bulls(ints_of_u8(g), ints_of_u8(h)), cows(ints_of_u8(g), ints_of_u8(h), 256))
}

/// The score of the numeric puzzle for two texts.
pub open spec fn text_score_of(g: Seq<char>, h: Seq<char>) -> (nat, nat) {
    (bulls(codes_of_text(g), codes_of_text(h)), cows(codes_of_text(g), codes_of_text(h), 0x110000))
}

/// No more places match than are compared.
pub proof fn lemma_matches_bound(g: Seq<int>, h: Seq<int>, n: nat)
    ensures
        matches_below(g, h, n) <= n,
    decreases n,
{
    if n > 0 {
        lemma_matches_bound(g, h, (n - 1) as nat);
    }
}

/// The matches are the same whichever value comes first.
pub proof fn lemma_matches_symmetric(g: Seq<int>, h: Seq<int>, n: nat)
    ensures
        matches_below(g, h, n) == matches_below(h, g, n),
    decreases n,
{
    if n > 0 {
        lemma_matches_symmetric(g, h, (n - 1) as nat);
    }
}

/// A value matches itself at every place.
pub proof fn lemma_matches_self(g: Seq<int>, n: nat)
    ensures
        matches_below(g, g, n) == n,
    decreases n,
{
    if n > 0 {
        lemma_matches_self(g, (n - 1) as nat);
    }
}

/// A value has no unmatched place against itself.
pub proof fn lemma_free_self(g: Seq<int>, d: int, n: nat)
    ensures
        free_below(g, g, d, n) == 0,
    decreases n,
{
    if n > 0 {
        lemma_free_self(g, d, (n - 1) as nat);
    }
}

/// The overlap is the same whichever value comes first.
pub proof fn lemma_overlap_symmetric(g: Seq<int>, h: Seq<int>, n: nat, bound: nat)
    ensures
        overlap_below(g, h, n, bound) == overlap_below(h, g, n, bound),
    decreases bound,
{
    if bound > 0 {
        lemma_overlap_symmetric(g, h, n, (bound - 1) as nat);
    }
}

/// A value has no overlap with itself outside the matches.
pub proof fn lemma_overlap_self(g: Seq<int>, n: nat, bound: nat)
    ensures
        overlap_below(g, g, n, bound) == 0,
    decreases bound,
{
    if bound > 0 {
        lemma_overlap_self(g, n, (bound - 1) as nat);
        lemma_free_self(g, bound - 1, n);
    }
}

/// The sum of the unmatched places over all symbols is what the matches
/// leave of the compared places.
pub proof fn lemma_free_bound(g: Seq<int>, h: Seq<int>, d: int, n: nat)
    ensures
        free_below(g, h, d, n) <= n,
    decreases n,
{
    if n > 0 {
        lemma_free_bound(g, h, d, (n - 1) as nat);
    }
}

/// Symbols at or above every unmatched symbol add nothing to the overlap.
pub proof fn lemma_overlap_beyond(g: Seq<int>, h: Seq<int>, n: nat, low: nat, high: nat)
    requires
        low <= high,
        forall|i: int| 0 <= i < n && g[i] != h[i] ==> g[i] < low,
    ensures
        overlap_below(g, h, n, high) == overlap_below(g, h, n, low),
    decreases high,
{
    if high > low {
        lemma_overlap_beyond(g, h, n, low, (high - 1) as nat);
        lemma_free_outside(g, h, high - 1, n);
    }
}

proof fn lemma_free_outside(g: Seq<int>, h: Seq<int>, d: int, n: nat)
    requires
        forall|i: int| 0 <= i < n && g[i] != h[i] ==> g[i] != d,
    ensures
        free_below(g, h, d, n) == 0,
    decreases n,
{
    if n > 0 {
        lemma_free_outside(g, h, d, (n - 1) as nat);
    }
}

/// Symbols below every unmatched symbol add nothing to the overlap.
pub proof fn lemma_overlap_before(g: Seq<int>, h: Seq<int>, n: nat, low: nat)
    requires
        forall|i: int| 0 <= i < n && g[i] != h[i] ==> g[i] >= low,
    ensures
        overlap_below(g, h, n, low) == 0,
    decreases low,
{
    if low > 0 {
        lemma_overlap_before(g, h, n, (low - 1) as nat);
        lemma_free_outside(g, h, low - 1, n);
    }
}

/// The overlap counts each unmatched place of `g` at most once.
pub proof fn lemma_overlap_bound(g: Seq<int>, h: Seq<int>, n: nat, bound: nat)
    ensures
        overlap_below(g, h, n, bound) + matches_below(g, h, n) <= n,
{
    lemma_overlap_le_free_total(g, h, n, bound);
    lemma_free_total_bound(g, h, n, bound);
}

/// The sum, over the symbols below `bound`, of the unmatched places of `g`.
pub open spec fn free_total(g: Seq<int>, h: Seq<int>, n: nat, bound: nat) -> nat
    decreases bound,
{
    if bound == 0 {
        0
    } else {
        free_total(g, h, n, (bound - 1) as nat) + free_below(g, h, bound - 1, n)
    }
}

proof fn lemma_overlap_le_free_total(g: Seq<int>, h: Seq<int>, n: nat, bound: nat)
    ensures
        overlap_below(g, h, n, bound) <= free_total(g, h, n, bound),
    decreases bound,
{
    if bound > 0 {
        lemma_overlap_le_free_total(g, h, n, (bound - 1) as nat);
    }
}

proof fn lemma_free_total_step(g: Seq<int>, h: Seq<int>, n: nat, bound: nat)
    requires
        n > 0,
    ensures
        free_total(g, h, n, bound) == free_total(g, h, (n - 1) as nat, bound) + if g[n - 1]
            != h[n - 1] && 0 <= g[n - 1] < bound {
            1nat
        } else {
            0nat
        },
    decreases bound,
{
    if bound > 0 {
        lemma_free_total_step(g, h, n, (bound - 1) as nat);
    }
}

proof fn lemma_free_total_zero(g: Seq<int>, h: Seq<int>, bound: nat)
    ensures
        free_total(g, h, 0, bound) == 0,
    decreases bound,
{
    if bound > 0 {
        lemma_free_total_zero(g, h, (bound - 1) as nat);
    }
}

proof fn lemma_free_total_bound(g: Seq<int>, h: Seq<int>, n: nat, bound: nat)
    ensures
        free_total(g, h, n, bound) + matches_below(g, h, n) <= n,
    decreases n,
{
    if n == 0 {
        lemma_free_total_zero(g, h, bound);
    } else {
        lemma_free_total_bound(g, h, (n - 1) as nat, bound);
        lemma_free_total_step(g, h, n, bound);
    }
}

/// How many of the first `n` places hold `d` in both `g` and `h`.
pub open spec fn matched_below(g: Seq<int>, h: Seq<int>, d: int, n: nat) -> nat
    decreases n,
{
    if n == 0 {
        0
    } else {
        matched_below(g, h, d, (n - 1) as nat) + if g[n - 1] == d && h[n - 1] == d {
            1nat
        } else {
            0nat
        }
    }
}

/// The sum, over the symbols below `bound`, of the smaller of the two
/// counts of that symbol in `g` and in `h`.
pub open spec fn common_below(g: Seq<int>, h: Seq<int>, bound: nat) -> nat
    decreases bound,
{
    if bound == 0 {
        0
    } else {
        common_below(g, h, (bound - 1) as nat) + min_nat(
            count_of(g, bound - 1),
            count_of(h, bound - 1),
        )
    }
}

/// A symbol is counted at its matched and at its unmatched places.
proof fn lemma_count_by_places(g: Seq<int>, h: Seq<int>, d: int, n: nat)
    requires
        n <= g.len(),
        n <= h.len(),
    ensures
        count_of(g.take(n as int), d) == free_below(g, h, d, n) + matched_below(g, h, d, n),
        count_of(h.take(n as int), d) == free_below(h, g, d, n) + matched_below(g, h, d, n),
    decreases n,
{
    if n > 0 {
        lemma_count_by_places(g, h, d, (n - 1) as nat);
        assert(g.take(n as int).drop_last() =~= g.take(n - 1));
        assert(h.take(n as int).drop_last() =~= h.take(n - 1));
    }
}

/// The sum of the matched places over the symbols below `bound`.
pub open spec fn matched_total(g: Seq<int>, h: Seq<int>, n: nat, bound: nat) -> nat
    decreases bound,
{
    if bound == 0 {
        0
    } else {
        matched_total(g, h, n, (bound - 1) as nat) + matched_below(g, h, bound - 1, n)
    }
}

proof fn lemma_matched_total_step(g: Seq<int>, h: Seq<int>, n: nat, bound: nat)
    requires
        n > 0,
    ensures
        matched_total(g, h, n, bound) == matched_total(g, h, (n - 1) as nat, bound) + if g[n - 1]
            == h[n - 1] && 0 <= g[n - 1] < bound {
            1nat
        } else {
            0nat
        },
    decreases bound,
{
    if bound > 0 {
        lemma_matched_total_step(g, h, n, (bound - 1) as nat);
    }
}

proof fn lemma_matched_total(g: Seq<int>, h: Seq<int>, n: nat, bound: nat)
    requires
        forall|i: int| 0 <= i < n ==> 0 <= #[trigger] g[i] < bound,
    ensures
        matched_total(g, h, n, bound) == matches_below(g, h, n),
    decreases n,
{
    if n == 0 {
        lemma_matched_total_zero(g, h, bound);
    } else {
        lemma_matched_total(g, h, (n - 1) as nat, bound);
        lemma_matched_total_step(g, h, n, bound);
    }
}

proof fn lemma_matched_total_zero(g: Seq<int>, h: Seq<int>, bound: nat)
    ensures
        matched_total(g, h, 0, bound) == 0,
    decreases bound,
{
    if bound > 0 {
        lemma_matched_total_zero(g, h, (bound - 1) as nat);
    }
}

proof fn lemma_common_by_places(g: Seq<int>, h: Seq<int>, bound: nat)
    requires
        g.len() == h.len(),
    ensures
        common_below(g, h, bound) == overlap_below(g, h, g.len(), bound) + matched_total(
            g,
            h,
            g.len(),
            bound,
        ),
    decreases bound,
{
    if bound > 0 {
        lemma_common_by_places(g, h, (bound - 1) as nat);
        lemma_count_by_places(g, h, bound - 1, g.len());
        assert(g.take(g.len() as int) =~= g);
        assert(h.take(h.len() as int) =~= h);
    }
}

/// For two values of one length the overlap is what the symbols have in
/// common, counted with their multiplicity, less the exact matches.
pub proof fn lemma_cows_formula(g: Seq<int>, h: Seq<int>, bound: nat)
    requires
        g.len() == h.len(),
        forall|i: int| 0 <= i < g.len() ==> 0 <= #[trigger] g[i] < bound,
    ensures
        cows(g, h, bound) + bulls(g, h) == common_below(g, h, bound),
{
    lemma_common_by_places(g, h, bound);
    lemma_matched_total(g, h, g.len(), bound);
}

/// The oracle never reports more exact matches than there are places, nor
/// more matches and overlap together.
pub proof fn lemma_score_bounds(g: Seq<u8>, h: Seq<u8>)
    ensures
        score_of(g, h).0 <= g.len(),
        score_of(g, h).0 <= h.len(),
        score_of(g, h).0 + score_of(g, h).1 <= g.len(),
        score_of(g, h).0 + score_of(g, h).1 <= h.len(),
{
    let a = ints_of_u8(g);
    let b = ints_of_u8(h);
    lemma_matches_bound(a, b, compared_len(a, b));
    lemma_overlap_bound(a, b, compared_len(a, b), 256);
}

/// A value scored against itself matches at every place and overlaps
/// nowhere else.
pub proof fn lemma_score_of_self(g: Seq<u8>)
    ensures
        score_of(g, g) == (g.len(), 0nat),
{
    let a = ints_of_u8(g);
    lemma_matches_self(a, a.len());
    lemma_overlap_self(a, a.len(), 256);
}

/// Both components of the score are the same whichever of the two values
/// is the guess.
pub proof fn lemma_score_symmetric(g: Seq<u8>, h: Seq<u8>)
    ensures
        score_of(g, h) == score_of(h, g),
{
    let a = ints_of_u8(g);
    let b = ints_of_u8(h);
    lemma_matches_symmetric(a, b, compared_len(a, b));
    lemma_overlap_symmetric(a, b, compared_len(a, b), 256);
}

/// For two values of one length the second component of the score is what
/// the digits have in common, counted with their multiplicity, less the
/// exact matches.
pub proof fn lemma_score_formula(g: Seq<u8>, h: Seq<u8>)
    requires
        g.len() == h.len(),
    ensures
        score_of(g, h).1 + score_of(g, h).0 == common_below(ints_of_u8(g), ints_of_u8(h), 256),
{
    let a = ints_of_u8(g);
    assert forall|i: int| 0 <= i < a.len() implies 0 <= #[trigger] a[i] < 256 by {
        assert(a[i] == g[i]);
    }
    lemma_cows_formula(a, ints_of_u8(h), 256);
}

/// The same three laws for the score of two texts.
pub proof fn lemma_text_score_laws(g: Seq<char>, h: Seq<char>)
    ensures
        text_score_of(g, h).0 + text_score_of(g, h).1 <= g.len(),
        text_score_of(g, h).0 + text_score_of(g, h).1 <= h.len(),
        text_score_of(g, g) == (g.len(), 0nat),
        text_score_of(g, h) == text_score_of(h, g),
{
    let a = codes_of_text(g);
    let b = codes_of_text(h);
    lemma_matches_bound(a, b, compared_len(a, b));
    lemma_overlap_bound(a, b, compared_len(a, b), 0x110000);
    lemma_matches_self(a, a.len());
    lemma_overlap_self(a, a.len(), 0x110000);
    lemma_matches_symmetric(a, b, compared_len(a, b));
    lemma_overlap_symmetric(a, b, compared_len(a, b), 0x110000);
}

/// The symbols of a text, one entry each.
pub fn chars_of(s: &str) -> (v: Vec<char>)
    ensures
        v@ == s@,
{
    let mut v: Vec<char> = Vec::new();
    for c in it: s.chars()
        invariant
            it.seq() == s@,
            v@ =~= it.seq().take(it.index()),
    {
        v.push(c);
    }
    assert(v@ =~= s@);
    v
}

/// Scores the guess `a` against `b`, both written with digits below `base`:
/// the exact matches, and the overlap of the digits at the other places.
/// Only the places that both values have are compared.
pub fn calc_bc_with_size(a: &Number, b: &Number, base: u8) -> (r: (u8, u8))
    requires
        a@.len() <= u8::MAX || b@.len() <= u8::MAX,
        forall|i: int| 0 <= i < a@.len() && i < b@.len() ==> a@[i] < base && b@[i] < base,
    ensures
        (r.0 as nat, r.1 as nat) == score_of(a@, b@),
        (r.0 as nat, r.1 as nat) == score_of(b@, a@),
        r.0 + r.1 <= a@.len(),
        r.0 + r.1 <= b@.len(),
{
    proof {
        lemma_score_symmetric(a@, b@);
        lemma_score_bounds(a@, b@);
    }
    let da = a.digits();
    let db = b.digits();
    let n = if da.len() <= db.len() { da.len() } else { db.len() };
    let ghost g = ints_of_u8(a@);
    let ghost h = ints_of_u8(b@);
    let mut count_a: Vec<usize> = vec![0usize; base as usize];
    let mut count_b: Vec<usize> = vec![0usize; base as usize];
    let mut bulls: usize = 0;
    let mut i: usize = 0;
    while i < n
        invariant
            i <= n,
            n == compared_len(g, h),
            n <= u8::MAX,
            da@ == a@,
            db@ == b@,
            g == ints_of_u8(a@),
            h == ints_of_u8(b@),
            forall|k: int| 0 <= k < n ==> a@[k] < base && b@[k] < base,
            count_a.len() == base,
            count_b.len() == base,
            bulls == matches_below(g, h, i as nat),
            forall|d: int| 0 <= d < base ==> count_a@[d] == free_below(g, h, d, i as nat),
            forall|d: int| 0 <= d < base ==> count_b@[d] == free_below(h, g, d, i as nat),
        decreases n - i,
    {
        proof {
            lemma_matches_bound(g, h, i as nat);
            lemma_free_bound(g, h, da@[i as int] as int, i as nat);
            lemma_free_bound(h, g, db@[i as int] as int, i as nat);
        }
        let x = da[i];
        let y = db[i];
        if x == y {
            bulls += 1;
        } else {
            let cx = count_a[x as usize];
            count_a.set(x as usize, cx + 1);
            let cy = count_b[y as usize];
            count_b.set(y as usize, cy + 1);
        }
        i += 1;
    }
    let mut cows: usize = 0;
    let mut d: usize = 0;
    while d < base as usize
        invariant
            d <= base,
            n == compared_len(g, h),
            n <= u8::MAX,
            count_a.len() == base,
            count_b.len() == base,
            forall|d: int| 0 <= d < base ==> count_a@[d] == free_below(g, h, d, n as nat),
            forall|d: int| 0 <= d < base ==> count_b@[d] == free_below(h, g, d, n as nat),
            cows == overlap_below(g, h, n as nat, d as nat),
        decreases base - d,
    {
        proof {
            lemma_overlap_bound(g, h, n as nat, (d + 1) as nat);
        }
        let ca = count_a[d];
        let cb = count_b[d];
        cows += if ca <= cb { ca } else { cb };
        d += 1;
    }
    proof {
        lemma_overlap_beyond(g, h, n as nat, base as nat, 256);
        lemma_overlap_bound(g, h, n as nat, 256);
    }
    (bulls as u8, cows as u8)
}

/// The code of the symbol `0`.
pub const ZERO_CODE: u32 = 48;

/// Scores the guess `guess` against `hidden`, both written with the digits
/// `0` to `9`: the exact matches, and the overlap of the digits at the other
/// places. Only the places that both texts have are compared.
pub fn calc_bc(guess: &str, hidden: &str) -> (r: (i32, i32))
    requires
        guess@.len() <= i32::MAX || hidden@.len() <= i32::MAX,
        forall|i: int|
            0 <= i < guess@.len() && i < hidden@.len() && guess@[i] != hidden@[i] ==> '0'
                <= guess@[i] <= '9' && '0' <= hidden@[i] <= '9',
    ensures
        r.0 == text_score_of(guess@, hidden@).0,
        r.1 == text_score_of(guess@, hidden@).1,
        r.0 == text_score_of(hidden@, guess@).0,
        r.1 == text_score_of(hidden@, guess@).1,
        0 <= r.0,
        0 <= r.1,
        r.0 + r.1 <= guess@.len(),
        r.0 + r.1 <= hidden@.len(),
{
    proof {
        lemma_text_score_laws(guess@, hidden@);
    }
    let da = chars_of(guess);
    let db = chars_of(hidden);
    let n = if da.len() <= db.len() { da.len() } else { db.len() };
    let ghost g = codes_of_text(guess@);
    let ghost h = codes_of_text(hidden@);
    let mut count_a: Vec<usize> = vec![0usize; 10];
    let mut count_b: Vec<usize> = vec![0usize; 10];
    let mut bulls: usize = 0;
    let mut i: usize = 0;
    while i < n
        invariant
            i <= n,
            n == compared_len(g, h),
            n <= i32::MAX,
            da@ == guess@,
            db@ == hidden@,
            g == codes_of_text(guess@),
            h == codes_of_text(hidden@),
            forall|k: int|
                0 <= k < n && guess@[k] != hidden@[k] ==> '0' <= guess@[k] <= '9' && '0'
                    <= hidden@[k] <= '9',
            count_a.len() == 10,
            count_b.len() == 10,
            bulls == matches_below(g, h, i as nat),
            forall|d: int| 0 <= d < 10 ==> count_a@[d] == free_below(g, h, d + 48, i as nat),
            forall|d: int| 0 <= d < 10 ==> count_b@[d] == free_below(h, g, d + 48, i as nat),
        decreases n - i,
    {
        proof {
            lemma_matches_bound(g, h, i as nat);
            lemma_free_bound(g, h, da@[i as int] as int, i as nat);
            lemma_free_bound(h, g, db@[i as int] as int, i as nat);
        }
        let x = da[i];
        let y = db[i];
        if x == y {
            bulls += 1;
        } else {
            let ix = (x as u32 - ZERO_CODE) as usize;
            let iy = (y as u32 - ZERO_CODE) as usize;
            let cx = count_a[ix];
            count_a.set(ix, cx + 1);
            let cy = count_b[iy];
            count_b.set(iy, cy + 1);
        }
        i += 1;
    }
    let mut cows: usize = 0;
    let mut d: usize = 0;
    proof {
        lemma_overlap_before(g, h, n as nat, 48);
    }
    while d < 10
        invariant
            d <= 10,
            n == compared_len(g, h),
            n <= i32::MAX,
            count_a.len() == 10,
            count_b.len() == 10,
            forall|d: int| 0 <= d < 10 ==> count_a@[d] == free_below(g, h, d + 48, n as nat),
            forall|d: int| 0 <= d < 10 ==> count_b@[d] == free_below(h, g, d + 48, n as nat),
            cows == overlap_below(g, h, n as nat, (d + 48) as nat),
        decreases 10 - d,
    {
        proof {
            lemma_overlap_bound(g, h, n as nat, (d + 49) as nat);
        }
        let ca = count_a[d];
        let cb = count_b[d];
        cows += if ca <= cb { ca } else { cb };
        d += 1;
    }
    proof {
        lemma_overlap_beyond(g, h, n as nat, 58, 0x110000);
        lemma_overlap_bound(g, h, n as nat, 0x110000);
    }
    (bulls as i32, cows as i32)
}

} // verus!

//! Texts as the libraries around the guessers need them: trimmed, in lower
//! case, compared and ordered.

use vstd::prelude::*;
use vstd::string::StrSliceExecFns;
use crate::comb_utils::{first_difference, lex_less};
use crate::oracle::{chars_of, codes_of_text};

verus! {

/// Whether `c` is white space: what `char::is_whitespace` of std returns
/// for it.
pub uninterp spec fn is_white_space(c: char) -> bool;

/// `char::is_whitespace` of std, which tells whether a symbol has the
/// Unicode property `White_Space`. The contract only names its result.
pub assume_specification[ char::is_whitespace ](c: char) -> (r: bool)
    ensures
        r == is_white_space(c),
;

/// The lower case of a text: what `str::to_lowercase` of std returns for
/// it.
pub uninterp spec fn lowercase_of(s: Seq<char>) -> Seq<char>;

/// `str::to_lowercase` of std, which maps a text to lower case by the
/// Unicode property `Lowercase`. The contract only names its result.
#[verifier::external_body]
pub(crate) fn to_lowercase(s: &str) -> (r: String)
    ensures
        r@ == lowercase_of(s@),
{
    s.to_lowercase()
}

/// How many symbols at the start of `s` are white space.
pub open spec fn leading_white(s: Seq<char>) -> nat
    decreases s.len(),
{
    if s.len() > 0 && is_white_space(s[0]) {
        1 + leading_white(s.drop_first())
    } else {
        0
    }
}

/// How many symbols at the end of `s` are white space.
pub open spec fn trailing_white(s: Seq<char>) -> nat
    decreases s.len(),
{
    if s.len() > 0 && is_white_space(s.last()) {
        1 + trailing_white(s.drop_last())
    } else {
        0
    }
}

/// The text without the white space at its start and at its end.
pub open spec fn trim_of(s: Seq<char>) -> Seq<char> {
    let rest = s.skip(leading_white(s) as int);
    rest.take(rest.len() - trailing_white(rest))
}

proof fn lemma_leading_white(s: Seq<char>, k: nat)
    requires
        k <= s.len(),
        forall|i: int| 0 <= i < k ==> is_white_space(#[trigger] s[i]),
        k < s.len() ==> !is_white_space(s[k as int]),
    ensures
        leading_white(s) == k,
    decreases k,
{
    if k > 0 {
        let t = s.drop_first();
        assert forall|i: int| 0 <= i < k - 1 implies is_white_space(#[trigger] t[i]) by {
            assert(t[i] == s[i + 1]);
        }
        if k < s.len() {
            assert(t[k - 1] == s[k as int]);
        }
        lemma_leading_white(t, (k - 1) as nat);
    }
}

proof fn lemma_trailing_white(s: Seq<char>, k: nat)
    requires
        k <= s.len(),
        forall|i: int| s.len() - k <= i < s.len() ==> is_white_space(#[trigger] s[i]),
        k < s.len() ==> !is_white_space(s[s.len() - k - 1]),
    ensures
        trailing_white(s) == k,
    decreases k,
{
    if k > 0 {
        let t = s.drop_last();
        assert forall|i: int| t.len() - (k - 1) <= i < t.len() implies is_white_space(
            #[trigger] t[i],
        ) by {
            assert(t[i] == s[i]);
        }
        if k < s.len() {
            assert(t[t.len() - (k - 1) - 1] == s[s.len() - k - 1]);
        }
        lemma_trailing_white(t, (k - 1) as nat);
    }
}

/// A text from its symbols.
pub fn string_of(chars: &Vec<char>, from: usize, to: usize) -> (r: String)
    requires
        from <= to <= chars.len(),
    ensures
        r@ == chars@.subrange(from as int, to as int),
{
    let mut r = String::new();
    let mut i: usize = from;
    while i < to
        invariant
            from <= i <= to,
            to <= chars.len(),
            r@ =~= chars@.subrange(from as int, i as int),
        decreases to - i,
    {
        r.push(chars[i]);
        i += 1;
    }
    r
}

/// The text without the white space at its start and at its end.
pub fn trim(s: &str) -> (r: String)
    ensures
        r@ == trim_of(s@),
{
    let chars = chars_of(s);
    let n = chars.len();
    let mut from: usize = 0;
    while from < n && chars[from].is_whitespace()
        invariant
            from <= n,
            n == chars.len(),
            forall|i: int| 0 <= i < from ==> is_white_space(#[trigger] chars@[i]),
        decreases n - from,
    {
        from += 1;
    }
    let mut to: usize = n;
    while to > from && chars[to - 1].is_whitespace()
        invariant
            from <= to <= n,
            n == chars.len(),
            forall|i: int| to <= i < n ==> is_white_space(#[trigger] chars@[i]),
        decreases to,
    {
        to -= 1;
    }
    proof {
        lemma_leading_white(chars@, from as nat);
        let rest = chars@.skip(from as int);
        assert forall|i: int| rest.len() - (n - to) <= i < rest.len() implies is_white_space(
            #[trigger] rest[i],
        ) by {
            assert(rest[i] == chars@[i + from]);
        }
        if n - to < rest.len() {
            assert(rest[rest.len() - (n - to) - 1] == chars@[to - 1]);
        }
        lemma_trailing_white(rest, (n - to) as nat);
        assert(rest.take(rest.len() - (n - to)) =~= chars@.subrange(from as int, to as int));
    }
    string_of(&chars, from, to)
}

/// The number of symbols of a text.
pub fn char_count(s: &str) -> (n: usize)
    ensures
        n == s@.len(),
{
    s.unicode_len()
}

/// Whether two texts are the same.
pub fn same_text(a: &str, b: &str) -> (r: bool)
    ensures
        r == (a@ == b@),
{
    let x = chars_of(a);
    let y = chars_of(b);
    if x.len() != y.len() {
        return false;
    }
    let mut i: usize = 0;
    while i < x.len()
        invariant
            i <= x.len(),
            x.len() == y.len(),
            x@ == a@,
            y@ == b@,
            forall|k: int| 0 <= k < i ==> x@[k] == y@[k],
        decreases x.len() - i,
    {
        if x[i] != y[i] {
            return false;
        }
        i += 1;
    }
    assert(a@ =~= b@);
    true
}

/// `a` comes before `b` in the order of texts: symbol by symbol, by the
/// codes of the symbols.
pub open spec fn text_less(a: Seq<char>, b: Seq<char>) -> bool {
    lex_less(codes_of_text(a), codes_of_text(b))
}

/// Whether `a` comes before `b` in the order of texts.
pub fn text_precedes(a: &str, b: &str) -> (r: bool)
    ensures
        r == text_less(a@, b@),
{
    let xa = chars_of(a);
    let xb = chars_of(b);
    let ghost x = codes_of_text(a@);
    let ghost y = codes_of_text(b@);
    let mut k: usize = 0;
    while k < xa.len() && k < xb.len()
        invariant
            k <= xa.len(),
            k <= xb.len(),
            xa@ == a@,
            xb@ == b@,
            x == codes_of_text(a@),
            y == codes_of_text(b@),
            forall|j: int| 0 <= j < k ==> x[j] == y[j],
        decreases xa.len() - k,
    {
        if xa[k] < xb[k] {
            assert(first_difference(x, y, k as int));
            return true;
        }
        if xa[k] > xb[k] {
            proof {
                assert(x[k as int] > y[k as int]);
                if lex_less(x, y) {
                    if exists|m: int| first_difference(x, y, m) {
                        let m = choose|m: int| first_difference(x, y, m);
                        if m < k {
                            assert(x[m] == y[m]);
                        } else if m > k {
                            assert(x[k as int] == y[k as int]);
                        }
                    } else {
                        assert(x[k as int] == y[k as int]);
                    }
                }
            }
            return false;
        }
        proof {
            assert(x[k as int] == y[k as int]);
        }
        k += 1;
    }
    proof {
        if exists|m: int| first_difference(x, y, m) {
            let m = choose|m: int| first_difference(x, y, m);
            assert(x[m] == y[m]);
        }
    }
    xa.len() < xb.len()
}

} // verus!

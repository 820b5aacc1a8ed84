//! The configuration of a numeric puzzle, and the reading and writing of its
//! values.

use vstd::prelude::*;
use crate::counting::all_distinct;
use crate::number::{
    digit_of_symbol, digits_of_text, read_symbol, symbol_of_digit, text_of_digits, write_symbol,
    Number, MAX_BASE,
};
use crate::oracle::{calc_bc_with_size, chars_of, score_of};

verus! {

/// Why a symbol or a digit is not part of a configuration's alphabet.
#[derive(Debug, Clone, Copy, PartialEq, Eq, Structural)]
pub enum SymbolError {
    /// The digit is not below the alphabet size.
    ValueTooLarge(u8),
    /// The symbol is none of `0`-`9`, `A`-`Z`.
    CharOutOfRange(char),
    /// The symbol writes a digit that is not below the alphabet size.
    DigitTooLarge(char),
}

/// A configuration: the length of a value, the size of the alphabet, and
/// whether a value may hold a digit twice.
#[derive(Debug, Clone, Copy)]
pub struct GameParams {
    number_len: u8,
    has_repetitions: bool,
    base: u8,
}

/// Every digit of `v` is below `base`.
pub open spec fn digits_below(v: Seq<u8>, base: u8) -> bool {
    forall|i: int| 0 <= i < v.len() ==> v[i] < base
}

/// `v` uses the alphabet of size `base`, and holds no digit twice unless
/// `repetitions` allows it.
pub open spec fn respects_alphabet(v: Seq<u8>, base: u8, repetitions: bool) -> bool {
    &&& digits_below(v, base)
    &&& repetitions || all_distinct(v)
}

/// `t` writes a value over the alphabet of size `base`.
pub open spec fn text_respects_alphabet(t: Seq<char>, base: u8, repetitions: bool) -> bool {
    &&& forall|i: int|
        0 <= i < t.len() ==> (#[trigger] digit_of_symbol(t[i])) is Some && digit_of_symbol(t[i])->0
            < base
    &&& repetitions || all_distinct(digits_of_text(t))
}

impl GameParams {
    #[verifier::type_invariant]
    spec fn within_limits(self) -> bool {
        self.number_len <= MAX_BASE && self.base <= MAX_BASE
    }

    /// The length of a value.
    pub closed spec fn spec_number_len(self) -> u8 {
        self.number_len
    }

    /// The size of the alphabet.
    pub closed spec fn spec_base(self) -> u8 {
        self.base
    }

    /// Whether a value may hold a digit twice.
    pub closed spec fn spec_has_repetitions(self) -> bool {
        self.has_repetitions
    }

    /// `v` is a value of this configuration.
    pub open spec fn admits(self, v: Seq<u8>) -> bool {
        &&& v.len() == self.spec_number_len()
        &&& respects_alphabet(v, self.spec_base(), self.spec_has_repetitions())
    }

    /// The configuration for values of `number_len` decimal digits, none of
    /// them twice.
    pub fn new(number_len: u8) -> (g: GameParams)
        requires
            number_len <= MAX_BASE,
        ensures
            g.spec_number_len() == number_len,
            g.spec_base() == 10,
            !g.spec_has_repetitions(),
    {
        GameParams { number_len, has_repetitions: false, base: 10 }
    }

    /// The length of a value.
    pub fn number_len(&self) -> (n: u8)
        ensures
            n == self.spec_number_len(),
            n <= MAX_BASE,
    {
        proof {
            use_type_invariant(self);
        }
        self.number_len
    }

    /// The size of the alphabet.
    pub fn base(&self) -> (b: u8)
        ensures
            b == self.spec_base(),
            b <= MAX_BASE,
    {
        proof {
            use_type_invariant(self);
        }
        self.base
    }

    /// Whether a value may hold a digit twice.
    pub fn has_repetitions(&self) -> (r: bool)
        ensures
            r == self.spec_has_repetitions(),
    {
        self.has_repetitions
    }

    /// The same configuration, with repetition allowed or not.
    pub fn with_repetitions(self, r: bool) -> (g: GameParams)
        ensures
            g.spec_number_len() == self.spec_number_len(),
            g.spec_base() == self.spec_base(),
            g.spec_has_repetitions() == r,
    {
        proof {
            use_type_invariant(self);
        }
        GameParams { number_len: self.number_len, has_repetitions: r, base: self.base }
    }

    /// The same configuration over an alphabet of `base` digits.
    pub fn with_base(self, base: u8) -> (g: GameParams)
        requires
            base <= MAX_BASE,
        ensures
            g.spec_number_len() == self.spec_number_len(),
            g.spec_base() == base,
            g.spec_has_repetitions() == self.spec_has_repetitions(),
    {
        proof {
            use_type_invariant(self);
        }
        GameParams { number_len: self.number_len, has_repetitions: self.has_repetitions, base }
    }

    /// The same configuration over an alphabet of `ds` digits.
    pub fn with_total_digits_number(self, ds: u8) -> (g: GameParams)
        requires
            ds <= MAX_BASE,
        ensures
            g.spec_number_len() == self.spec_number_len(),
            g.spec_base() == ds,
            g.spec_has_repetitions() == self.spec_has_repetitions(),
    {
        self.with_base(ds)
    }

    /// The symbol that writes the digit `b`.
    pub fn to_char(&self, b: u8) -> (r: Result<char, SymbolError>)
        ensures
            b < self.spec_base() ==> r == Ok::<char, SymbolError>(symbol_of_digit(b)),
            b >= self.spec_base() ==> r == Err::<char, SymbolError>(SymbolError::ValueTooLarge(b)),
    {
        proof {
            use_type_invariant(self);
        }
        if b >= self.base {
            return Err(SymbolError::ValueTooLarge(b));
        }
        Ok(write_symbol(b))
    }

    /// The digit that the symbol `c` writes.
    pub fn to_u8(&self, c: char) -> (r: Result<u8, SymbolError>)
        ensures
            match digit_of_symbol(c) {
                Some(v) => if v < self.spec_base() {
                    r == Ok::<u8, SymbolError>(v)
                } else {
                    r == Err::<u8, SymbolError>(SymbolError::DigitTooLarge(c))
                },
                None => r == Err::<u8, SymbolError>(SymbolError::CharOutOfRange(c)),
            },
    {
        match read_symbol(c) {
            Some(v) => {
                if v >= self.base {
                    Err(SymbolError::DigitTooLarge(c))
                } else {
                    Ok(v)
                }
            },
            None => Err(SymbolError::CharOutOfRange(c)),
        }
    }

    /// Reads a value of any length: the digits that `s` writes, if every
    /// symbol belongs to the alphabet and none comes twice where repetition
    /// is not allowed.
    pub fn to_byte_vec_value(&self, s: &str) -> (r: Option<Number>)
        ensures
            r is Some <==> text_respects_alphabet(
                s@,
                self.spec_base(),
                self.spec_has_repetitions(),
            ),
            r is Some ==> r->0@ == digits_of_text(s@),
    {
        proof {
            use_type_invariant(self);
        }
        let chars = chars_of(s);
        let mut res: Vec<u8> = Vec::new();
        let mut digit_presented: Vec<bool> = vec![false; MAX_BASE as usize];
        let mut i: usize = 0;
        while i < chars.len()
            invariant
                i <= chars.len(),
                chars@ == s@,
                self.base <= MAX_BASE,
                self.base == self.spec_base(),
                self.has_repetitions == self.spec_has_repetitions(),
                digit_presented.len() == MAX_BASE,
                res@ =~= digits_of_text(s@.take(i as int)),
                text_respects_alphabet(s@.take(i as int), self.base, self.has_repetitions),
                forall|d: int|
                    0 <= d < MAX_BASE ==> (digit_presented@[d] <==> res@.contains(d as u8)),
            decreases chars.len() - i,
        {
            let ghost before = s@.take(i as int);
            let ghost after = s@.take(i + 1);
            assert(before =~= after.take(i as int));
            match self.to_u8(chars[i]) {
                Ok(v) => {
                    if !self.has_repetitions && digit_presented[v as usize] {
                        proof {
                            let k = choose|k: int| 0 <= k < res@.len() && res@[k] == v;
                            if text_respects_alphabet(s@, self.base, self.has_repetitions) {
                                let t = digits_of_text(s@);
                                assert(t[k] == digits_of_text(before)[k]);
                                assert(t[i as int] == v);
                            }
                        }
                        return None;
                    }
                    let ghost r0 = res@;
                    digit_presented.set(v as usize, true);
                    res.push(v);
                    proof {
                        let t = digits_of_text(after);
                        assert(res@ =~= t);
                        assert forall|d: int| 0 <= d < MAX_BASE implies (digit_presented@[d]
                            <==> res@.contains(d as u8)) by {
                            if r0.contains(d as u8) {
                                let k = choose|k: int| 0 <= k < r0.len() && r0[k] == d as u8;
                                assert(res@[k] == d as u8);
                            }
                            if d == v {
                                assert(res@[res@.len() - 1] == v);
                            }
                            if res@.contains(d as u8) && d != v {
                                let k = choose|k: int| 0 <= k < res@.len() && res@[k] == d as u8;
                                assert(r0[k] == d as u8);
                            }
                        }
                        if !self.has_repetitions {
                            assert forall|x: int, y: int| 0 <= x < y < t.len() implies t[x]
                                != t[y] by {
                                let t0 = digits_of_text(before);
                                if y < i {
                                    assert(t0[x] == t[x] && t0[y] == t[y]);
                                } else {
                                    assert(t0[x] == t[x]);
                                    if t[x] == v {
                                        assert(r0[x] == v);
                                    }
                                }
                            }
                        }
                        assert forall|k: int| 0 <= k < after.len() implies (
                        #[trigger] digit_of_symbol(after[k])) is Some && digit_of_symbol(
                            after[k],
                        )->0 < self.base by {
                            if k < i {
                                assert(before[k] == after[k]);
                            }
                        }
                    }
                },
                Err(_) => {
                    proof {
                        if text_respects_alphabet(s@, self.base, self.has_repetitions) {
                            assert(digit_of_symbol(s@[i as int]) is Some);
                        }
                    }
                    return None;
                },
            }
            i += 1;
        }
        assert(s@.take(s@.len() as int) =~= s@);
        Some(Number::new(res))
    }

    /// Reads a value of this configuration: as `to_byte_vec_value`, and the
    /// length must be the configuration's.
    pub fn to_number_checked(&self, s: &str) -> (r: Option<Number>)
        ensures
            r is Some <==> s@.len() == self.spec_number_len() && text_respects_alphabet(
                s@,
                self.spec_base(),
                self.spec_has_repetitions(),
            ),
            r is Some ==> r->0@ == digits_of_text(s@) && self.admits(r->0@),
    {
        match self.to_byte_vec_value(s) {
            Some(num) => {
                if num.len() != self.number_len as usize {
                    None
                } else {
                    Some(num)
                }
            },
            None => None,
        }
    }

    /// Writes a value of any length: its text, if every digit belongs to the
    /// alphabet and none comes twice where repetition is not allowed.
    pub fn to_string_value(&self, num: &Number) -> (r: Option<String>)
        ensures
            r is Some <==> respects_alphabet(num@, self.spec_base(), self.spec_has_repetitions()),
            r is Some ==> r->0@ == text_of_digits(num@),
    {
        proof {
            use_type_invariant(self);
        }
        let data = num.digits();
        let mut res = String::new();
        let mut digit_presented: Vec<bool> = vec![false; MAX_BASE as usize];
        let mut i: usize = 0;
        while i < data.len()
            invariant
                i <= data.len(),
                data@ == num@,
                self.base <= MAX_BASE,
                self.base == self.spec_base(),
                self.has_repetitions == self.spec_has_repetitions(),
                digit_presented.len() == MAX_BASE,
                res@ =~= text_of_digits(num@.take(i as int)),
                respects_alphabet(num@.take(i as int), self.base, self.has_repetitions),
                forall|d: int|
                    0 <= d < MAX_BASE ==> (digit_presented@[d] <==> num@.take(i as int).contains(
                        d as u8,
                    )),
            decreases data.len() - i,
        {
            let ghost before = num@.take(i as int);
            let ghost after = num@.take(i + 1);
            let b = data[i];
            match self.to_char(b) {
                Ok(c) => {
                    if !self.has_repetitions && digit_presented[b as usize] {
                        proof {
                            let k = choose|k: int| 0 <= k < before.len() && before[k] == b;
                            assert(num@[k] == num@[i as int]);
                        }
                        return None;
                    }
                    digit_presented.set(b as usize, true);
                    res.push(c);
                    proof {
                        assert(res@ =~= text_of_digits(after));
                        assert forall|d: int| 0 <= d < MAX_BASE implies (digit_presented@[d]
                            <==> after.contains(d as u8)) by {
                            if before.contains(d as u8) {
                                let k = choose|k: int| 0 <= k < before.len() && before[k] == d as u8;
                                assert(after[k] == d as u8);
                            }
                            if d == b {
                                assert(after[i as int] == b);
                            }
                            if after.contains(d as u8) && d != b {
                                let k = choose|k: int| 0 <= k < after.len() && after[k] == d as u8;
                                assert(before[k] == d as u8);
                            }
                        }
                        if !self.has_repetitions {
                            assert forall|x: int, y: int| 0 <= x < y < after.len() implies after[x]
                                != after[y] by {
                                if y < i {
                                    assert(before[x] == after[x] && before[y] == after[y]);
                                } else {
                                    assert(before[x] == after[x]);
                                    if after[x] == b {
                                        assert(before.contains(b));
                                    }
                                }
                            }
                        }
                        assert forall|k: int| 0 <= k < after.len() implies after[k]
                            < self.base by {
                            if k < i {
                                assert(before[k] == after[k]);
                            }
                        }
                    }
                },
                Err(_) => {
                    return None;
                },
            }
            i += 1;
        }
        assert(num@.take(num@.len() as int) =~= num@);
        Some(res)
    }

    /// Writes a value of this configuration: as `to_string_value`, and the
    /// length must be the configuration's.
    pub fn to_string_checked(&self, num: &Number) -> (r: Option<String>)
        ensures
            r is Some <==> self.admits(num@),
            r is Some ==> r->0@ == text_of_digits(num@),
    {
        if num.len() != self.number_len as usize {
            return None;
        }
        self.to_string_value(num)
    }

    /// Scores the guess `a` against `b`.
    pub fn calc_bc(&self, a: &Number, b: &Number) -> (r: (u8, u8))
        requires
            a@.len() <= u8::MAX || b@.len() <= u8::MAX,
            forall|i: int|
                0 <= i < a@.len() && i < b@.len() ==> a@[i] < self.spec_base() && b@[i]
                    < self.spec_base(),
        ensures
            (r.0 as nat, r.1 as nat) == score_of(a@, b@),
            (r.0 as nat, r.1 as nat) == score_of(b@, a@),
            r.0 + r.1 <= a@.len(),
            r.0 + r.1 <= b@.len(),
    {
        calc_bc_with_size(a, b, self.base)
    }
}

} // verus!

//! Values of the numeric puzzle and the symbols that write them.

use vstd::prelude::*;

verus! {

/// Largest alphabet size, and largest value length, that the symbols
/// `0`-`9`, `A`-`Z` can encode.
pub const MAX_BASE: u8 = 36;

/// The symbol that writes the digit `b`: `0`-`9`, then `A`-`Z`.
pub open spec fn symbol_of_digit(b: u8) -> char {
    if b < 10 {
        (b + 48) as char
    } else {
        (b + 55) as char
    }
}

/// The digit that the symbol `c` writes, if it writes one.
pub open spec fn digit_of_symbol(c: char) -> Option<u8> {
    if '0' <= c && c <= '9' {
        Some((c as u32 - 48) as u8)
    } else if 'A' <= c && c <= 'Z' {
        Some((c as u32 - 55) as u8)
    } else {
        None
    }
}

/// The text that writes the digits `s`.
pub open spec fn text_of_digits(s: Seq<u8>) -> Seq<char> {
    Seq::new(s.len(), |i: int| symbol_of_digit(s[i]))
}

/// Every symbol of `t` writes a digit.
pub open spec fn is_digit_text(t: Seq<char>) -> bool {
    forall|i: int| 0 <= i < t.len() ==> (#[trigger] digit_of_symbol(t[i])) is Some
}

/// The digits that the text `t` writes.
pub open spec fn digits_of_text(t: Seq<char>) -> Seq<u8> {
    Seq::new(t.len(), |i: int| digit_of_symbol(t[i])->0)
}

/// Writing a digit and reading it back gives the digit.
pub proof fn lemma_symbol_round_trip(b: u8)
    requires
        b < MAX_BASE,
    ensures
        digit_of_symbol(symbol_of_digit(b)) == Some(b),
{
}

/// Reading a symbol and writing it back gives the symbol.
pub proof fn lemma_digit_round_trip(c: char)
    requires
        digit_of_symbol(c) is Some,
    ensures
        digit_of_symbol(c)->0 < MAX_BASE,
        symbol_of_digit(digit_of_symbol(c)->0) == c,
{
}

/// Reads one symbol.
pub fn read_symbol(c: char) -> (r: Option<u8>)
    ensures
        r == digit_of_symbol(c),
{
    if '0' <= c && c <= '9' {
        Some((c as u32 - 48) as u8)
    } else if 'A' <= c && c <= 'Z' {
        Some((c as u32 - 55) as u8)
    } else {
        None
    }
}

/// Writes one digit.
pub fn write_symbol(b: u8) -> (c: char)
    requires
        b < MAX_BASE,
    ensures
        c == symbol_of_digit(b),
{
    if b < 10 {
        (b + 48) as char
    } else {
        (b + 55) as char
    }
}

/// `String::push` of std, which appends one symbol to a text. The contract
/// claims that the text is afterwards the text before with the symbol at
/// its end.
pub assume_specification[ String::push ](s: &mut String, ch: char)
    ensures
        final(s)@ == old(s)@.push(ch),
;

/// One value of the numeric puzzle: its digits, most significant first.
#[derive(Debug, PartialEq, Eq, PartialOrd, Ord, Hash)]
pub struct Number {
    data: Vec<u8>,
}

impl View for Number {
    type V = Seq<u8>;

    closed spec fn view(&self) -> Seq<u8> {
        self.data@
    }
}

/// The views of a sequence of values.
pub open spec fn views_of(s: Seq<Number>) -> Seq<Seq<u8>> {
    Seq::new(s.len(), |i: int| s[i]@)
}

impl Clone for Number {
    fn clone(&self) -> (r: Number)
        ensures
            r@ == self@,
    {
        Number { data: self.data.clone() }
    }
}

impl Default for Number {
    fn default() -> (r: Number)
        ensures
            r@ == Seq::<u8>::empty(),
    {
        Number { data: Vec::new() }
    }
}

impl Number {
    /// The value with the given digits.
    pub fn new(data: Vec<u8>) -> (r: Number)
        ensures
            r@ == data@,
    {
        Number { data }
    }

    /// The value that the text `value` writes.
    pub fn from(value: &str) -> (r: Number)
        requires
            is_digit_text(value@),
        ensures
            r@ == digits_of_text(value@),
    {
        let mut data: Vec<u8> = Vec::new();
        for c in it: value.chars()
            invariant
                it.seq() == value@,
                is_digit_text(value@),
                data@ =~= digits_of_text(value@.take(it.index())),
        {
            let d = read_symbol(c);
            assert(digit_of_symbol(value@[it.index()]) is Some);
            match d {
                Some(v) => {
                    data.push(v);
                },
                None => {},
            }
        }
        assert(value@.take(value@.len() as int) =~= value@);
        Number { data }
    }

    /// The digits of the value.
    pub fn digits(&self) -> (r: &Vec<u8>)
        ensures
            r@ == self@,
    {
        &self.data
    }

    /// The digits of the value, given up by it.
    pub fn into_digits(self) -> (r: Vec<u8>)
        ensures
            r@ == self@,
    {
        self.data
    }

    /// The number of digits.
    pub fn len(&self) -> (n: usize)
        ensures
            n == self@.len(),
    {
        self.data.len()
    }

    /// Whether two values have the same digits.
    pub fn same_as(&self, other: &Number) -> (r: bool)
        ensures
            r == (self@ == other@),
    {
        if self.data.len() != other.data.len() {
            return false;
        }
        let mut i: usize = 0;
        while i < self.data.len()
            invariant
                self.data.len() == other.data.len(),
                i <= self.data.len(),
                forall|k: int| 0 <= k < i ==> self.data@[k] == other.data@[k],
            decreases self.data.len() - i,
        {
            if self.data[i] != other.data[i] {
                return false;
            }
            i += 1;
        }
        assert(self@ =~= other@);
        true
    }

    /// The text that writes the value.
    pub fn to_string(&self) -> (r: String)
        requires
            forall|i: int| 0 <= i < self@.len() ==> self@[i] < MAX_BASE,
        ensures
            r@ == text_of_digits(self@),
    {
        let mut s = String::new();
        let mut i: usize = 0;
        while i < self.data.len()
            invariant
                i <= self.data.len(),
                forall|k: int| 0 <= k < self@.len() ==> self@[k] < MAX_BASE,
                s@ =~= text_of_digits(self@.take(i as int)),
            decreases self.data.len() - i,
        {
            s.push(write_symbol(self.data[i]));
            i += 1;
        }
        assert(self@.take(self@.len() as int) =~= self@);
        s
    }
}

} // verus!

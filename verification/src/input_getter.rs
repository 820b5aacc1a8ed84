//! What the dialogue with the player decides: whether a line is a command
//! or a value, and whether a value is a word or a response of the right
//! shape.

use vstd::prelude::*;
use crate::colored_string::{Color, ColoredString};
use crate::oracle::chars_of;
use crate::text::{char_count, lowercase_of, same_text, string_of, to_lowercase, trim, trim_of};
use crate::word_feedback::CharResult;

verus! {

/// What the player can ask for in place of a value.
#[derive(Debug, Clone, Copy, PartialEq, Eq, Structural)]
pub enum Command {
    /// Stop the current game and start a new one.
    StopGame,
    /// Stop the current game and leave.
    Quit,
}

/// What a line of the player holds.
#[derive(Debug)]
pub enum Input<T> {
    Value(T),
    Cmd(Command),
}

/// What a line that should hold a response holds.
#[derive(Debug)]
pub enum ResponseCheck {
    /// The line has not as many symbols as the words have.
    WrongLength,
    /// The line holds a symbol that is none of `0`, `1`, `2`.
    ForbiddenSymbol,
    /// The response that the line holds.
    Accepted(Vec<CharResult>),
}

/// The tag that a symbol of a response stands for.
pub open spec fn tag_of_symbol(c: char) -> Option<CharResult> {
    if c == '0' {
        Some(CharResult::NotPresented)
    } else if c == '1' {
        Some(CharResult::PartialMatch)
    } else if c == '2' {
        Some(CharResult::FullMatch)
    } else {
        None
    }
}

/// Every symbol of `s` stands for a tag.
pub open spec fn is_response_text(s: Seq<char>) -> bool {
    forall|i: int| 0 <= i < s.len() ==> (#[trigger] tag_of_symbol(s[i])) is Some
}

/// The tags that the symbols of `s` stand for.
pub open spec fn tags_of_text(s: Seq<char>) -> Seq<CharResult> {
    Seq::new(s.len(), |i: int| tag_of_symbol(s[i])->0)
}

/// The colour in which a tag shows a symbol.
pub open spec fn color_of_tag(t: CharResult) -> Color {
    match t {
        CharResult::FullMatch => Color::Green,
        CharResult::PartialMatch => Color::Yellow,
        CharResult::NotPresented => Color::Gray,
    }
}

/// What the line `line` holds: the commands are `-quit` and `-stop`, with
/// or without white space around them; any other line holds its text,
/// trimmed and in lower case.
pub fn parse_line(line: &str) -> (r: Input<String>)
    ensures
        match r {
            Input::Cmd(c) => if c == Command::Quit {
                trim_of(line@) == "-quit"@
            } else {
                trim_of(line@) != "-quit"@ && trim_of(line@) == "-stop"@
            },
            Input::Value(s) => trim_of(line@) != "-quit"@ && trim_of(line@) != "-stop"@ && s@
                == lowercase_of(trim_of(trim_of(line@))),
        },
{
    let s = trim(line);
    if same_text(s.as_str(), "-quit") {
        Input::Cmd(Command::Quit)
    } else if same_text(s.as_str(), "-stop") {
        Input::Cmd(Command::StopGame)
    } else {
        let again = trim(s.as_str());
        Input::Value(to_lowercase(again.as_str()))
    }
}

/// The part of the dialogue that knows the length of the words.
pub struct InputGetter {
    word_len: usize,
}

impl InputGetter {
    /// The length of the words.
    pub closed spec fn spec_word_len(&self) -> usize {
        self.word_len
    }

    /// The dialogue for words of `word_len` symbols.
    pub fn new(word_len: usize) -> (r: InputGetter)
        ensures
            r.spec_word_len() == word_len,
    {
        InputGetter { word_len }
    }

    /// The length of the words.
    pub fn word_len(&self) -> (n: usize)
        ensures
            n == self.spec_word_len(),
    {
        self.word_len
    }

    /// Whether `s` has the length of a word.
    pub fn accepts_word(&self, s: &str) -> (r: bool)
        ensures
            r == (s@.len() == self.spec_word_len()),
    {
        char_count(s) == self.word_len
    }

    /// Judges a line that should hold a response: a symbol for each place
    /// of a word, `0` for a symbol that is not present, `1` for a partial
    /// match and `2` for a full match.
    pub fn check_response(&self, s: &str) -> (r: ResponseCheck)
        ensures
            match r {
                ResponseCheck::WrongLength => s@.len() != self.spec_word_len(),
                ResponseCheck::ForbiddenSymbol => s@.len() == self.spec_word_len()
                    && !is_response_text(s@),
                ResponseCheck::Accepted(v) => s@.len() == self.spec_word_len() && is_response_text(
                    s@,
                ) && v@ == tags_of_text(s@),
            },
    {
        let chars = chars_of(s);
        if chars.len() != self.word_len {
            return ResponseCheck::WrongLength;
        }
        let mut v: Vec<CharResult> = Vec::new();
        let mut i: usize = 0;
        while i < chars.len()
            invariant
                i <= chars.len(),
                chars@ == s@,
                chars.len() == self.word_len,
                v@ =~= tags_of_text(s@.take(i as int)),
                is_response_text(s@.take(i as int)),
            decreases chars.len() - i,
        {
            let c = chars[i];
            let tag = if c == '0' {
                CharResult::NotPresented
            } else if c == '1' {
                CharResult::PartialMatch
            } else if c == '2' {
                CharResult::FullMatch
            } else {
                proof {
                    if is_response_text(s@) {
                        assert(tag_of_symbol(s@[i as int]) is Some);
                    }
                }
                return ResponseCheck::ForbiddenSymbol;
            };
            v.push(tag);
            proof {
                let longer = s@.take(i + 1);
                assert forall|k: int| 0 <= k < longer.len() implies (#[trigger] tag_of_symbol(
                    longer[k],
                )) is Some by {
                    if k < i {
                        assert(longer[k] == s@.take(i as int)[k]);
                    }
                }
                assert(v@ =~= tags_of_text(longer));
            }
            i += 1;
        }
        proof {
            assert(s@.take(s@.len() as int) =~= s@);
        }
        ResponseCheck::Accepted(v)
    }

    /// The attempt in the colours of its response: green for a full match,
    /// yellow for a partial match, gray for a symbol that is not present.
    pub fn color_attempt(attempt_word: &str, response: &[CharResult]) -> (r: ColoredString)
        requires
            attempt_word@.len() == response@.len(),
        ensures
            r.text() == attempt_word@,
            r.colors() == Seq::new(response@.len(), |i: int| color_of_tag(response@[i])),
    {
        let mut colored_string = ColoredString::new(attempt_word.to_owned());
        let mut i: usize = 0;
        while i < response.len()
            invariant
                i <= response.len(),
                colored_string.text() == attempt_word@,
                colored_string.colors().len() == response@.len(),
                forall|k: int|
                    0 <= k < i ==> colored_string.colors()[k] == color_of_tag(response@[k]),
            decreases response.len() - i,
        {
            match response[i] {
                CharResult::FullMatch => colored_string.set_color(i, Color::Green),
                CharResult::PartialMatch => colored_string.set_color(i, Color::Yellow),
                CharResult::NotPresented => colored_string.set_color(i, Color::Gray),
            }
            i += 1;
        }
        proof {
            assert(colored_string.colors() =~= Seq::new(
                response@.len(),
                |i: int| color_of_tag(response@[i]),
            ));
        }
        colored_string
    }
}

/// What a line that should hold a score holds.
#[derive(Debug, Clone, Copy, PartialEq, Eq, Structural)]
pub enum ScoreLine {
    /// One of the parts of the line is not a number from 0 to 255.
    Malformed,
    /// The line holds numbers, but not two of them.
    WrongCount,
    /// The two numbers of the line: bulls and cows.
    Score(u8, u8),
}

/// The parts of a text between its spaces. A text without a space is one
/// part; two spaces in a row have an empty part between them.
pub open spec fn parts_of(t: Seq<char>) -> Seq<Seq<char>>
    decreases t.len(),
{
    if t.len() == 0 {
        seq![Seq::<char>::empty()]
    } else if t.last() == ' ' {
        parts_of(t.drop_last()).push(Seq::<char>::empty())
    } else {
        let before = parts_of(t.drop_last());
        before.drop_last().push(before.last().push(t.last()))
    }
}

/// The number that decimal digits write.
pub open spec fn decimal_value(t: Seq<char>) -> nat
    decreases t.len(),
{
    if t.len() == 0 {
        0
    } else {
        decimal_value(t.drop_last()) * 10 + (t.last() as nat - 48) as nat
    }
}

/// `t` holds decimal digits, at least one.
pub open spec fn is_decimal(t: Seq<char>) -> bool {
    &&& t.len() > 0
    &&& forall|i: int| 0 <= i < t.len() ==> '0' <= #[trigger] t[i] <= '9'
}

/// The text without a plus sign at its start.
pub open spec fn unsigned_part(t: Seq<char>) -> Seq<char> {
    if t.len() > 0 && t[0] == '+' {
        t.drop_first()
    } else {
        t
    }
}

/// The number from 0 to 255 that a text writes: decimal digits, with or
/// without a plus sign before them.
pub open spec fn u8_of_text(t: Seq<char>) -> Option<u8> {
    let d = unsigned_part(t);
    if is_decimal(d) && decimal_value(d) <= u8::MAX {
        Some(decimal_value(d) as u8)
    } else {
        None
    }
}

/// The numbers that the parts of a line write, each part trimmed; `None`
/// for a part that writes none.
pub open spec fn numbers_of_line(line: Seq<char>) -> Seq<Option<u8>> {
    parts_of(line).map_values(|p: Seq<char>| u8_of_text(trim_of(p)))
}

/// What the line holds as a score.
pub open spec fn score_of_line(line: Seq<char>) -> ScoreLine {
    let numbers = numbers_of_line(line);
    if exists|i: int| 0 <= i < numbers.len() && (#[trigger] numbers[i]) is None {
        ScoreLine::Malformed
    } else if numbers.len() != 2 {
        ScoreLine::WrongCount
    } else {
        ScoreLine::Score(numbers[0]->0, numbers[1]->0)
    }
}

proof fn lemma_decimal_grows(t: Seq<char>, n: nat)
    requires
        n <= t.len(),
        forall|i: int| 0 <= i < t.len() ==> '0' <= #[trigger] t[i] <= '9',
    ensures
        decimal_value(t.take(n as int)) <= decimal_value(t),
    decreases t.len() - n,
{
    if n < t.len() {
        lemma_decimal_grows(t, n + 1);
        assert(t.take(n as int + 1).drop_last() =~= t.take(n as int));
    } else {
        assert(t.take(n as int) =~= t);
    }
}

/// The number from 0 to 255 that a text writes.
pub fn parse_u8(s: &str) -> (r: Option<u8>)
    ensures
        r == u8_of_text(s@),
{
    let chars = chars_of(s);
    let from: usize = if chars.len() > 0 && chars[0] == '+' { 1 } else { 0 };
    let ghost d = unsigned_part(s@);
    proof {
        assert(d =~= s@.skip(from as int));
    }
    if from == chars.len() {
        return None;
    }
    let mut value: u32 = 0;
    let mut i: usize = from;
    while i < chars.len()
        invariant
            from <= i <= chars.len(),
            chars@ == s@,
            d == unsigned_part(s@),
            d == s@.skip(from as int),
            d.len() > 0,
            value == decimal_value(d.take(i - from)),
            value <= u8::MAX,
            forall|k: int| 0 <= k < i - from ==> '0' <= #[trigger] d[k] <= '9',
        decreases chars.len() - i,
    {
        let c = chars[i];
        proof {
            assert(d[i - from] == c);
            assert(d.take(i - from + 1).drop_last() =~= d.take(i - from));
            assert(d.take(i - from + 1).last() == c);
        }
        if !('0' <= c && c <= '9') {
            proof {
                if is_decimal(d) {
                    assert('0' <= d[i - from] <= '9');
                }
            }
            return None;
        }
        value = value * 10 + (c as u32 - 48);
        proof {
            assert(value == decimal_value(d.take(i - from + 1)));
        }
        if value > 255 {
            proof {
                if is_decimal(d) {
                    lemma_decimal_grows(d, (i - from + 1) as nat);
                }
            }
            return None;
        }
        i += 1;
    }
    proof {
        assert(d.take(d.len() as int) =~= d);
    }
    Some(value as u8)
}

/// The score that a line holds: two numbers from 0 to 255 with one space
/// between them, each with or without white space around it.
pub fn parse_score(line: &str) -> (r: ScoreLine)
    ensures
        r == score_of_line(line@),
{
    let chars = chars_of(line);
    let ghost numbers = numbers_of_line(line@);
    let mut found: Vec<u8> = Vec::new();
    let mut start: usize = 0;
    let mut i: usize = 0;
    // the parts that are complete, and the part that is being read
    while i < chars.len()
        invariant
            start <= i <= chars.len(),
            chars@ == line@,
            numbers == numbers_of_line(line@),
            parts_of(line@.take(i as int)).len() == found.len() + 1,
            parts_of(line@.take(i as int)).last() == line@.subrange(start as int, i as int),
            forall|k: int|
                0 <= k < found.len() ==> u8_of_text(
                    trim_of(#[trigger] parts_of(line@.take(i as int))[k]),
                ) == Some(found@[k]),
        decreases chars.len() - i,
    {
        let ghost before = parts_of(line@.take(i as int));
        proof {
            assert(line@.take(i + 1).drop_last() =~= line@.take(i as int));
            assert(line@.take(i + 1).last() == chars@[i as int]);
        }
        if chars[i] == ' ' {
            let part = string_of(&chars, start, i);
            let number = parse_u8(trim(part.as_str()).as_str());
            match number {
                Some(v) => {
                    found.push(v);
                },
                None => {
                    proof {
                        let after = parts_of(line@.take(i + 1));
                        let k = found.len() as int;
                        assert(after == before.push(Seq::<char>::empty()));
                        assert(after[k] == before.last());
                        lemma_parts_prefix(line@, (i + 1) as nat, k);
                        assert(parts_of(line@)[k] == part@);
                        assert(numbers[k] == u8_of_text(trim_of(parts_of(line@)[k])));
                    }
                    return ScoreLine::Malformed;
                },
            }
            start = i + 1;
            proof {
                let after = parts_of(line@.take(i + 1));
                assert(after == before.push(Seq::<char>::empty()));
                assert(line@.subrange(start as int, i + 1) =~= Seq::<char>::empty());
                assert forall|k: int| 0 <= k < found.len() implies u8_of_text(
                    trim_of(#[trigger] after[k]),
                ) == Some(found@[k]) by {
                    assert(after[k] == before[k]);
                }
            }
        } else {
            proof {
                let after = parts_of(line@.take(i + 1));
                assert(after == before.drop_last().push(before.last().push(chars@[i as int])));
                assert(line@.subrange(start as int, i + 1) =~= before.last().push(
                    chars@[i as int],
                ));
                assert forall|k: int| 0 <= k < found.len() implies u8_of_text(
                    trim_of(#[trigger] after[k]),
                ) == Some(found@[k]) by {
                    assert(after[k] == before[k]);
                }
            }
        }
        i += 1;
    }
    proof {
        assert(line@.take(line@.len() as int) =~= line@);
    }
    let part = string_of(&chars, start, chars.len());
    let number = parse_u8(trim(part.as_str()).as_str());
    match number {
        Some(v) => {
            found.push(v);
        },
        None => {
            proof {
                let k = found.len() as int;
                assert(parts_of(line@)[k] == part@);
                assert(numbers[k] == u8_of_text(trim_of(parts_of(line@)[k])));
            }
            return ScoreLine::Malformed;
        },
    }
    proof {
        assert forall|k: int| 0 <= k < numbers.len() implies (#[trigger] numbers[k]) == Some(
            found@[k],
        ) by {
            assert(numbers[k] == u8_of_text(trim_of(parts_of(line@)[k])));
            if k == found.len() - 1 {
                assert(parts_of(line@)[k] == part@);
            }
        }
    }
    if found.len() != 2 {
        return ScoreLine::WrongCount;
    }
    ScoreLine::Score(found[0], found[1])
}

/// The parts of a text that are complete before place `n` are parts of
/// the whole text.
proof fn lemma_parts_prefix(t: Seq<char>, n: nat, k: int)
    requires
        n <= t.len(),
        0 <= k < parts_of(t.take(n as int)).len() - 1,
    ensures
        k < parts_of(t).len(),
        parts_of(t)[k] == parts_of(t.take(n as int))[k],
    decreases t.len() - n,
{
    if n < t.len() {
        let shorter = parts_of(t.take(n as int));
        let longer = parts_of(t.take(n as int + 1));
        assert(t.take(n as int + 1).drop_last() =~= t.take(n as int));
        assert(longer.len() >= shorter.len());
        assert(longer[k] == shorter[k]);
        lemma_parts_prefix(t, n + 1, k);
    } else {
        assert(t.take(n as int) =~= t);
    }
}

} // verus!

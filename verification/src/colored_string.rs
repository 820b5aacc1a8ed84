//! A text with a colour for each of its symbols, and its writing for a
//! terminal.

use vstd::prelude::*;
use vstd::string::StringExecFns;
use crate::oracle::chars_of;
use crate::text::string_of;

verus! {

/// The colours that a symbol can have.
#[derive(Debug, Clone, Copy, PartialEq, Eq, Structural)]
pub enum Color {
    Default,
    Gray,
    Yellow,
    Green,
}

/// A stretch of symbols of one colour: the colour, the first place, and the
/// place behind the last.
pub struct ColorRun {
    /// The colour of the stretch.
    pub color: Color,
    /// The first place of the stretch.
    pub start: usize,
    /// The place behind the last place of the stretch.
    pub end: usize,
}

/// Every symbol of the stretch `run` has the colour of the stretch.
pub open spec fn has_one_color(colors: Seq<Color>, run: ColorRun) -> bool {
    forall|i: int| run.start <= i < run.end && i < colors.len() ==> #[trigger] colors[i] == run.color
}

/// `runs` cuts the colours into their stretches: each stretch holds one
/// colour, the stretches follow each other from the first place to the last,
/// none is empty, and neighbours differ in colour.
pub open spec fn is_run_partition(colors: Seq<Color>, runs: Seq<ColorRun>) -> bool {
    &&& (runs.len() == 0 <==> colors.len() == 0)
    &&& runs.len() > 0 ==> runs[0].start == 0 && runs.last().end == colors.len()
    &&& forall|k: int| 0 <= k < runs.len() ==> (#[trigger] runs[k]).start < runs[k].end
    &&& forall|k: int, m: int|
        0 <= k && m == k + 1 && m < runs.len() ==> (#[trigger] runs[k]).end == (
        #[trigger] runs[m]).start && runs[k].color != runs[m].color
    &&& forall|k: int| 0 <= k < runs.len() ==> has_one_color(colors, #[trigger] runs[k])
}

/// Every symbol has the default colour.
pub open spec fn all_default(colors: Seq<Color>) -> bool {
    forall|i: int| 0 <= i < colors.len() ==> colors[i] == Color::Default
}

/// `Colorize::normal` of the crate colored, written out by the `Display` of
/// its result. A text without colour or style is written as it is, whatever
/// the process is told about colours: the contract claims that.
#[verifier::external_body]
fn paint_normal(part: &str) -> (r: String)
    ensures
        r@ == part@,
{
    format!("{}", colored::Colorize::normal(part))
}

/// `Colorize::white` of the crate colored, written out by the `Display` of
/// its result. Whether escape sequences surround the text depends on the
/// environment of the process: the contract claims nothing.
#[verifier::external_body]
fn paint_white(part: &str) -> (r: String) {
    format!("{}", colored::Colorize::white(part))
}

/// `Colorize::green` of the crate colored, written out by the `Display` of
/// its result. Whether escape sequences surround the text depends on the
/// environment of the process: the contract claims nothing.
#[verifier::external_body]
fn paint_green(part: &str) -> (r: String) {
    format!("{}", colored::Colorize::green(part))
}

/// `Colorize::yellow` of the crate colored, written out by the `Display` of
/// its result. Whether escape sequences surround the text depends on the
/// environment of the process: the contract claims nothing.
#[verifier::external_body]
fn paint_yellow(part: &str) -> (r: String) {
    format!("{}", colored::Colorize::yellow(part))
}

/// A text with a colour for each of its symbols.
pub struct ColoredString {
    string: Vec<char>,
    colors: Vec<Color>,
}

impl ColoredString {
    #[verifier::type_invariant]
    spec fn one_color_each(self) -> bool {
        self.colors.len() == self.string.len()
    }

    /// The text.
    pub closed spec fn text(&self) -> Seq<char> {
        self.string@
    }

    /// The colours, one for each symbol of the text.
    pub closed spec fn colors(&self) -> Seq<Color> {
        self.colors@
    }

    /// The text `string`, every symbol in the default colour.
    pub fn new(string: String) -> (r: ColoredString)
        ensures
            r.text() == string@,
            r.colors().len() == string@.len(),
            all_default(r.colors()),
    {
        let chars = chars_of(string.as_str());
        let mut colors: Vec<Color> = Vec::new();
        let mut i: usize = 0;
        while i < chars.len()
            invariant
                i <= chars.len(),
                colors.len() == i,
                forall|k: int| 0 <= k < i ==> colors@[k] == Color::Default,
            decreases chars.len() - i,
        {
            colors.push(Color::Default);
            i += 1;
        }
        ColoredString { string: chars, colors }
    }

    /// The number of symbols, each of which has a colour.
    pub fn len(&self) -> (n: usize)
        ensures
            n == self.text().len(),
            n == self.colors().len(),
    {
        proof {
            use_type_invariant(self);
        }
        self.string.len()
    }

    /// Gives the symbol at place `idx` the colour `color`.
    pub fn set_color(&mut self, idx: usize, color: Color)
        requires
            idx < old(self).colors().len(),
        ensures
            final(self).text() == old(self).text(),
            final(self).colors() == old(self).colors().update(idx as int, color),
    {
        proof {
            use_type_invariant(&*self);
        }
        let mut colors: Vec<Color> = Vec::new();
        let mut i: usize = 0;
        while i < self.colors.len()
            invariant
                i <= self.colors.len(),
                idx < self.colors.len(),
                colors@ =~= self.colors@.update(idx as int, color).take(i as int),
            decreases self.colors.len() - i,
        {
            if i == idx {
                colors.push(color);
            } else {
                colors.push(self.colors[i]);
            }
            i += 1;
        }
        proof {
            assert(colors@ =~= self.colors@.update(idx as int, color));
        }
        self.colors = colors;
    }

    /// The stretches of one colour, from the first place to the last.
    pub fn color_ranges(&self) -> (r: Vec<ColorRun>)
        ensures
            is_run_partition(self.colors(), r@),
    {
        let n = self.colors.len();
        let mut v: Vec<ColorRun> = Vec::new();
        if n == 0 {
            return v;
        }
        let mut start: usize = 0;
        let mut idx: usize = 1;
        while idx < n
            invariant
                1 <= idx <= n,
                n == self.colors.len(),
                start < idx,
                forall|i: int| start <= i < idx ==> self.colors@[i] == self.colors@[start as int],
                v.len() == 0 ==> start == 0,
                v.len() > 0 ==> v@[0].start == 0 && v@[v.len() - 1].end == start && v@[v.len()
                    - 1].color != self.colors@[start as int],
                forall|k: int| 0 <= k < v.len() ==> (#[trigger] v@[k]).start < v@[k].end,
                forall|k: int| 0 <= k < v.len() ==> (#[trigger] v@[k]).end <= start,
                forall|k: int, m: int|
                    0 <= k && m == k + 1 && m < v.len() ==> (#[trigger] v@[k]).end == (
                    #[trigger] v@[m]).start && v@[k].color != v@[m].color,
                forall|k: int| 0 <= k < v.len() ==> has_one_color(self.colors@, #[trigger] v@[k]),
            decreases n - idx,
        {
            if self.colors[idx] != self.colors[start] {
                let ghost before = v@;
                let run = ColorRun { color: self.colors[start], start, end: idx };
                assert(has_one_color(self.colors@, run));
                v.push(run);
                proof {
                    assert forall|k: int| 0 <= k < v.len() implies has_one_color(
                        self.colors@,
                        #[trigger] v@[k],
                    ) by {
                        if k < before.len() {
                            assert(v@[k] == before[k]);
                        }
                    }
                }
                start = idx;
            }
            idx += 1;
        }
        let ghost before = v@;
        let run = ColorRun { color: self.colors[start], start, end: n };
        assert(has_one_color(self.colors@, run));
        v.push(run);
        proof {
            assert forall|k: int| 0 <= k < v.len() implies has_one_color(
                self.colors@,
                #[trigger] v@[k],
            ) by {
                if k < before.len() {
                    assert(v@[k] == before[k]);
                }
            }
        }
        v
    }

    /// The text without its colours.
    pub fn plain(&self) -> (r: String)
        ensures
            r@ == self.text(),
    {
        let r = string_of(&self.string, 0, self.string.len());
        assert(self.string@.subrange(0, self.string@.len() as int) =~= self.string@);
        r
    }

    /// The text as a terminal is to show it: each stretch of one colour
    /// painted in its colour, gray as white, and the stretches one after
    /// another. A stretch in the default colour is written as it is; how the
    /// other colours are written depends on what the process is told about
    /// colours.
    pub fn render(&self) -> (r: String)
        ensures
            is_rendering(self.text(), self.colors(), r@),
            all_default(self.colors()) ==> r@ == self.text(),
    {
        proof {
            use_type_invariant(self);
        }
        let runs = self.color_ranges();
        let mut out = String::new();
        let mut k: usize = 0;
        let ghost mut parts: Seq<Seq<char>> = Seq::empty();
        while k < runs.len()
            invariant
                k <= runs.len(),
                self.colors.len() == self.string.len(),
                is_run_partition(self.colors@, runs@),
                parts.len() == k,
                out@ == concat_all(parts),
                forall|j: int|
                    0 <= j < k && (#[trigger] runs@[j]).color == Color::Default ==> parts[j]
                        == self.string@.subrange(runs@[j].start as int, runs@[j].end as int),
            decreases runs.len() - k,
        {
            let start = runs[k].start;
            let end = runs[k].end;
            proof {
                lemma_run_bounds(self.colors@, runs@, k as int);
            }
            let part = string_of(&self.string, start, end);
            let painted = match runs[k].color {
                Color::Default => paint_normal(part.as_str()),
                Color::Gray => paint_white(part.as_str()),
                Color::Green => paint_green(part.as_str()),
                Color::Yellow => paint_yellow(part.as_str()),
            };
            out.append(painted.as_str());
            proof {
                let longer = parts.push(painted@);
                assert(longer.drop_last() =~= parts);
                parts = longer;
            }
            k += 1;
        }
        proof {
            assert(is_painting(self.string@, runs@, parts));
            if all_default(self.colors@) {
                lemma_plain_rendering(self.string@, self.colors@, out@);
            }
        }
        out
    }
}

/// The texts of `parts` one after another.
pub open spec fn concat_all(parts: Seq<Seq<char>>) -> Seq<char>
    decreases parts.len(),
{
    if parts.len() == 0 {
        Seq::empty()
    } else {
        concat_all(parts.drop_last()) + parts.last()
    }
}

/// `parts` holds one text for each stretch of `runs`; for a stretch in the
/// default colour it is the stretch of `text` itself.
pub open spec fn is_painting(text: Seq<char>, runs: Seq<ColorRun>, parts: Seq<Seq<char>>) -> bool {
    &&& parts.len() == runs.len()
    &&& forall|k: int|
        0 <= k < runs.len() && (#[trigger] runs[k]).color == Color::Default ==> parts[k]
            == text.subrange(runs[k].start as int, runs[k].end as int)
}

/// `out` writes `text` in the colours `colors`: its stretches of one
/// colour, each painted, one after another.
pub open spec fn is_rendering(text: Seq<char>, colors: Seq<Color>, out: Seq<char>) -> bool {
    exists|runs: Seq<ColorRun>, parts: Seq<Seq<char>>|
        is_run_partition(colors, runs) && #[trigger] is_painting(text, runs, parts) && out
            == concat_all(parts)
}

/// A text in the default colour throughout is written as it is.
pub proof fn lemma_plain_rendering(text: Seq<char>, colors: Seq<Color>, out: Seq<char>)
    requires
        colors.len() == text.len(),
        all_default(colors),
        is_rendering(text, colors, out),
    ensures
        out == text,
{
    let (runs, parts) = choose|runs: Seq<ColorRun>, parts: Seq<Seq<char>>|
        is_run_partition(colors, runs) && #[trigger] is_painting(text, runs, parts) && out
            == concat_all(parts);
    if runs.len() == 0 {
        assert(text =~= Seq::<char>::empty());
    } else {
        lemma_run_bounds(colors, runs, 0);
        assert(has_one_color(colors, runs[0]));
        assert(runs[0].color == colors[runs[0].start as int]);
        if runs.len() > 1 {
            lemma_run_bounds(colors, runs, 1);
            assert(runs[0].color != runs[1].color);
            assert(has_one_color(colors, runs[1]));
            assert(runs[1].color == colors[runs[1].start as int]);
        }
        assert(runs.len() == 1);
        assert(parts.drop_last() =~= Seq::<Seq<char>>::empty());
        assert(concat_all(parts.drop_last()) =~= Seq::<char>::empty());
        assert(text.subrange(0, text.len() as int) =~= text);
        assert(out =~= text);
    }
}

/// The stretches of a partition lie within the colours that it cuts.
proof fn lemma_run_bounds(colors: Seq<Color>, runs: Seq<ColorRun>, k: int)
    requires
        is_run_partition(colors, runs),
        0 <= k < runs.len(),
    ensures
        runs[k].start < runs[k].end <= colors.len(),
    decreases runs.len() - k,
{
    if k < runs.len() - 1 {
        lemma_run_bounds(colors, runs, k + 1);
        let m = k + 1;
        assert(runs[k].end == runs[m].start);
    }
}

} // verus!

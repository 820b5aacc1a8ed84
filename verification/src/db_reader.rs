//! The word database as it is held in memory: the words of one length that
//! a file holds, and the words that were added since.

use vstd::prelude::*;
use vstd::string::StringSliceAdditionalSpecFns;
use crate::comb_utils::{
    lemma_lex_asymmetric_any, lemma_lex_total_any, lemma_lex_transitive_any, lex_less,
};
use crate::oracle::codes_of_text;
use crate::text::{
    char_count, lowercase_of, same_text, text_less, text_precedes, to_lowercase, trim, trim_of,
};
use crate::words_chooser::{clone_words, texts};

verus! {

/// The length of a text in the bytes of its UTF-8 encoding, as `str::len`
/// reports it.
pub open spec fn byte_len(t: Seq<char>) -> usize {
    vstd::utf8::encode_utf8(t).len() as usize
}

/// `a` comes before `b` in the order of the database: in the order of
/// texts, and in the file the shorter text first.
pub open spec fn word_less(a: Seq<char>, b: Seq<char>, by_length: bool) -> bool {
    if by_length && byte_len(a) != byte_len(b) {
        byte_len(a) < byte_len(b)
    } else {
        text_less(a, b)
    }
}

/// `s` rises strictly in the order of the database.
pub open spec fn strictly_sorted(s: Seq<Seq<char>>, by_length: bool) -> bool {
    forall|i: int, j: int| 0 <= i < j < s.len() ==> word_less(s[i], s[j], by_length)
}

/// `r` holds the words of `s` in the order of the database, each once.
pub open spec fn is_sorted_set_of(r: Seq<Seq<char>>, s: Seq<Seq<char>>, by_length: bool) -> bool {
    &&& strictly_sorted(r, by_length)
    &&& forall|t: Seq<char>| r.contains(t) <==> s.contains(t)
}

/// The lines that hold a word of `word_len` symbols, trimmed.
pub open spec fn words_of_lines(lines: Seq<Seq<char>>, word_len: nat) -> Seq<Seq<char>> {
    lines.map_values(|l: Seq<char>| trim_of(l)).filter(|w: Seq<char>| w.len() == word_len)
}

/// The lines, trimmed.
pub open spec fn trimmed_lines(lines: Seq<Seq<char>>) -> Seq<Seq<char>> {
    lines.map_values(|l: Seq<char>| trim_of(l))
}

proof fn lemma_codes_injective(a: Seq<char>, b: Seq<char>)
    requires
        codes_of_text(a) == codes_of_text(b),
    ensures
        a == b,
{
    assert(a.len() == codes_of_text(a).len());
    assert(b.len() == codes_of_text(b).len());
    assert forall|i: int| 0 <= i < a.len() implies a[i] == b[i] by {
        assert(codes_of_text(a)[i] == a[i] as int);
        assert(codes_of_text(b)[i] == b[i] as int);
    }
    assert(a =~= b);
}

/// The order of the database is a strict total order.
pub proof fn lemma_word_order(a: Seq<char>, b: Seq<char>, c: Seq<char>, by_length: bool)
    ensures
        !word_less(a, a, by_length),
        a == b || word_less(a, b, by_length) || word_less(b, a, by_length),
        !(word_less(a, b, by_length) && word_less(b, a, by_length)),
        word_less(a, b, by_length) && word_less(b, c, by_length) ==> word_less(a, c, by_length),
{
    let x = codes_of_text(a);
    let y = codes_of_text(b);
    let z = codes_of_text(c);
    lemma_lex_total_any(x, y);
    if x == y {
        lemma_codes_injective(a, b);
    }
    if lex_less(x, x) {
        lemma_lex_asymmetric_any(x, x);
    }
    if lex_less(x, y) {
        lemma_lex_asymmetric_any(x, y);
    }
    if lex_less(x, y) && lex_less(y, z) {
        lemma_lex_transitive_any(x, y, z);
    }
}

/// Whether `a` comes before `b` in the order of the database.
fn word_precedes(a: &String, b: &String, by_length: bool) -> (r: bool)
    ensures
        r == word_less(a@, b@, by_length),
{
    if by_length {
        let la = a.as_str().len();
        let lb = b.as_str().len();
        proof {
            assert(la == byte_len(a@));
            assert(lb == byte_len(b@));
        }
        if la != lb {
            return la < lb;
        }
    }
    text_precedes(a.as_str(), b.as_str())
}

/// The words in the order of the database; equal words stay together.
fn sort_words(words: Vec<String>, by_length: bool) -> (r: Vec<String>)
    ensures
        forall|i: int, j: int|
            0 <= i < j < r.len() ==> !word_less(#[trigger] r@[j]@, #[trigger] r@[i]@, by_length),
        forall|t: Seq<char>| texts(r@).contains(t) <==> texts(words@).contains(t),
{
    let mut res: Vec<String> = Vec::new();
    let mut i: usize = 0;
    while i < words.len()
        invariant
            i <= words.len(),
            forall|x: int, y: int|
                0 <= x < y < res.len() ==> !word_less(
                    #[trigger] res@[y]@,
                    #[trigger] res@[x]@,
                    by_length,
                ),
            forall|t: Seq<char>|
                texts(res@).contains(t) <==> texts(words@).take(i as int).contains(t),
        decreases words.len() - i,
    {
        let x = words[i].clone();
        let ghost before = res@;
        let mut j: usize = res.len();
        while j > 0 && word_precedes(&x, &res[j - 1], by_length)
            invariant
                j <= res.len(),
                res@ == before,
                forall|k: int| j <= k < res.len() ==> word_less(x@, #[trigger] res@[k]@, by_length),
            decreases j,
        {
            j -= 1;
        }
        res.insert(j, x);
        proof {
            let after = res@;
            let xt = after[j as int]@;
            assert(after =~= before.insert(j as int, after[j as int]));
            assert forall|p: int, q: int| 0 <= p < q < after.len() implies !word_less(
                #[trigger] after[q]@,
                #[trigger] after[p]@,
                by_length,
            ) by {
                let a = after[p]@;
                let b = after[q]@;
                if q < j {
                    assert(after[p] == before[p] && after[q] == before[q]);
                } else if q == j {
                    // after[p] stood before the place of x
                    assert(after[p] == before[p]);
                    if j > 0 {
                        let last = before[j - 1]@;
                        assert(!word_less(xt, last, by_length));
                        if p < j - 1 {
                            assert(!word_less(last, a, by_length));
                        }
                        lemma_word_order(xt, a, last, by_length);
                        lemma_word_order(a, last, xt, by_length);
                        lemma_word_order(xt, last, a, by_length);
                    }
                } else if p == j {
                    assert(after[q] == before[q - 1]);
                    assert(word_less(xt, before[q - 1]@, by_length));
                    lemma_word_order(xt, b, xt, by_length);
                } else if p < j {
                    assert(after[p] == before[p] && after[q] == before[q - 1]);
                } else {
                    assert(after[p] == before[p - 1] && after[q] == before[q - 1]);
                }
            }
            let tw = texts(words@);
            let shorter = tw.take(i as int);
            let longer = tw.take(i + 1);
            assert(longer =~= shorter.push(tw[i as int]));
            assert forall|t: Seq<char>| texts(after).contains(t) <==> longer.contains(t) by {
                if texts(after).contains(t) {
                    let k = choose|k: int| 0 <= k < after.len() && texts(after)[k] == t;
                    if k < j {
                        assert(texts(before)[k] == t);
                        assert(texts(before).contains(t));
                    } else if k > j {
                        assert(texts(before)[k - 1] == t);
                        assert(texts(before).contains(t));
                    } else {
                        assert(longer[i as int] == t);
                    }
                    if texts(before).contains(t) {
                        let m = choose|m: int| 0 <= m < shorter.len() && shorter[m] == t;
                        assert(longer[m] == t);
                    }
                }
                if longer.contains(t) {
                    let m = choose|m: int| 0 <= m < longer.len() && longer[m] == t;
                    if m < i {
                        assert(shorter[m] == t);
                        assert(texts(before).contains(t));
                        let k = choose|k: int| 0 <= k < before.len() && texts(before)[k] == t;
                        if k < j {
                            assert(texts(after)[k] == t);
                        } else {
                            assert(texts(after)[k + 1] == t);
                        }
                    } else {
                        assert(texts(after)[j as int] == t);
                    }
                }
            }
        }
        i += 1;
    }
    proof {
        assert(texts(words@).take(words@.len() as int) =~= texts(words@));
    }
    res
}

/// The words in the order of the database, each once.
pub fn sorted_unique(words: Vec<String>, by_length: bool) -> (r: Vec<String>)
    ensures
        is_sorted_set_of(texts(r@), texts(words@), by_length),
{
    let sorted = sort_words(words, by_length);
    let mut out: Vec<String> = Vec::new();
    let mut i: usize = 0;
    let ghost st = texts(sorted@);
    while i < sorted.len()
        invariant
            i <= sorted.len(),
            st == texts(sorted@),
            forall|x: int, y: int|
                0 <= x < y < sorted.len() ==> !word_less(
                    #[trigger] sorted@[y]@,
                    #[trigger] sorted@[x]@,
                    by_length,
                ),
            strictly_sorted(texts(out@), by_length),
            forall|t: Seq<char>| texts(out@).contains(t) <==> st.take(i as int).contains(t),
            i > 0 ==> out.len() > 0 && out@[out.len() - 1]@ == st[i - 1],
        decreases sorted.len() - i,
    {
        let ghost before = texts(out@);
        let fresh = if out.len() == 0 {
            true
        } else {
            !same_text(out[out.len() - 1].as_str(), sorted[i].as_str())
        };
        if fresh {
            out.push(sorted[i].clone());
        }
        proof {
            let after = texts(out@);
            let w = st[i as int];
            let shorter = st.take(i as int);
            let longer = st.take(i + 1);
            assert(longer =~= shorter.push(w));
            if fresh {
                assert(after =~= before.push(w));
                assert forall|x: int, y: int| 0 <= x < y < after.len() implies word_less(
                    after[x],
                    after[y],
                    by_length,
                ) by {
                    if y < before.len() {
                        assert(after[x] == before[x] && after[y] == before[y]);
                    } else {
                        // after[x] is a word of the sorted prefix, so not after w
                        assert(before.contains(before[x]));
                        let m = choose|m: int| 0 <= m < shorter.len() && shorter[m] == before[x];
                        assert(!word_less(sorted@[i as int]@, sorted@[m]@, by_length));
                        assert(st[m] == sorted@[m]@);
                        let last = st[i - 1];
                        assert(!word_less(sorted@[i as int]@, sorted@[i - 1]@, by_length));
                        if x < before.len() - 1 {
                            assert(word_less(before[x], before[before.len() - 1], by_length));
                        }
                        lemma_word_order(before[x], last, w, by_length);
                        lemma_word_order(last, w, before[x], by_length);
                        lemma_word_order(w, last, before[x], by_length);
                    }
                }
            }
            assert forall|t: Seq<char>| after.contains(t) <==> longer.contains(t) by {
                if after.contains(t) {
                    let k = choose|k: int| 0 <= k < after.len() && after[k] == t;
                    if k < before.len() {
                        assert(before[k] == t);
                        assert(before.contains(t));
                        let m = choose|m: int| 0 <= m < shorter.len() && shorter[m] == t;
                        assert(longer[m] == t);
                    } else {
                        assert(longer[i as int] == t);
                    }
                }
                if longer.contains(t) {
                    let m = choose|m: int| 0 <= m < longer.len() && longer[m] == t;
                    if m < i {
                        assert(shorter[m] == t);
                        assert(before.contains(t));
                        let k = choose|k: int| 0 <= k < before.len() && before[k] == t;
                        assert(after[k] == t);
                    } else if fresh {
                        assert(after[after.len() - 1] == t);
                    } else {
                        assert(after[after.len() - 1] == t);
                    }
                }
            }
        }
        i += 1;
    }
    proof {
        assert(st.take(sorted@.len() as int) =~= st);
    }
    out
}

/// The word database in memory.
pub struct WordsDb {
    words: Vec<String>,
    new_words: Vec<String>,
    word_current_len: usize,
    need_flush: bool,
}

impl WordsDb {
    /// The words that were read or synchronised.
    pub closed spec fn words(&self) -> Seq<Seq<char>> {
        texts(self.words@)
    }

    /// The words that were added since.
    pub closed spec fn new_words(&self) -> Seq<Seq<char>> {
        texts(self.new_words@)
    }

    /// The length of the words of this database.
    pub closed spec fn word_len(&self) -> nat {
        self.word_current_len as nat
    }

    /// Whether words were added that the file does not hold yet.
    pub closed spec fn need_flush(&self) -> bool {
        self.need_flush
    }

    /// The database of a file that does not exist yet: no words.
    pub fn new(word_len: usize) -> (r: WordsDb)
        ensures
            r.words() == Seq::<Seq<char>>::empty(),
            r.new_words() == Seq::<Seq<char>>::empty(),
            r.word_len() == word_len,
            !r.need_flush(),
    {
        let r = WordsDb {
            words: Vec::new(),
            new_words: Vec::new(),
            word_current_len: word_len,
            need_flush: false,
        };
        assert(r.words() =~= Seq::<Seq<char>>::empty());
        assert(r.new_words() =~= Seq::<Seq<char>>::empty());
        r
    }

    /// The database of a file with the lines `lines`: the lines that hold a
    /// word of `word_len` symbols, trimmed, in their order.
    pub fn new_from_lines(lines: &Vec<String>, word_len: usize) -> (r: WordsDb)
        ensures
            r.words() == words_of_lines(texts(lines@), word_len as nat),
            r.new_words() == Seq::<Seq<char>>::empty(),
            r.word_len() == word_len,
            !r.need_flush(),
    {
        let mut words: Vec<String> = Vec::new();
        let mut i: usize = 0;
        let ghost ls = texts(lines@);
        let ghost keep = |w: Seq<char>| w.len() == word_len as nat;
        proof {
            reveal(Seq::filter);
            assert(trimmed_lines(ls).take(0).filter(keep) =~= Seq::<Seq<char>>::empty());
            assert(texts(words@) =~= Seq::<Seq<char>>::empty());
        }
        while i < lines.len()
            invariant
                i <= lines.len(),
                ls == texts(lines@),
                keep == (|w: Seq<char>| w.len() == word_len as nat),
                texts(words@) == trimmed_lines(ls).take(i as int).filter(keep),
            decreases lines.len() - i,
        {
            let line = trim(lines[i].as_str());
            let ghost before = texts(words@);
            proof {
                reveal(Seq::filter);
                let longer = trimmed_lines(ls).take(i + 1);
                assert(longer.drop_last() =~= trimmed_lines(ls).take(i as int));
                assert(longer.last() == trim_of(ls[i as int]));
                assert(ls[i as int] == lines@[i as int]@);
            }
            if char_count(line.as_str()) == word_len {
                words.push(line);
                proof {
                    assert(texts(words@) =~= before.push(trim_of(ls[i as int])));
                }
            }
            i += 1;
        }
        proof {
            assert(trimmed_lines(ls).take(lines@.len() as int) =~= trimmed_lines(ls));
        }
        let r = WordsDb { words, new_words: Vec::new(), word_current_len: word_len, need_flush: false };
        assert(r.new_words() =~= Seq::<Seq<char>>::empty());
        r
    }

    /// Adds a word: trimmed and in lower case it joins the new words.
    pub fn add_word(&mut self, word: &str)
        requires
            trim_of(word@).len() == old(self).word_len(),
        ensures
            final(self).words() == old(self).words(),
            final(self).new_words() == old(self).new_words().push(lowercase_of(trim_of(word@))),
            final(self).word_len() == old(self).word_len(),
            final(self).need_flush(),
    {
        let word = trim(word);
        let ghost before = texts(self.new_words@);
        let lower = to_lowercase(word.as_str());
        self.new_words.push(lower);
        self.need_flush = true;
        proof {
            assert(texts(self.new_words@) =~= before.push(lowercase_of(word@)));
        }
    }

    /// Adds a word if, trimmed, it has the length of the words of this
    /// database, and says whether it did: trimmed and in lower case the word
    /// joins the new words. A word of another length changes nothing.
    pub fn try_add_word(&mut self, word: &str) -> (added: bool)
        ensures
            added == (trim_of(word@).len() == old(self).word_len()),
            final(self).word_len() == old(self).word_len(),
            final(self).words() == old(self).words(),
            added ==> final(self).new_words() == old(self).new_words().push(
                lowercase_of(trim_of(word@)),
            ) && final(self).need_flush(),
            !added ==> final(self).new_words() == old(self).new_words() && final(self).need_flush()
                == old(self).need_flush(),
    {
        let trimmed = trim(word);
        if char_count(trimmed.as_str()) != self.word_current_len {
            return false;
        }
        self.add_word(word);
        true
    }

    /// All words: those that were read or synchronised, then the new ones.
    pub fn words_iter(&self) -> (r: Vec<&String>)
        ensures
            ref_texts(r@) == self.words() + self.new_words(),
    {
        let mut r: Vec<&String> = Vec::new();
        let mut i: usize = 0;
        while i < self.words.len()
            invariant
                i <= self.words.len(),
                ref_texts(r@) =~= self.words().take(i as int),
            decreases self.words.len() - i,
        {
            let ghost before = ref_texts(r@);
            r.push(&self.words[i]);
            proof {
                assert(ref_texts(r@) =~= before.push(self.words()[i as int]));
            }
            i += 1;
        }
        let mut k: usize = 0;
        proof {
            assert(self.words().take(self.words().len() as int) =~= self.words());
        }
        while k < self.new_words.len()
            invariant
                k <= self.new_words.len(),
                ref_texts(r@) =~= self.words() + self.new_words().take(k as int),
            decreases self.new_words.len() - k,
        {
            let ghost before = ref_texts(r@);
            r.push(&self.new_words[k]);
            proof {
                assert(ref_texts(r@) =~= before.push(self.new_words()[k as int]));
            }
            k += 1;
        }
        proof {
            assert(self.new_words().take(self.new_words().len() as int) =~= self.new_words());
        }
        r
    }

    /// Copies of all words: those that were read or synchronised, then the
    /// new ones.
    pub fn all_words(&self) -> (r: Vec<String>)
        ensures
            texts(r@) == self.words() + self.new_words(),
    {
        let mut r = clone_words(&self.words);
        let mut k: usize = 0;
        proof {
            assert(texts(r@) =~= self.words() + self.new_words().take(0));
        }
        while k < self.new_words.len()
            invariant
                k <= self.new_words.len(),
                texts(r@) =~= self.words() + self.new_words().take(k as int),
            decreases self.new_words.len() - k,
        {
            let ghost before = texts(r@);
            r.push(self.new_words[k].clone());
            proof {
                assert(texts(r@) =~= before.push(self.new_words()[k as int]));
            }
            k += 1;
        }
        proof {
            assert(self.new_words().take(self.new_words().len() as int) =~= self.new_words());
        }
        r
    }

    /// The words that were read or synchronised.
    pub fn known_words(&self) -> (r: &Vec<String>)
        ensures
            texts(r@) == self.words(),
    {
        &self.words
    }

    /// The words that were added since.
    pub fn added_words(&self) -> (r: &Vec<String>)
        ensures
            texts(r@) == self.new_words(),
    {
        &self.new_words
    }

    /// Whether words were added that the file does not hold yet.
    pub fn needs_flush(&self) -> (r: bool)
        ensures
            r == self.need_flush(),
    {
        self.need_flush
    }

    /// Takes the new words in: all words together, in the order of texts
    /// and each once. Without new words nothing changes.
    pub fn sync_new_words(&mut self)
        ensures
            final(self).word_len() == old(self).word_len(),
            final(self).need_flush() == old(self).need_flush(),
            final(self).new_words() == Seq::<Seq<char>>::empty(),
            old(self).new_words().len() == 0 ==> final(self).words() == old(self).words(),
            old(self).new_words().len() > 0 ==> is_sorted_set_of(
                final(self).words(),
                old(self).words() + old(self).new_words(),
                false,
            ),
    {
        if self.new_words.len() == 0 {
            assert(self.new_words() =~= Seq::<Seq<char>>::empty());
            return ;
        }
        let all = self.all_words();
        let sorted = sorted_unique(all, false);
        self.new_words = Vec::new();
        self.words = sorted;
        proof {
            assert(self.new_words() =~= Seq::<Seq<char>>::empty());
        }
    }

    /// What the file is to hold after a flush: all words of the database
    /// and the trimmed lines of the file as it is, shorter words first and
    /// words of one length in the order of texts, each once.
    pub fn merged_for_flush(&self, file_lines: &Vec<String>) -> (r: Vec<String>)
        ensures
            is_sorted_set_of(
                texts(r@),
                self.words() + self.new_words() + trimmed_lines(texts(file_lines@)),
                true,
            ),
    {
        let mut all = self.all_words();
        let ghost base = texts(all@);
        let ghost ls = texts(file_lines@);
        let mut i: usize = 0;
        proof {
            assert(texts(all@) =~= base + trimmed_lines(ls).take(0));
        }
        while i < file_lines.len()
            invariant
                i <= file_lines.len(),
                ls == texts(file_lines@),
                texts(all@) =~= base + trimmed_lines(ls).take(i as int),
            decreases file_lines.len() - i,
        {
            let ghost before = texts(all@);
            all.push(trim(file_lines[i].as_str()));
            proof {
                assert(ls[i as int] == file_lines@[i as int]@);
                assert(texts(all@) =~= before.push(trim_of(ls[i as int])));
                assert(trimmed_lines(ls).take(i + 1) =~= trimmed_lines(ls).take(i as int).push(
                    trim_of(ls[i as int]),
                ));
            }
            i += 1;
        }
        proof {
            assert(trimmed_lines(ls).take(file_lines@.len() as int) =~= trimmed_lines(ls));
        }
        sorted_unique(all, true)
    }

    /// Records that the file holds all words: the new words join the
    /// others.
    pub fn mark_flushed(&mut self)
        ensures
            final(self).word_len() == old(self).word_len(),
            final(self).words() == old(self).words() + old(self).new_words(),
            final(self).new_words() == Seq::<Seq<char>>::empty(),
            !final(self).need_flush(),
    {
        let all = self.all_words();
        self.words = all;
        self.new_words = Vec::new();
        self.need_flush = false;
        proof {
            assert(self.new_words() =~= Seq::<Seq<char>>::empty());
        }
    }
}

/// The texts of a sequence of borrowed words.
pub open spec fn ref_texts(v: Seq<&String>) -> Seq<Seq<char>> {
    Seq::new(v.len(), |i: int| v[i]@)
}

} // verus!

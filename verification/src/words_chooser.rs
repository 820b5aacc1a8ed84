//! The adaptive guesser of the word puzzle: it keeps the words that are
//! still possible and picks the attempt whose worst feedback leaves the
//! fewest of them.
//!
//! Where an attempt repeats a symbol, a hidden word may allow several
//! feedbacks for it. The guesser takes every one of them for possible, when
//! it weighs an attempt and when it takes a response alike: a word counts in
//! the bucket of each feedback that it allows, and it stays in the pool if it
//! allows the response.

use vstd::prelude::*;
use crate::universe::power;
use crate::counting::{count_below, lemma_count_below_bound};
use crate::selection::{lemma_scan_order_members, outside, scan_order};
pub use crate::word_feedback::CharResult;
use crate::word_feedback::{
    calc_all_answers, code_of, convert_res, holds_all_feedbacks, is_feedback, is_feedback_code,
    lemma_code_bound, lemma_code_injective, lemma_power3_values, MAX_WORD_LEN,
};

verus! {

/// Where a guesser stands in the exchange of guesses and responses.
#[derive(Debug, Clone, Copy, PartialEq, Eq, Structural)]
pub enum ChoiseState {
    /// A guess can be made.
    ReadyToMakeGuess,
    /// A guess was made and its response is awaited.
    WaitForRespond,
    /// No word is possible any more: the responses were inconsistent.
    NoMoreWords,
}

/// The texts of a sequence of words.
pub open spec fn texts(v: Seq<String>) -> Seq<Seq<char>> {
    Seq::new(v.len(), |i: int| v[i]@)
}

/// The texts of a sequence of borrowed words.
pub open spec fn slice_texts(v: Seq<&str>) -> Seq<Seq<char>> {
    Seq::new(v.len(), |i: int| v[i]@)
}

/// The hidden words that allow the response `respond` to the attempt
/// `attempt`.
pub open spec fn agrees_with(attempt: Seq<char>, respond: Seq<CharResult>) -> spec_fn(
    Seq<char>,
) -> bool {
    |h: Seq<char>| is_feedback(attempt, h, respond)
}

/// The places of the pool whose word allows the feedback `code` for the
/// attempt.
pub open spec fn in_bucket(attempt: Seq<char>, pool: Seq<Seq<char>>, code: u32) -> spec_fn(
    int,
) -> bool {
    |x: int| 0 <= x < pool.len() && is_feedback_code(attempt, pool[x], code)
}

/// How many words of the pool allow the feedback `code` for the attempt.
pub open spec fn bucket_size(attempt: Seq<char>, pool: Seq<Seq<char>>, code: u32) -> nat {
    count_below(in_bucket(attempt, pool, code), pool.len())
}

/// The largest bucket of the attempt among the feedback codes below
/// `codes`.
pub open spec fn worst_bucket_below(attempt: Seq<char>, pool: Seq<Seq<char>>, codes: nat) -> nat
    decreases codes,
{
    if codes == 0 {
        0
    } else {
        let rest = worst_bucket_below(attempt, pool, (codes - 1) as nat);
        let this = bucket_size(attempt, pool, (codes - 1) as u32);
        if this > rest {
            this
        } else {
            rest
        }
    }
}

/// The largest bucket of the attempt: how many words of the pool the worst
/// response to it leaves.
pub open spec fn worst_bucket(attempt: Seq<char>, pool: Seq<Seq<char>>) -> nat {
    worst_bucket_below(attempt, pool, power(3, attempt.len()))
}

/// Place `idx` of `order` holds the first of the attempts with the smallest
/// worst bucket.
pub open spec fn is_best_attempt(order: Seq<Seq<char>>, pool: Seq<Seq<char>>, idx: int) -> bool {
    &&& 0 <= idx < order.len()
    &&& forall|j: int|
        0 <= j < idx ==> worst_bucket(#[trigger] order[j], pool) > worst_bucket(order[idx], pool)
    &&& forall|j: int|
        idx < j < order.len() ==> worst_bucket(#[trigger] order[j], pool) >= worst_bucket(
            order[idx],
            pool,
        )
}

/// An attempt whose worst bucket is smaller than that of every other
/// attempt is the best attempt: where one attempt alone has the smallest worst
/// bucket, it is guessed.
pub proof fn lemma_only_best_is_guessed(
    order: Seq<Seq<char>>,
    pool: Seq<Seq<char>>,
    idx: int,
    k: int,
)
    requires
        is_best_attempt(order, pool, idx),
        0 <= k < order.len(),
        forall|j: int|
            0 <= j < order.len() && j != k ==> worst_bucket(#[trigger] order[j], pool)
                > worst_bucket(order[k], pool),
    ensures
        idx == k,
{
    if idx != k {
        assert(worst_bucket(order[idx], pool) > worst_bucket(order[k], pool));
    }
}

/// Every word has `len` symbols.
pub open spec fn all_of_len(words: Seq<Seq<char>>, len: nat) -> bool {
    forall|i: int| 0 <= i < words.len() ==> (#[trigger] words[i]).len() == len
}

/// After a response, a word stays in the pool exactly if it allows the
/// response: every word that stays allows it, and no word that allows it is
/// removed.
pub proof fn lemma_partition_sound(
    pool: Seq<Seq<char>>,
    attempt: Seq<char>,
    respond: Seq<CharResult>,
    word: Seq<char>,
)
    ensures
        pool.filter(agrees_with(attempt, respond)).contains(word) <==> pool.contains(word)
            && is_feedback(attempt, word, respond),
{
    let keep = agrees_with(attempt, respond);
    let kept = pool.filter(keep);
    if kept.contains(word) {
        let i = choose|i: int| 0 <= i < kept.len() && kept[i] == word;
        pool.lemma_filter_pred(keep, i);
        pool.lemma_filter_contains_rev(keep, word);
    }
    if pool.contains(word) && is_feedback(attempt, word, respond) {
        let i = choose|i: int| 0 <= i < pool.len() && pool[i] == word;
        assert(keep(pool[i]));
        pool.lemma_filter_contains(keep, i);
    }
}

/// The vocabulary and the pool of a guesser.
pub struct WordsContainer {
    vocabulary: Vec<String>,
    candidate_words: Vec<String>,
}

impl WordsContainer {
    /// The texts of the vocabulary.
    pub closed spec fn vocabulary(&self) -> Seq<Seq<char>> {
        texts(self.vocabulary@)
    }

    /// The texts of the pool.
    pub closed spec fn pool(&self) -> Seq<Seq<char>> {
        texts(self.candidate_words@)
    }

    /// A container whose pool is the whole vocabulary.
    pub fn new(all_words: Vec<String>) -> (r: Self)
        ensures
            r.vocabulary() == texts(all_words@),
            r.pool() == texts(all_words@),
    {
        let candidate_words = clone_words(&all_words);
        WordsContainer { vocabulary: all_words, candidate_words }
    }

    /// Whether the pool holds `word`.
    fn is_candidate(&self, word: &String) -> (r: bool)
        ensures
            r == self.pool().contains(word@),
    {
        let mut j: usize = 0;
        while j < self.candidate_words.len()
            invariant
                j <= self.candidate_words.len(),
                forall|k: int| 0 <= k < j ==> self.pool()[k] != word@,
            decreases self.candidate_words.len() - j,
        {
            if self.candidate_words[j] == *word {
                assert(self.pool()[j as int] == word@);
                return true;
            }
            j += 1;
        }
        false
    }

    /// The attempts to weigh, in the order in which they are weighed.
    pub fn construct_list_of_words(&self) -> (r: Vec<&str>)
        ensures
            slice_texts(r@) == scan_order(self.pool(), self.vocabulary()),
    {
        let mut res: Vec<&str> = Vec::new();
        if self.candidate_words.len() == 0 {
            assert(slice_texts(res@) =~= Seq::<Seq<char>>::empty());
            return res;
        }
        let mut i: usize = 0;
        while i < self.candidate_words.len()
            invariant
                i <= self.candidate_words.len(),
                slice_texts(res@) =~= self.pool().take(i as int),
            decreases self.candidate_words.len() - i,
        {
            let ghost before = slice_texts(res@);
            res.push(self.candidate_words[i].as_str());
            proof {
                assert(slice_texts(res@) =~= before.push(self.pool()[i as int]));
                assert(self.pool().take(i + 1) =~= self.pool().take(i as int).push(
                    self.pool()[i as int],
                ));
            }
            i += 1;
        }
        assert(self.pool().take(self.pool().len() as int) =~= self.pool());
        let mut k: usize = 0;
        proof {
            reveal(Seq::filter);
            assert(self.vocabulary().take(0).filter(outside(self.pool())) =~= Seq::<
                Seq<char>,
            >::empty());
        }
        while k < self.vocabulary.len()
            invariant
                k <= self.vocabulary.len(),
                slice_texts(res@) =~= self.pool() + self.vocabulary().take(k as int).filter(
                    outside(self.pool()),
                ),
            decreases self.vocabulary.len() - k,
        {
            let ghost before = slice_texts(res@);
            proof {
                reveal(Seq::filter);
                let longer = self.vocabulary().take(k + 1);
                assert(longer.drop_last() =~= self.vocabulary().take(k as int));
                assert(longer.last() == self.vocabulary()[k as int]);
            }
            if !self.is_candidate(&self.vocabulary[k]) {
                res.push(self.vocabulary[k].as_str());
                proof {
                    assert(slice_texts(res@) =~= before.push(self.vocabulary()[k as int]));
                }
            }
            k += 1;
        }
        assert(self.vocabulary().take(self.vocabulary().len() as int) =~= self.vocabulary());
        res
    }
}

/// A copy of a list of words.
pub fn clone_words(words: &Vec<String>) -> (r: Vec<String>)
    ensures
        texts(r@) == texts(words@),
{
    let mut r: Vec<String> = Vec::new();
    let mut i: usize = 0;
    while i < words.len()
        invariant
            i <= words.len(),
            r.len() == i,
            forall|k: int| 0 <= k < i ==> r@[k]@ == words@[k]@,
        decreases words.len() - i,
    {
        r.push(words[i].clone());
        i += 1;
    }
    assert(texts(r@) =~= texts(words@));
    r
}

/// Whether `codes` holds `code`.
fn contains_code(codes: &Vec<u32>, code: u32) -> (r: bool)
    ensures
        r == codes@.contains(code),
{
    let mut i: usize = 0;
    while i < codes.len()
        invariant
            i <= codes.len(),
            forall|k: int| 0 <= k < i ==> codes@[k] != code,
        decreases codes.len() - i,
    {
        if codes[i] == code {
            return true;
        }
        i += 1;
    }
    false
}

/// The number of feedback codes of words of `word_len` symbols.
fn count_codes(word_len: u32) -> (r: usize)
    requires
        word_len <= MAX_WORD_LEN,
    ensures
        r == power(3, word_len as nat),
        r <= u32::MAX,
{
    let mut d: u32 = 1;
    let mut i: u32 = 0;
    proof {
        lemma_power3_values();
    }
    while i < word_len
        invariant
            i <= word_len,
            word_len <= MAX_WORD_LEN,
            d == power(3, i as nat),
            forall|e: nat| e <= 20 ==> #[trigger] power(3, e) <= 3486784401,
        decreases word_len - i,
    {
        proof {
            assert(power(3, (i + 1) as nat) <= 3486784401);
        }
        d *= 3;
        i += 1;
    }
    d as usize
}

proof fn lemma_feedback_code_bound(a: Seq<char>, h: Seq<char>, code: u32)
    requires
        is_feedback_code(a, h, code),
    ensures
        code < power(3, a.len()),
{
    let f = choose|f: Seq<CharResult>| #[trigger] is_feedback(a, h, f) && code_of(f) == code;
    lemma_code_bound(f);
}

/// The largest bucket of the attempt over the pool. `hist` is the scratch
/// table of the buckets, one entry for each feedback code, and `answers`
/// scratch space for the feedbacks of one word.
fn worst_bucket_of(
    attempt: &str,
    pool: &Vec<String>,
    hist: &mut Vec<usize>,
    answers: &mut Vec<u32>,
) -> (r: usize)
    requires
        attempt@.len() <= MAX_WORD_LEN,
        all_of_len(texts(pool@), attempt@.len()),
        old(hist).len() == power(3, attempt@.len()),
    ensures
        r == worst_bucket(attempt@, texts(pool@)),
        final(hist).len() == old(hist).len(),
{
    let ghost ps = texts(pool@);
    let ghost codes = power(3, attempt@.len());
    proof {
        lemma_power3_values();
        assert(codes <= 3486784401);
    }
    let n = hist.len();
    let mut z: usize = 0;
    while z < n
        invariant
            z <= n,
            hist.len() == n,
            forall|k: int| 0 <= k < z ==> hist@[k] == 0,
        decreases n - z,
    {
        hist.set(z, 0);
        z += 1;
    }
    let mut x: usize = 0;
    while x < pool.len()
        invariant
            x <= pool.len(),
            ps == texts(pool@),
            codes == power(3, attempt@.len()),
            codes <= 3486784401,
            attempt@.len() <= MAX_WORD_LEN,
            all_of_len(ps, attempt@.len()),
            hist.len() == codes,
            forall|code: int|
                0 <= code < codes ==> #[trigger] hist@[code] == count_below(
                    in_bucket(attempt@, ps, code as u32),
                    x as nat,
                ),
        decreases pool.len() - x,
    {
        proof {
            assert(ps[x as int].len() == attempt@.len());
        }
        calc_all_answers(attempt, pool[x].as_str(), answers);
        let mut e: usize = 0;
        while e < answers.len()
            invariant
                e <= answers.len(),
                x < pool.len(),
                ps == texts(pool@),
                codes == power(3, attempt@.len()),
                codes <= 3486784401,
                hist.len() == codes,
                holds_all_feedbacks(attempt@, ps[x as int], answers@),
                forall|code: int|
                    0 <= code < codes ==> #[trigger] hist@[code] == count_below(
                        in_bucket(attempt@, ps, code as u32),
                        x as nat,
                    ) + if answers@.take(e as int).contains(code as u32) {
                        1nat
                    } else {
                        0nat
                    },
            decreases answers.len() - e,
        {
            let c = answers[e];
            let ghost before = answers@.take(e as int);
            let ghost after = answers@.take(e + 1);
            proof {
                assert(answers@.contains(c));
                lemma_feedback_code_bound(attempt@, ps[x as int], c);
                lemma_count_below_bound(in_bucket(attempt@, ps, c), x as nat);
                assert(!before.contains(c)) by {
                    if before.contains(c) {
                        let k = choose|k: int| 0 <= k < before.len() && before[k] == c;
                        assert(answers@[k] == answers@[e as int]);
                    }
                }
                assert(hist@[c as int] == count_below(in_bucket(attempt@, ps, c), x as nat));
            }
            let old_count = hist[c as usize];
            hist.set(c as usize, old_count + 1);
            proof {
                assert forall|code: u32| #[trigger]
                    after.contains(code) <==> (before.contains(code) || code == c) by {
                    if after.contains(code) {
                        let k = choose|k: int| 0 <= k < after.len() && after[k] == code;
                        if k < e {
                            assert(before[k] == code);
                        }
                    }
                    if before.contains(code) {
                        let k = choose|k: int| 0 <= k < before.len() && before[k] == code;
                        assert(after[k] == code);
                    }
                    if code == c {
                        assert(after[e as int] == c);
                    }
                }
            }
            e += 1;
        }
        proof {
            assert(answers@.take(answers@.len() as int) =~= answers@);
            assert forall|code: int| 0 <= code < codes implies #[trigger] hist@[code] == count_below(
                in_bucket(attempt@, ps, code as u32),
                (x + 1) as nat,
            ) by {
                assert(answers@.contains(code as u32) <==> is_feedback_code(
                    attempt@,
                    ps[x as int],
                    code as u32,
                ));
            }
        }
        x += 1;
    }
    let mut r: usize = 0;
    let mut code: usize = 0;
    while code < n
        invariant
            code <= n,
            n == codes,
            codes <= 3486784401,
            hist.len() == n,
            forall|code: int|
                0 <= code < codes ==> #[trigger] hist@[code] == bucket_size(
                    attempt@,
                    ps,
                    code as u32,
                ),
            r == worst_bucket_below(attempt@, ps, code as nat),
        decreases n - code,
    {
        if hist[code] > r {
            r = hist[code];
        }
        code += 1;
    }
    r
}

/// The adaptive guesser of the word puzzle.
pub struct WordsChooser {
    words_container: WordsContainer,
    state: ChoiseState,
    word_len: u32,
    last_word: Option<String>,
}

impl WordsChooser {
    /// The words that are still possible.
    pub closed spec fn pool(&self) -> Seq<Seq<char>> {
        self.words_container.pool()
    }

    /// All the words that may be tried.
    pub closed spec fn vocabulary(&self) -> Seq<Seq<char>> {
        self.words_container.vocabulary()
    }

    /// Where the guesser stands.
    pub closed spec fn spec_state(&self) -> ChoiseState {
        self.state
    }

    /// The length of the words.
    pub closed spec fn spec_word_len(&self) -> nat {
        self.word_len as nat
    }

    /// The last guess, if one was made.
    pub closed spec fn spec_last_word(&self) -> Option<Seq<char>> {
        match self.last_word {
            Some(w) => Some(w@),
            None => None,
        }
    }

    #[verifier::type_invariant]
    spec fn wf(self) -> bool {
        &&& self.word_len <= MAX_WORD_LEN
        &&& all_of_len(self.pool(), self.word_len as nat)
        &&& all_of_len(self.vocabulary(), self.word_len as nat)
        &&& self.state == ChoiseState::WaitForRespond ==> self.last_word is Some
            && self.last_word->0@.len() == self.word_len
    }

    /// A guesser over the vocabulary `all_words`, every word of which has
    /// `word_len` symbols. Every word is possible at first.
    pub fn new(all_words: Vec<String>, word_len: u32) -> (r: WordsChooser)
        requires
            word_len <= MAX_WORD_LEN,
            all_of_len(texts(all_words@), word_len as nat),
        ensures
            r.pool() == texts(all_words@),
            r.vocabulary() == texts(all_words@),
            r.spec_state() == ChoiseState::ReadyToMakeGuess,
            r.spec_word_len() == word_len,
            r.spec_last_word() is None,
    {
        WordsChooser {
            words_container: WordsContainer::new(all_words),
            state: ChoiseState::ReadyToMakeGuess,
            word_len,
            last_word: None,
        }
    }

    /// Where the guesser stands.
    pub fn state(&self) -> (r: ChoiseState)
        ensures
            r == self.spec_state(),
    {
        self.state
    }

    /// The words that are still possible.
    pub fn candidates(&self) -> (r: &Vec<String>)
        ensures
            texts(r@) == self.pool(),
    {
        &self.words_container.candidate_words
    }

    /// The last guess, if one was made.
    pub fn last_word(&self) -> (r: Option<&String>)
        ensures
            match r {
                Some(w) => self.spec_last_word() == Some(w@),
                None => self.spec_last_word() is None,
            },
    {
        self.last_word.as_ref()
    }

    /// Picks the next attempt: of all the words of the vocabulary, the words
    /// of the pool first, the first one whose worst response leaves the
    /// fewest words of the pool. The only word of a pool of one is picked as
    /// it is. With an empty pool there is no attempt, and the guesser is
    /// exhausted.
    pub fn make_guess(&mut self) -> (r: Option<&str>)
        requires
            old(self).spec_state() == ChoiseState::ReadyToMakeGuess,
        ensures
            final(self).pool() == old(self).pool(),
            final(self).vocabulary() == old(self).vocabulary(),
            final(self).spec_word_len() == old(self).spec_word_len(),
            old(self).pool().len() == 0 ==> r is None && final(self).spec_state()
                == ChoiseState::NoMoreWords && final(self).spec_last_word() == old(
                self,
            ).spec_last_word(),
            old(self).pool().len() > 0 ==> r is Some && final(self).spec_state()
                == ChoiseState::WaitForRespond && final(self).spec_last_word() == Some(r->0@),
            old(self).pool().len() == 1 ==> r->0@ == old(self).pool()[0],
            old(self).pool().len() > 1 ==> exists|idx: int|
                is_best_attempt(
                    scan_order(old(self).pool(), old(self).vocabulary()),
                    old(self).pool(),
                    idx,
                ) && #[trigger] scan_order(old(self).pool(), old(self).vocabulary())[idx] == r->0@,
    {
        proof {
            use_type_invariant(&*self);
        }
        if self.words_container.candidate_words.len() == 0 {
            self.state = ChoiseState::NoMoreWords;
            return None;
        }
        if self.words_container.candidate_words.len() == 1 {
            let only: String = self.words_container.candidate_words[0].clone();
            proof {
                assert(self.pool()[0] == only@);
                assert(only@.len() == self.word_len);
            }
            self.last_word = Some(only);
            self.state = ChoiseState::WaitForRespond;
            return match &self.last_word {
                Some(w) => Some(w.as_str()),
                None => None,
            };
        }
        let total = count_codes(self.word_len);
        let mut vec_variants: Vec<usize> = vec![0usize; total];
        let mut answers_vec: Vec<u32> = Vec::new();
        let words = self.words_container.construct_list_of_words();
        let ghost order = scan_order(self.pool(), self.vocabulary());
        let ghost pool = self.pool();
        proof {
            assert forall|t: int| 0 <= t < order.len() implies (#[trigger] order[t]).len()
                == self.word_len by {
                lemma_scan_order_members(pool, self.vocabulary(), t);
                if t >= pool.len() {
                    let k = choose|k: int|
                        0 <= k < self.vocabulary().len() && self.vocabulary()[k] == order[t];
                }
            }
        }
        let mut best: usize = 0;
        let mut max_val: usize = 0;
        let mut t: usize = 0;
        while t < words.len()
            invariant
                t <= words.len(),
                words.len() > 0,
                slice_texts(words@) == order,
                pool == texts(self.words_container.candidate_words@),
                self.word_len <= MAX_WORD_LEN,
                all_of_len(pool, self.word_len as nat),
                forall|t: int| 0 <= t < order.len() ==> (#[trigger] order[t]).len() == self.word_len,
                vec_variants.len() == power(3, self.word_len as nat),
                t > 0 ==> best < t && max_val == worst_bucket(order[best as int], pool),
                t > 0 ==> forall|j: int|
                    0 <= j < best ==> worst_bucket(#[trigger] order[j], pool) > max_val,
                t > 0 ==> forall|j: int|
                    best < j < t ==> worst_bucket(#[trigger] order[j], pool) >= max_val,
            decreases words.len() - t,
        {
            proof {
                assert(order[t as int].len() == self.word_len);
                assert(slice_texts(words@)[t as int] == words@[t as int]@);
            }
            let tmp_val = worst_bucket_of(
                words[t],
                &self.words_container.candidate_words,
                &mut vec_variants,
                &mut answers_vec,
            );
            if t == 0 || tmp_val < max_val {
                max_val = tmp_val;
                best = t;
            }
            t += 1;
        }
        let word: String = words[best].to_owned();
        proof {
            assert(slice_texts(words@)[best as int] == words@[best as int]@);
            assert(is_best_attempt(order, pool, best as int));
            assert(word@.len() == self.word_len);
        }
        self.last_word = Some(word);
        self.state = ChoiseState::WaitForRespond;
        match &self.last_word {
            Some(w) => Some(w.as_str()),
            None => None,
        }
    }

    /// Takes the response to the last guess: the words that do not allow it
    /// leave the pool.
    pub fn respond_to_guess(&mut self, respond: &[CharResult])
        requires
            old(self).spec_state() == ChoiseState::WaitForRespond,
            respond@.len() == old(self).spec_word_len(),
        ensures
            final(self).spec_state() == ChoiseState::ReadyToMakeGuess,
            final(self).vocabulary() == old(self).vocabulary(),
            final(self).spec_word_len() == old(self).spec_word_len(),
            final(self).spec_last_word() == old(self).spec_last_word(),
            final(self).pool() == old(self).pool().filter(
                agrees_with(old(self).spec_last_word()->0, respond@),
            ),
    {
        proof {
            use_type_invariant(&*self);
        }
        let code = convert_res(respond);
        let mut kept: Vec<String> = Vec::new();
        let mut tmp: Vec<u32> = Vec::new();
        let ghost pool = self.pool();
        let ghost last = self.spec_last_word()->0;
        let ghost keep = agrees_with(last, respond@);
        match &self.last_word {
            Some(last_word) => {
                let mut x: usize = 0;
                proof {
                    reveal(Seq::filter);
                    assert(pool.take(0).filter(keep) =~= Seq::<Seq<char>>::empty());
                    assert(texts(kept@) =~= Seq::<Seq<char>>::empty());
                }
                while x < self.words_container.candidate_words.len()
                    invariant
                        x <= self.words_container.candidate_words.len(),
                        pool == texts(self.words_container.candidate_words@),
                        last == last_word@,
                        keep == agrees_with(last, respond@),
                        last.len() == self.word_len,
                        respond@.len() == self.word_len,
                        self.word_len <= MAX_WORD_LEN,
                        all_of_len(pool, self.word_len as nat),
                        code == code_of(respond@),
                        texts(kept@) == pool.take(x as int).filter(keep),
                        all_of_len(texts(kept@), self.word_len as nat),
                    decreases self.words_container.candidate_words.len() - x,
                {
                    let cand = &self.words_container.candidate_words[x];
                    proof {
                        assert(pool[x as int] == cand@);
                        assert(pool[x as int].len() == self.word_len);
                    }
                    calc_all_answers(last_word.as_str(), cand.as_str(), &mut tmp);
                    let fits = contains_code(&tmp, code);
                    let ghost before = texts(kept@);
                    proof {
                        reveal(Seq::filter);
                        let longer = pool.take(x + 1);
                        assert(longer.drop_last() =~= pool.take(x as int));
                        assert(longer.last() == cand@);
                        assert(fits == is_feedback_code(last, cand@, code));
                        if is_feedback_code(last, cand@, code) {
                            let f = choose|f: Seq<CharResult>| #[trigger]
                                is_feedback(last, cand@, f) && code_of(f) == code;
                            lemma_code_injective(f, respond@);
                        }
                        assert(fits == keep(cand@));
                    }
                    if fits {
                        kept.push(cand.clone());
                        proof {
                            assert(texts(kept@) =~= before.push(cand@));
                        }
                    }
                    x += 1;
                }
                proof {
                    assert(pool.take(pool.len() as int) =~= pool);
                }
            },
            None => {
                proof {
                    assert(false);
                }
            },
        }
        self.words_container.candidate_words = kept;
        self.state = ChoiseState::ReadyToMakeGuess;
    }
}

} // verus!

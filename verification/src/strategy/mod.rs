//! The adaptive guessers of the numeric puzzle: the pool of candidates,
//! the objective functions that weigh a guess, and the strategies built on
//! them.

use vstd::prelude::*;
use crate::comb_utils::{ints_of_usize, lex_less};
use crate::game_params::{digits_below, GameParams};
use crate::generator::collect_numbers;
use crate::histogram::{distribution, histogram, scored_as};
use crate::number::{views_of, Number};
use crate::oracle::{calc_bc_with_size, score_of};
use crate::selection::{
    is_distribution, is_first_least, lemma_first_least_step, lemma_only_least_is_first,
    lemma_scan_order_members, outside, scan_order,
};
use crate::universe::lists_universe;

pub mod min_avg;
pub mod minmax;
pub mod naive;

verus! {

/// Where a guesser stands in the exchange of guesses and responses.
#[derive(Debug)]
pub enum GuesserState {
    /// A guess can be made.
    ReadyToGuess,
    /// The guess that was made; its response is awaited.
    AwaitingResponse(Number),
    /// The pool is empty: the responses were inconsistent.
    Exhausted,
}

/// The state of a guesser as a mathematical value.
pub enum StateView {
    ReadyToGuess,
    AwaitingResponse(Seq<u8>),
    Exhausted,
}

impl View for GuesserState {
    type V = StateView;

    open spec fn view(&self) -> StateView {
        match self {
            GuesserState::ReadyToGuess => StateView::ReadyToGuess,
            GuesserState::AwaitingResponse(n) => StateView::AwaitingResponse(n@),
            GuesserState::Exhausted => StateView::Exhausted,
        }
    }
}

/// Every value of `s` is a value of the configuration `g`.
pub open spec fn all_admitted(g: GameParams, s: Seq<Seq<u8>>) -> bool {
    forall|i: int| 0 <= i < s.len() ==> g.admits(#[trigger] s[i])
}

/// The guess that a state holds, if it holds one, is a value of the
/// configuration `g`.
pub open spec fn state_admitted(g: GameParams, s: StateView) -> bool {
    match s {
        StateView::AwaitingResponse(guess) => g.admits(guess),
        _ => true,
    }
}

/// A copy of a list of values.
pub fn clone_numbers(values: &Vec<Number>) -> (r: Vec<Number>)
    ensures
        views_of(r@) == views_of(values@),
{
    let mut r: Vec<Number> = Vec::new();
    let mut i: usize = 0;
    while i < values.len()
        invariant
            i <= values.len(),
            r.len() == i,
            forall|k: int| 0 <= k < i ==> r@[k]@ == values@[k]@,
        decreases values.len() - i,
    {
        r.push(values[i].clone());
        i += 1;
    }
    assert(views_of(r@) =~= views_of(values@));
    r
}

/// The candidates of a game: the vocabulary of all values that may be
/// guessed, the pool of those that are still possible, and the state of the
/// exchange.
pub struct CandidatePool {
    params: GameParams,
    all_values: Vec<Number>,
    candidates: Vec<Number>,
    state: GuesserState,
}

impl CandidatePool {
    /// The configuration of the game.
    pub closed spec fn params(&self) -> GameParams {
        self.params
    }

    /// All the values that may be guessed.
    pub closed spec fn vocabulary(&self) -> Seq<Seq<u8>> {
        views_of(self.all_values@)
    }

    /// The values that are still possible.
    pub closed spec fn pool(&self) -> Seq<Seq<u8>> {
        views_of(self.candidates@)
    }

    /// Where the exchange stands.
    pub closed spec fn state(&self) -> StateView {
        self.state@
    }

    /// The pool is in a state that it can reach: all its values are values
    /// of the configuration.
    pub closed spec fn wf(&self) -> bool {
        &&& all_admitted(self.params, self.vocabulary())
        &&& all_admitted(self.params, self.pool())
        &&& state_admitted(self.params, self.state@)
    }

    /// What `wf` says of the values.
    pub proof fn lemma_wf(&self)
        requires
            self.wf(),
        ensures
            all_admitted(self.params(), self.vocabulary()),
            all_admitted(self.params(), self.pool()),
            state_admitted(self.params(), self.state()),
    {
    }

    /// A pool over the vocabulary `all_values`. No game has begun: the pool
    /// is empty until `init` is called.
    pub fn new(params: GameParams, all_values: Vec<Number>) -> (r: Self)
        requires
            all_admitted(params, views_of(all_values@)),
        ensures
            r.wf(),
            r.params() == params,
            r.vocabulary() == views_of(all_values@),
            r.pool() == Seq::<Seq<u8>>::empty(),
            r.state() == StateView::ReadyToGuess,
    {
        let r = CandidatePool {
            params,
            all_values,
            candidates: Vec::new(),
            state: GuesserState::ReadyToGuess,
        };
        assert(r.pool() =~= Seq::<Seq<u8>>::empty());
        r
    }

    /// Begins a game: every value of the vocabulary is possible.
    pub fn init(&mut self)
        requires
            old(self).wf(),
        ensures
            final(self).wf(),
            final(self).params() == old(self).params(),
            final(self).vocabulary() == old(self).vocabulary(),
            final(self).pool() == old(self).vocabulary(),
            final(self).state() == StateView::ReadyToGuess,
    {
        self.candidates = clone_numbers(&self.all_values);
        self.state = GuesserState::ReadyToGuess;
    }

    /// The configuration of the game.
    pub fn game(&self) -> (g: GameParams)
        ensures
            g == self.params(),
    {
        self.params
    }

    /// The values that are still possible.
    pub fn candidates(&self) -> (r: &Vec<Number>)
        ensures
            views_of(r@) == self.pool(),
    {
        &self.candidates
    }

    /// All the values that may be guessed.
    pub fn all_values(&self) -> (r: &Vec<Number>)
        ensures
            views_of(r@) == self.vocabulary(),
    {
        &self.all_values
    }

    /// The guess whose response is awaited, if one is.
    pub fn last_guess(&self) -> (r: Option<&Number>)
        ensures
            match r {
                Some(g) => self.state() == StateView::AwaitingResponse(g@),
                None => !(self.state() is AwaitingResponse),
            },
    {
        match &self.state {
            GuesserState::AwaitingResponse(g) => Some(g),
            _ => None,
        }
    }

    /// Whether no value is possible any more.
    pub fn is_exhausted(&self) -> (r: bool)
        ensures
            r == (self.state() is Exhausted),
    {
        match &self.state {
            GuesserState::Exhausted => true,
            _ => false,
        }
    }

    /// Whether the pool holds `value`.
    fn is_candidate(&self, value: &Number) -> (r: bool)
        ensures
            r == self.pool().contains(value@),
    {
        let mut j: usize = 0;
        while j < self.candidates.len()
            invariant
                j <= self.candidates.len(),
                forall|k: int| 0 <= k < j ==> self.pool()[k] != value@,
            decreases self.candidates.len() - j,
        {
            if self.candidates[j].same_as(value) {
                assert(self.pool()[j as int] == value@);
                return true;
            }
            j += 1;
        }
        false
    }

    /// The attempts to weigh, in the order in which they are weighed: the
    /// pool first, then the rest of the vocabulary.
    pub fn scan_list(&self) -> (r: Vec<&Number>)
        ensures
            ref_views(r@) == scan_order(self.pool(), self.vocabulary()),
    {
        let mut res: Vec<&Number> = Vec::new();
        if self.candidates.len() == 0 {
            assert(ref_views(res@) =~= Seq::<Seq<u8>>::empty());
            return res;
        }
        let mut i: usize = 0;
        while i < self.candidates.len()
            invariant
                i <= self.candidates.len(),
                ref_views(res@) =~= self.pool().take(i as int),
            decreases self.candidates.len() - i,
        {
            let ghost before = ref_views(res@);
            res.push(&self.candidates[i]);
            proof {
                assert(ref_views(res@) =~= before.push(self.pool()[i as int]));
                assert(self.pool().take(i + 1) =~= self.pool().take(i as int).push(
                    self.pool()[i as int],
                ));
            }
            i += 1;
        }
        assert(self.pool().take(self.pool().len() as int) =~= self.pool());
        let mut k: usize = 0;
        proof {
            reveal(Seq::filter);
            assert(self.vocabulary().take(0).filter(outside(self.pool())) =~= Seq::<
                Seq<u8>,
            >::empty());
        }
        while k < self.all_values.len()
            invariant
                k <= self.all_values.len(),
                ref_views(res@) =~= self.pool() + self.vocabulary().take(k as int).filter(
                    outside(self.pool()),
                ),
            decreases self.all_values.len() - k,
        {
            let ghost before = ref_views(res@);
            proof {
                reveal(Seq::filter);
                let longer = self.vocabulary().take(k + 1);
                assert(longer.drop_last() =~= self.vocabulary().take(k as int));
                assert(longer.last() == self.vocabulary()[k as int]);
            }
            if !self.is_candidate(&self.all_values[k]) {
                res.push(&self.all_values[k]);
                proof {
                    assert(ref_views(res@) =~= before.push(self.vocabulary()[k as int]));
                }
            }
            k += 1;
        }
        assert(self.vocabulary().take(self.vocabulary().len() as int) =~= self.vocabulary());
        res
    }

    /// The histogram of the guess `attempt` over the pool: the sizes of the
    /// buckets that are not empty, ordered by score.
    pub fn distribution(&self, attempt: &Number) -> (r: Vec<usize>)
        requires
            self.wf(),
            digits_below(attempt@, self.params().spec_base()),
        ensures
            ints_of_usize(r@) == histogram(
                attempt@,
                self.pool(),
                self.params().spec_number_len() as nat,
            ),
            is_distribution(ints_of_usize(r@), self.pool().len() as int),
    {
        proof {
            assert forall|x: int| 0 <= x < self.candidates.len() implies (
            #[trigger] self.candidates@[x])@.len() == self.params.spec_number_len()
                && digits_below(self.candidates@[x]@, self.params.spec_base()) by {
                assert(self.params.admits(self.pool()[x]));
                assert(self.pool()[x] == self.candidates@[x]@);
            }
        }
        distribution(attempt, &self.candidates, self.params.number_len(), self.params.base())
    }

    /// Records the guess that was made; its response is awaited from now
    /// on.
    pub fn commit_guess(&mut self, guess: Number)
        requires
            old(self).wf(),
            old(self).params().admits(guess@),
        ensures
            final(self).wf(),
            final(self).params() == old(self).params(),
            final(self).vocabulary() == old(self).vocabulary(),
            final(self).pool() == old(self).pool(),
            final(self).state() == StateView::AwaitingResponse(guess@),
    {
        self.state = GuesserState::AwaitingResponse(guess);
    }

    /// Records that no value is possible any more.
    pub fn exhaust(&mut self)
        requires
            old(self).wf(),
        ensures
            final(self).wf(),
            final(self).params() == old(self).params(),
            final(self).vocabulary() == old(self).vocabulary(),
            final(self).pool() == old(self).pool(),
            final(self).state() == StateView::Exhausted,
    {
        self.state = GuesserState::Exhausted;
    }

    /// Takes the response to the last guess: the candidates that would not
    /// have answered it with this score leave the pool.
    pub fn respond_to_guess(&mut self, bulls: u8, cows: u8)
        requires
            old(self).wf(),
            old(self).state() is AwaitingResponse,
        ensures
            final(self).wf(),
            final(self).params() == old(self).params(),
            final(self).vocabulary() == old(self).vocabulary(),
            final(self).state() == StateView::ReadyToGuess,
            final(self).pool() == old(self).pool().filter(
                scored_as(old(self).state()->AwaitingResponse_0, bulls as nat, cows as nat),
            ),
    {
        let mut kept: Vec<Number> = Vec::new();
        let ghost pool = self.pool();
        let ghost last = self.state()->AwaitingResponse_0;
        let ghost keep = scored_as(last, bulls as nat, cows as nat);
        let base = self.params.base();
        let len = self.params.number_len();
        match &self.state {
            GuesserState::AwaitingResponse(last_guess) => {
                let mut x: usize = 0;
                proof {
                    reveal(Seq::filter);
                    assert(pool.take(0).filter(keep) =~= Seq::<Seq<u8>>::empty());
                    assert(views_of(kept@) =~= Seq::<Seq<u8>>::empty());
                }
                while x < self.candidates.len()
                    invariant
                        x <= self.candidates.len(),
                        pool == views_of(self.candidates@),
                        last == last_guess@,
                        keep == scored_as(last, bulls as nat, cows as nat),
                        base == self.params.spec_base(),
                        len == self.params.spec_number_len(),
                        self.params.admits(last),
                        all_admitted(self.params, self.vocabulary()),
                        all_admitted(self.params, pool),
                        views_of(kept@) == pool.take(x as int).filter(keep),
                        all_admitted(self.params, views_of(kept@)),
                    decreases self.candidates.len() - x,
                {
                    let cand = &self.candidates[x];
                    proof {
                        assert(pool[x as int] == cand@);
                        assert(self.params.admits(pool[x as int]));
                    }
                    let (b, c) = calc_bc_with_size(last_guess, cand, base);
                    let fits = b == bulls && c == cows;
                    let ghost before = views_of(kept@);
                    proof {
                        reveal(Seq::filter);
                        let longer = pool.take(x + 1);
                        assert(longer.drop_last() =~= pool.take(x as int));
                        assert(longer.last() == cand@);
                        assert(fits == keep(cand@));
                    }
                    if fits {
                        kept.push(cand.clone());
                        proof {
                            assert(views_of(kept@) =~= before.push(cand@));
                            assert forall|i: int|
                                0 <= i < views_of(kept@).len() implies self.params.admits(
                                #[trigger] views_of(kept@)[i],
                            ) by {
                                if i < before.len() {
                                    assert(views_of(kept@)[i] == before[i]);
                                }
                            }
                        }
                    }
                    x += 1;
                }
                proof {
                    assert(pool.take(pool.len() as int) =~= pool);
                }
            },
            _ => {
                proof {
                    assert(false);
                }
            },
        }
        self.candidates = kept;
        self.state = GuesserState::ReadyToGuess;
    }

    /// A copy of the pool, for a game of its own.
    pub fn clone_pool(&self) -> (r: Self)
        requires
            self.wf(),
        ensures
            r.wf(),
            r.params() == self.params(),
            r.vocabulary() == self.vocabulary(),
            r.pool() == self.pool(),
            r.state() == self.state(),
    {
        let state = match &self.state {
            GuesserState::ReadyToGuess => GuesserState::ReadyToGuess,
            GuesserState::AwaitingResponse(g) => GuesserState::AwaitingResponse(g.clone()),
            GuesserState::Exhausted => GuesserState::Exhausted,
        };
        CandidatePool {
            params: self.params,
            all_values: clone_numbers(&self.all_values),
            candidates: clone_numbers(&self.candidates),
            state,
        }
    }
}

/// The views of a sequence of borrowed values.
pub open spec fn ref_views(s: Seq<&Number>) -> Seq<Seq<u8>> {
    Seq::new(s.len(), |i: int| s[i]@)
}

/// A guesser of the numeric puzzle.
///
/// The functions that model a guesser have bodies, so that a type can
/// implement the trait by its executable methods alone. A type that keeps
/// these bodies is never well-formed: nothing is proved of it, and no
/// verified caller can hand it to a function that takes a strategy.
pub trait Strategy: Sized {
    /// The guesser is in a state that it can reach.
    open spec fn wf(&self) -> bool {
        false
    }

    /// The configuration of the game.
    open spec fn params(&self) -> GameParams {
        arbitrary()
    }

    /// All the values that the guesser may guess.
    open spec fn vocabulary(&self) -> Seq<Seq<u8>> {
        Seq::empty()
    }

    /// The values that are still possible.
    open spec fn pool(&self) -> Seq<Seq<u8>> {
        Seq::empty()
    }

    /// Where the exchange stands.
    open spec fn state(&self) -> StateView {
        StateView::Exhausted
    }

    /// The configuration of the game.
    fn game(&self) -> (g: GameParams)
        ensures
            g == self.params(),
    ;

    /// Begins a game: every value of the vocabulary is possible.
    fn init(&mut self)
        requires
            old(self).wf(),
        ensures
            final(self).wf(),
            final(self).params() == old(self).params(),
            final(self).vocabulary() == old(self).vocabulary(),
            final(self).pool() == old(self).vocabulary(),
            final(self).state() == StateView::ReadyToGuess,
    ;

    /// Makes a guess. `None` means that no value is possible: the responses
    /// were inconsistent. The only value of a pool of one is guessed as it
    /// is.
    fn make_guess(&mut self) -> (r: Option<Number>)
        requires
            old(self).wf(),
            old(self).state() == StateView::ReadyToGuess,
        ensures
            final(self).wf(),
            final(self).params() == old(self).params(),
            final(self).vocabulary() == old(self).vocabulary(),
            final(self).pool() == old(self).pool(),
            old(self).pool().len() == 0 ==> r is None && final(self).state()
                == StateView::Exhausted,
            old(self).pool().len() > 0 ==> r is Some && final(self).state()
                == StateView::AwaitingResponse(r->0@) && final(self).params().admits(r->0@),
            old(self).pool().len() == 1 ==> r->0@ == old(self).pool()[0],
    ;

    /// Takes the response to the last guess: the candidates that would not
    /// have answered it with this score leave the pool.
    fn respond_to_guess(&mut self, bulls: u8, cows: u8)
        requires
            old(self).wf(),
            old(self).state() is AwaitingResponse,
        ensures
            final(self).wf(),
            final(self).params() == old(self).params(),
            final(self).vocabulary() == old(self).vocabulary(),
            final(self).state() == StateView::ReadyToGuess,
            final(self).pool() == old(self).pool().filter(
                scored_as(old(self).state()->AwaitingResponse_0, bulls as nat, cows as nat),
            ),
    ;

    /// A copy of the guesser, for a game of its own.
    fn clone_strategy(&self) -> (r: Self)
        requires
            self.wf(),
        ensures
            r.wf(),
            r.params() == self.params(),
            r.vocabulary() == self.vocabulary(),
            r.pool() == self.pool(),
            r.state() == self.state(),
    ;
}

/// After a response, a candidate stays in the pool exactly if it would
/// have answered the guess with the score of the response: every candidate
/// that stays would have, and none that would have is removed.
pub proof fn lemma_partition_sound(
    pool: Seq<Seq<u8>>,
    guess: Seq<u8>,
    bulls: nat,
    cows: nat,
    candidate: Seq<u8>,
)
    ensures
        pool.filter(scored_as(guess, bulls, cows)).contains(candidate) <==> pool.contains(candidate)
            && score_of(guess, candidate) == (bulls, cows),
{
    let keep = scored_as(guess, bulls, cows);
    let kept = pool.filter(keep);
    if kept.contains(candidate) {
        let i = choose|i: int| 0 <= i < kept.len() && kept[i] == candidate;
        pool.lemma_filter_pred(keep, i);
        pool.lemma_filter_contains_rev(keep, candidate);
    }
    if pool.contains(candidate) && score_of(guess, candidate) == (bulls, cows) {
        let i = choose|i: int| 0 <= i < pool.len() && pool[i] == candidate;
        assert(keep(pool[i]));
        pool.lemma_filter_contains(keep, i);
    }
}

/// An objective function: it weighs a guess by the histogram of the scores
/// that the pool would answer it with. Scores are sequences of integers that
/// are compared lexicographically; the smaller score is the better one.
pub trait TargetFunc: Sized {
    /// The score in the form in which it is computed.
    type EvaluationResult;

    /// The score of a histogram over a pool of `current_candidates` values.
    spec fn score(distribution: Seq<int>, current_candidates: int) -> Seq<int>;

    /// The score that a computed result stands for.
    spec fn result_view(r: &Self::EvaluationResult) -> Seq<int>;

    /// The objective function for values of `n` digits.
    fn new(n: i32) -> Self;

    /// Weighs a histogram.
    fn evaluate_distribution(&self, distribution: &[usize], current_candidates: usize) -> (r:
        Self::EvaluationResult)
        requires
            is_distribution(ints_of_usize(distribution@), current_candidates as int),
        ensures
            Self::result_view(&r) == Self::score(
                ints_of_usize(distribution@),
                current_candidates as int,
            ),
    ;

    /// Whether the score `a` is better than the score `b`.
    fn is_better(&self, a: &Self::EvaluationResult, b: &Self::EvaluationResult) -> (r: bool)
        ensures
            r == lex_less(Self::result_view(a), Self::result_view(b)),
    ;
}

/// The scores of the attempts `order` over the pool, under the objective
/// function `F`.
pub open spec fn attempt_scores<F: TargetFunc>(
    order: Seq<Seq<u8>>,
    pool: Seq<Seq<u8>>,
    len: nat,
) -> Seq<Seq<int>> {
    Seq::new(order.len(), |j: int| F::score(histogram(order[j], pool, len), pool.len() as int))
}

/// The guess `guess` is the first attempt with the least score under `F`,
/// of the pool and then the rest of the vocabulary.
pub open spec fn is_best_guess<F: TargetFunc>(
    guess: Seq<u8>,
    pool: Seq<Seq<u8>>,
    vocabulary: Seq<Seq<u8>>,
    len: nat,
) -> bool {
    exists|idx: int|
        is_first_least(attempt_scores::<F>(scan_order(pool, vocabulary), pool, len), idx)
            && #[trigger] scan_order(pool, vocabulary)[idx] == guess
}

/// An attempt whose score is smaller than that of every other attempt is
/// the best guess: where one attempt alone has the least score under `F`, it
/// is guessed.
pub proof fn lemma_only_best_guess<F: TargetFunc>(
    guess: Seq<u8>,
    pool: Seq<Seq<u8>>,
    vocabulary: Seq<Seq<u8>>,
    len: nat,
    k: int,
)
    requires
        is_best_guess::<F>(guess, pool, vocabulary, len),
        0 <= k < scan_order(pool, vocabulary).len(),
        forall|j: int|
            0 <= j < scan_order(pool, vocabulary).len() && j != k ==> lex_less(
                attempt_scores::<F>(scan_order(pool, vocabulary), pool, len)[k],
                #[trigger] attempt_scores::<F>(scan_order(pool, vocabulary), pool, len)[j],
            ),
    ensures
        guess == scan_order(pool, vocabulary)[k],
{
    let order = scan_order(pool, vocabulary);
    let scores = attempt_scores::<F>(order, pool, len);
    let idx = choose|idx: int| is_first_least(scores, idx) && #[trigger] order[idx] == guess;
    lemma_only_least_is_first(scores, idx, k);
}

/// The strategy that weighs every attempt with the objective function `F`
/// and guesses the first one with the least score.
///
/// The guess over the whole vocabulary is the same in every game: it is
/// weighed once and kept.
pub struct BasicStrategy<F: TargetFunc> {
    inner: CandidatePool,
    func: F,
    is_first: bool,
    first_guess: Option<Number>,
}

impl<F: TargetFunc> BasicStrategy<F> {
    /// The strategy for the configuration `g`; its vocabulary is the
    /// universe of `g` in generation order.
    pub fn new(g: &GameParams) -> (r: BasicStrategy<F>)
        ensures
            r.wf(),
            r.params() == *g,
            lists_universe(*g, r.vocabulary()),
            r.pool() == Seq::<Seq<u8>>::empty(),
            r.state() == StateView::ReadyToGuess,
    {
        let all_values = collect_numbers(g);
        let n = g.number_len();
        BasicStrategy {
            inner: CandidatePool::new(*g, all_values),
            func: F::new(n as i32),
            is_first: false,
            first_guess: None,
        }
    }

    /// The pool of candidates that the strategy works on.
    pub fn candidate_pool(&self) -> (r: &CandidatePool)
        ensures
            self.wf() ==> r.wf(),
            r.params() == self.params(),
            r.vocabulary() == self.vocabulary(),
            r.pool() == self.pool(),
            r.state() == self.state(),
    {
        &self.inner
    }

    /// The score of one attempt over the pool.
    pub fn evaluate_attempt(&self, attempt: &Number) -> (r: F::EvaluationResult)
        requires
            self.wf(),
            digits_below(attempt@, self.params().spec_base()),
        ensures
            F::result_view(&r) == F::score(
                histogram(attempt@, self.pool(), self.params().spec_number_len() as nat),
                self.pool().len() as int,
            ),
    {
        let v = self.inner.distribution(attempt);
        self.func.evaluate_distribution(v.as_slice(), self.inner.candidates().len())
    }

    /// The first attempt with the least score, of the pool and then the rest
    /// of the vocabulary.
    pub fn best_guess(&self) -> (guess: Number)
        requires
            self.wf(),
            self.pool().len() > 0,
        ensures
            self.params().admits(guess@),
            is_best_guess::<F>(
                guess@,
                self.pool(),
                self.vocabulary(),
                self.params().spec_number_len() as nat,
            ),
    {
        let ghost pool = self.inner.pool();
        let ghost vocabulary = self.inner.vocabulary();
        let ghost len = self.inner.params().spec_number_len() as nat;
        let ghost order = scan_order(pool, vocabulary);
        let ghost scores = attempt_scores::<F>(order, pool, len);
        let words = self.inner.scan_list();
        proof {
            self.inner.lemma_wf();
            assert forall|t: int| 0 <= t < order.len() implies self.inner.params().admits(
                #[trigger] order[t],
            ) by {
                lemma_scan_order_members(pool, vocabulary, t);
                if t >= pool.len() {
                    let k = choose|k: int| 0 <= k < vocabulary.len() && vocabulary[k] == order[t];
                    assert(self.inner.params().admits(vocabulary[k]));
                } else {
                    assert(self.inner.params().admits(pool[t]));
                }
            }
            assert(order.len() >= pool.len());
            assert(ref_views(words@)[0] == words@[0]@);
        }
        let mut min_value = self.evaluate_attempt(words[0]);
        let mut best: usize = 0;
        let mut t: usize = 1;
        proof {
            assert(is_first_least(scores.take(1), 0));
        }
        while t < words.len()
            invariant
                1 <= t <= words.len(),
                self.wf(),
                ref_views(words@) == order,
                order == scan_order(pool, vocabulary),
                pool == self.pool(),
                len == self.params().spec_number_len(),
                scores == attempt_scores::<F>(order, pool, len),
                forall|t: int| 0 <= t < order.len() ==> self.params().admits(#[trigger] order[t]),
                best < t,
                F::result_view(&min_value) == scores[best as int],
                is_first_least(scores.take(t as int), best as int),
            decreases words.len() - t,
        {
            proof {
                assert(ref_views(words@)[t as int] == words@[t as int]@);
                assert(self.params().admits(order[t as int]));
            }
            let new_value = self.evaluate_attempt(words[t]);
            proof {
                lemma_first_least_step(scores, best as int, t as int);
            }
            if self.func.is_better(&new_value, &min_value) {
                min_value = new_value;
                best = t;
            }
            t += 1;
        }
        let guess = words[best].clone();
        proof {
            assert(scores.take(words.len() as int) =~= scores);
            assert(ref_views(words@)[best as int] == words@[best as int]@);
            assert(order[best as int] == guess@);
            assert(self.params().admits(order[best as int]));
        }
        guess
    }
}

impl<F: TargetFunc> Strategy for BasicStrategy<F> {
    closed spec fn wf(&self) -> bool {
        &&& self.inner.wf()
        &&& self.is_first ==> self.inner.pool() == self.inner.vocabulary()
        &&& self.first_guess is Some ==> self.inner.params().admits(self.first_guess->0@)
            && is_best_guess::<F>(
            self.first_guess->0@,
            self.inner.vocabulary(),
            self.inner.vocabulary(),
            self.inner.params().spec_number_len() as nat,
        )
    }

    closed spec fn params(&self) -> GameParams {
        self.inner.params()
    }

    closed spec fn vocabulary(&self) -> Seq<Seq<u8>> {
        self.inner.vocabulary()
    }

    closed spec fn pool(&self) -> Seq<Seq<u8>> {
        self.inner.pool()
    }

    closed spec fn state(&self) -> StateView {
        self.inner.state()
    }

    fn game(&self) -> (g: GameParams) {
        self.inner.game()
    }

    fn init(&mut self) {
        self.inner.init();
        self.is_first = true;
    }

    fn make_guess(&mut self) -> (r: Option<Number>)
        ensures
            old(self).pool().len() > 1 ==> is_best_guess::<F>(
                r->0@,
                old(self).pool(),
                old(self).vocabulary(),
                old(self).params().spec_number_len() as nat,
            ),
    {
        let n = self.inner.candidates().len();
        proof {
            self.inner.lemma_wf();
            assert(views_of(self.inner.candidates@).len() == n);
        }
        if n == 0 {
            self.inner.exhaust();
            return None;
        }
        if n == 1 {
            let only = self.inner.candidates();
            proof {
                assert(views_of(only@).len() == only.len());
                assert(only.len() == 1);
                assert(views_of(only@)[0] == only@[0]@);
                assert(self.inner.params().admits(self.inner.pool()[0]));
            }
            let guess = only[0].clone();
            self.inner.commit_guess(guess.clone());
            return Some(guess);
        }
        let kept: Option<Number> = if self.is_first {
            match &self.first_guess {
                Some(g) => Some(g.clone()),
                None => None,
            }
        } else {
            None
        };
        let guess = match kept {
            Some(g) => g,
            None => {
                let found = self.best_guess();
                if self.is_first {
                    self.first_guess = Some(found.clone());
                }
                found
            },
        };
        self.inner.commit_guess(guess.clone());
        Some(guess)
    }

    fn respond_to_guess(&mut self, bulls: u8, cows: u8) {
        self.inner.respond_to_guess(bulls, cows);
        self.is_first = false;
    }

    fn clone_strategy(&self) -> (r: Self) {
        let n = self.inner.game().number_len();
        let first_guess = match &self.first_guess {
            Some(g) => Some(g.clone()),
            None => None,
        };
        BasicStrategy {
            inner: self.inner.clone_pool(),
            func: F::new(n as i32),
            is_first: self.is_first,
            first_guess,
        }
    }
}

/// The strategies that can be asked for.
#[derive(Debug, Clone, Copy, PartialEq, Eq, Structural)]
pub enum StrategyType {
    /// The fastest and simplest: the first value of the pool, unweighed.
    Naive,
    /// The guess that yields the most information on average.
    AmountInformation,
    /// The guess whose worst case is the smallest. Not the best on average.
    MinMax,
    /// The guess that Landy's formula picks.
    Landy,
    /// The guess that leaves the fewest candidates on average.
    MinAvg,
}

/// Whether the strategy `t` is computed in integers, so that
/// `create_strategy` builds it.
pub open spec fn is_integer_strategy(t: StrategyType) -> bool {
    t == StrategyType::Naive || t == StrategyType::MinMax || t == StrategyType::MinAvg
}

/// Any of the strategies that are computed in integers.
pub enum AnyStrategy {
    Naive(naive::NaiveStrategy),
    MinMax(BasicStrategy<minmax::MinMaxFunc>),
    MinAvg(BasicStrategy<min_avg::MinAvgFunc>),
}

impl AnyStrategy {
    /// The kind of the strategy.
    pub open spec fn kind(&self) -> StrategyType {
        match self {
            AnyStrategy::Naive(_) => StrategyType::Naive,
            AnyStrategy::MinMax(_) => StrategyType::MinMax,
            AnyStrategy::MinAvg(_) => StrategyType::MinAvg,
        }
    }

    /// What the guess of the strategy is, beyond what every strategy
    /// promises: the first value of the pool, or the best guess under the
    /// objective function.
    pub open spec fn picks(&self, guess: Seq<u8>) -> bool {
        match self {
            AnyStrategy::Naive(_) => guess == self.pool()[0],
            AnyStrategy::MinMax(_) => self.pool().len() > 1 ==> is_best_guess::<minmax::MinMaxFunc>(
                guess,
                self.pool(),
                self.vocabulary(),
                self.params().spec_number_len() as nat,
            ),
            AnyStrategy::MinAvg(_) => self.pool().len() > 1 ==> is_best_guess::<
                min_avg::MinAvgFunc,
            >(guess, self.pool(), self.vocabulary(), self.params().spec_number_len() as nat),
        }
    }
}

impl Strategy for AnyStrategy {
    open spec fn wf(&self) -> bool {
        match self {
            AnyStrategy::Naive(s) => s.wf(),
            AnyStrategy::MinMax(s) => s.wf(),
            AnyStrategy::MinAvg(s) => s.wf(),
        }
    }

    open spec fn params(&self) -> GameParams {
        match self {
            AnyStrategy::Naive(s) => s.params(),
            AnyStrategy::MinMax(s) => s.params(),
            AnyStrategy::MinAvg(s) => s.params(),
        }
    }

    open spec fn vocabulary(&self) -> Seq<Seq<u8>> {
        match self {
            AnyStrategy::Naive(s) => s.vocabulary(),
            AnyStrategy::MinMax(s) => s.vocabulary(),
            AnyStrategy::MinAvg(s) => s.vocabulary(),
        }
    }

    open spec fn pool(&self) -> Seq<Seq<u8>> {
        match self {
            AnyStrategy::Naive(s) => s.pool(),
            AnyStrategy::MinMax(s) => s.pool(),
            AnyStrategy::MinAvg(s) => s.pool(),
        }
    }

    open spec fn state(&self) -> StateView {
        match self {
            AnyStrategy::Naive(s) => s.state(),
            AnyStrategy::MinMax(s) => s.state(),
            AnyStrategy::MinAvg(s) => s.state(),
        }
    }

    fn game(&self) -> (g: GameParams) {
        match self {
            AnyStrategy::Naive(s) => s.game(),
            AnyStrategy::MinMax(s) => s.game(),
            AnyStrategy::MinAvg(s) => s.game(),
        }
    }

    fn init(&mut self)
        ensures
            final(self).kind() == old(self).kind(),
    {
        match self {
            AnyStrategy::Naive(s) => s.init(),
            AnyStrategy::MinMax(s) => s.init(),
            AnyStrategy::MinAvg(s) => s.init(),
        }
    }

    fn make_guess(&mut self) -> (r: Option<Number>)
        ensures
            final(self).kind() == old(self).kind(),
            r is Some ==> old(self).picks(r->0@),
    {
        match self {
            AnyStrategy::Naive(s) => s.make_guess(),
            AnyStrategy::MinMax(s) => s.make_guess(),
            AnyStrategy::MinAvg(s) => s.make_guess(),
        }
    }

    fn respond_to_guess(&mut self, bulls: u8, cows: u8)
        ensures
            final(self).kind() == old(self).kind(),
    {
        match self {
            AnyStrategy::Naive(s) => s.respond_to_guess(bulls, cows),
            AnyStrategy::MinMax(s) => s.respond_to_guess(bulls, cows),
            AnyStrategy::MinAvg(s) => s.respond_to_guess(bulls, cows),
        }
    }

    fn clone_strategy(&self) -> (r: Self)
        ensures
            r.kind() == self.kind(),
    {
        match self {
            AnyStrategy::Naive(s) => AnyStrategy::Naive(s.clone_strategy()),
            AnyStrategy::MinMax(s) => AnyStrategy::MinMax(s.clone_strategy()),
            AnyStrategy::MinAvg(s) => AnyStrategy::MinAvg(s.clone_strategy()),
        }
    }
}

/// The strategy `t` for the configuration `g`, before its first game. The
/// vocabulary is the universe of `g`: in lexicographic order for the naive
/// strategy, in generation order for the others. The strategies whose
/// objective is computed in floating point are not built here: for them the
/// result is `None`.
pub fn create_strategy(t: StrategyType, g: &GameParams) -> (r: Option<AnyStrategy>)
    ensures
        r is Some <==> is_integer_strategy(t),
        r is Some ==> {
            &&& r->0.kind() == t
            &&& r->0.wf()
            &&& r->0.params() == *g
            &&& r->0.pool() == Seq::<Seq<u8>>::empty()
            &&& r->0.state() == StateView::ReadyToGuess
            &&& t == StrategyType::Naive ==> naive::lists_universe_sorted(*g, r->0.vocabulary())
            &&& t != StrategyType::Naive ==> lists_universe(*g, r->0.vocabulary())
        },
{
    match t {
        StrategyType::Naive => Some(AnyStrategy::Naive(naive::NaiveStrategy::new(*g))),
        StrategyType::AmountInformation => None,
        StrategyType::MinMax => Some(
            AnyStrategy::MinMax(BasicStrategy::<minmax::MinMaxFunc>::new(g)),
        ),
        StrategyType::Landy => None,
        StrategyType::MinAvg => Some(
            AnyStrategy::MinAvg(BasicStrategy::<min_avg::MinAvgFunc>::new(g)),
        ),
    }
}

} // verus!

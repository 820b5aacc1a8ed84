//! The batch evaluator: it plays a strategy against hidden values that are
//! known, and keeps count of the guesses that the strategy needs.

use vstd::prelude::*;
use vstd::string::StringExecFns;
use crate::game_params::{digits_below, GameParams};
use crate::histogram::scored_as;
use crate::number::{text_of_digits, views_of, Number, MAX_BASE};
use crate::oracle::{calc_bc_with_size, score_of};
use crate::strategy::{lemma_partition_sound, StateView, Strategy};

verus! {

/// How many guesses a game may take before it is given up.
pub const GUESS_LIMIT: u32 = 30;

/// How many hidden values a worker takes from the queue at a time.
pub const CHUNK_SIZE: usize = 20;

/// What the games that were played so far took.
#[derive(Debug)]
pub struct EvaluationResult {
    /// The guesses of all games together, at most `u64::MAX`.
    pub total: u64,
    /// The guesses of the longest game.
    pub worst_guess_count: u32,
    /// The hidden value of the first of the longest games.
    pub worst_number: Option<Number>,
}

/// Why an evaluation was given up.
#[derive(Debug)]
pub enum EvaluationError {
    /// The strategy did not find the hidden value within the limit.
    NonConvergence(Number),
    /// The strategy ran out of candidates before it found the hidden value.
    Exhausted(Number),
}

impl EvaluationError {
    /// The hidden value that the evaluation failed on.
    pub open spec fn number(&self) -> Seq<u8> {
        match self {
            EvaluationError::NonConvergence(n) => n@,
            EvaluationError::Exhausted(n) => n@,
        }
    }

    /// The hidden value that the evaluation failed on.
    pub fn problem_number(&self) -> (r: &Number)
        ensures
            r@ == self.number(),
    {
        match self {
            EvaluationError::NonConvergence(n) => n,
            EvaluationError::Exhausted(n) => n,
        }
    }

    /// The error in words, with the hidden value that it came up on.
    pub fn message(&self) -> (r: String)
        requires
            forall|i: int| 0 <= i < self.number().len() ==> self.number()[i] < MAX_BASE,
        ensures
            r@ == match self {
                EvaluationError::NonConvergence(n) => "Probably it is an infinite loop. Problem number: "@
                    + text_of_digits(n@),
                EvaluationError::Exhausted(n) => "The strategy returned None. Problem number: "@
                    + text_of_digits(n@),
            },
    {
        match self {
            EvaluationError::NonConvergence(n) => {
                let mut s = String::from_str("Probably it is an infinite loop. Problem number: ");
                assert(self.number() == n@);
                let text = n.to_string();
                s.append(text.as_str());
                s
            },
            EvaluationError::Exhausted(n) => {
                let mut s = String::from_str("The strategy returned None. Problem number: ");
                assert(self.number() == n@);
                let text = n.to_string();
                s.append(text.as_str());
                s
            },
        }
    }
}

impl EvaluationResult {
    /// The result of no game.
    pub fn new() -> (r: EvaluationResult)
        ensures
            r.total == 0,
            r.worst_guess_count == 0,
            r.worst_number is None,
    {
        EvaluationResult { total: 0, worst_guess_count: 0, worst_number: None }
    }

    /// The result of the games of `self` and of `partial` together: the
    /// guesses are added up, saturating, and the longer of the longest games
    /// is kept, the one of `self` if they are equally long.
    pub fn merge(self, partial: EvaluationResult) -> (r: EvaluationResult)
        ensures
            r.total == if self.total + partial.total <= u64::MAX {
                (self.total + partial.total) as u64
            } else {
                u64::MAX
            },
            r.worst_guess_count == if self.worst_guess_count < partial.worst_guess_count {
                partial.worst_guess_count
            } else {
                self.worst_guess_count
            },
            r.worst_number == if self.worst_guess_count < partial.worst_guess_count {
                partial.worst_number
            } else {
                self.worst_number
            },
    {
        let total = self.total.saturating_add(partial.total);
        if self.worst_guess_count < partial.worst_guess_count {
            EvaluationResult {
                total,
                worst_guess_count: partial.worst_guess_count,
                worst_number: partial.worst_number,
            }
        } else {
            EvaluationResult {
                total,
                worst_guess_count: self.worst_guess_count,
                worst_number: self.worst_number,
            }
        }
    }
}

/// Takes the next chunk of work from the end of the queue: the last
/// `chunk_size` values, or all of them if there are fewer.
pub fn take_chunk(vals: &mut Vec<Number>, chunk_size: usize) -> (r: Vec<Number>)
    ensures
        r@.len() == if old(vals)@.len() < chunk_size {
            old(vals)@.len()
        } else {
            chunk_size as nat
        },
        final(vals)@ == old(vals)@.take(old(vals)@.len() - r@.len()),
        r@ == old(vals)@.skip(old(vals)@.len() - r@.len()),
{
    let n = vals.len();
    if n < chunk_size {
        vals.split_off(0)
    } else {
        vals.split_off(n - chunk_size)
    }
}

/// What follows from one answer of a strategy that was asked for a guess.
#[derive(Debug)]
pub enum GameStep {
    /// The guess is the hidden value: the game is won with this many
    /// guesses.
    Won(u32),
    /// The game is given up.
    GivenUp(EvaluationError),
    /// The guess is wrong: the bulls and the cows to answer it with, and
    /// the number of the next guess.
    Answer(u8, u8, u32),
}

/// Judges the answer `guess` of a strategy that was asked for its guess
/// number `counter` at the hidden value `hidden`. No guess gives the game up
/// as exhausted. The hidden value wins the game. A wrong guess gives the game
/// up when it was the last that the limit allows, and is answered with its
/// score otherwise.
pub fn judge_guess(guess: Option<&Number>, hidden: &Number, counter: u32, base: u8) -> (r:
    GameStep)
    requires
        1 <= counter <= GUESS_LIMIT,
        guess is Some ==> digits_below(guess->0@, base) && digits_below(hidden@, base) && (
        guess->0@.len() <= u8::MAX || hidden@.len() <= u8::MAX),
    ensures
        guess is None ==> r is GivenUp && r->GivenUp_0 is Exhausted && r->GivenUp_0.number()
            == hidden@,
        guess is Some && guess->0@ == hidden@ ==> r == GameStep::Won(counter),
        guess is Some && guess->0@ != hidden@ && counter == GUESS_LIMIT ==> r is GivenUp
            && r->GivenUp_0 is NonConvergence && r->GivenUp_0.number() == hidden@,
        guess is Some && guess->0@ != hidden@ && counter < GUESS_LIMIT ==> r is Answer && (
        r->Answer_0 as nat,
        r->Answer_1 as nat,
        ) == score_of(guess->0@, hidden@) && r->Answer_2 == counter + 1,
{
    match guess {
        None => GameStep::GivenUp(EvaluationError::Exhausted(hidden.clone())),
        Some(g) => {
            if g.same_as(hidden) {
                GameStep::Won(counter)
            } else if counter >= GUESS_LIMIT {
                GameStep::GivenUp(EvaluationError::NonConvergence(hidden.clone()))
            } else {
                let (bulls, cows) = calc_bc_with_size(g, hidden, base);
                GameStep::Answer(bulls, cows, counter + 1)
            }
        },
    }
}

/// Adds a game that was won with `counter` guesses at the hidden value
/// `hidden` to what was counted before: the guesses are added up, saturating,
/// and a game that is longer than every game before takes the record.
pub fn record_game(acc: EvaluationResult, hidden: &Number, counter: u32) -> (r: EvaluationResult)
    ensures
        r.total == if acc.total + counter <= u64::MAX {
            (acc.total + counter) as u64
        } else {
            u64::MAX
        },
        r.worst_guess_count == if counter > acc.worst_guess_count {
            counter
        } else {
            acc.worst_guess_count
        },
        counter > acc.worst_guess_count ==> r.worst_number is Some && r.worst_number->0@
            == hidden@,
        counter <= acc.worst_guess_count ==> r.worst_number == acc.worst_number,
{
    let total = acc.total.saturating_add(counter as u64);
    if counter > acc.worst_guess_count {
        EvaluationResult { total, worst_guess_count: counter, worst_number: Some(hidden.clone()) }
    } else {
        EvaluationResult {
            total,
            worst_guess_count: acc.worst_guess_count,
            worst_number: acc.worst_number,
        }
    }
}

/// The pool of a game at the hidden value `hidden` after the guesses
/// `guesses` were made and answered truthfully: the vocabulary, narrowed by
/// one response after another.
pub open spec fn pool_after(
    vocabulary: Seq<Seq<u8>>,
    hidden: Seq<u8>,
    guesses: Seq<Seq<u8>>,
) -> Seq<Seq<u8>>
    decreases guesses.len(),
{
    if guesses.len() == 0 {
        vocabulary
    } else {
        let guess = guesses.last();
        pool_after(vocabulary, hidden, guesses.drop_last()).filter(
            scored_as(guess, score_of(guess, hidden).0, score_of(guess, hidden).1),
        )
    }
}

/// `guess` is a guess that a strategy may make from the pool `pool`: the
/// pool is not empty, the guess is a value of the configuration, and the only
/// candidate of a pool of one is guessed as it is.
pub open spec fn is_fair_guess(g: GameParams, pool: Seq<Seq<u8>>, guess: Seq<u8>) -> bool {
    &&& pool.len() > 0
    &&& g.admits(guess)
    &&& pool.len() == 1 ==> guess == pool[0]
}

/// `guesses` are the guesses of a game at the hidden value `hidden`: each
/// is a fair guess from the pool that the guesses before it left, none but
/// the last is the hidden value, and they are no more than the limit allows.
pub open spec fn is_play(
    g: GameParams,
    vocabulary: Seq<Seq<u8>>,
    hidden: Seq<u8>,
    guesses: Seq<Seq<u8>>,
) -> bool {
    &&& guesses.len() <= GUESS_LIMIT
    &&& forall|j: int|
        0 <= j < guesses.len() ==> is_fair_guess(
            g,
            pool_after(vocabulary, hidden, guesses.take(j)),
            #[trigger] guesses[j],
        )
    &&& forall|j: int| 0 <= j < guesses.len() - 1 ==> #[trigger] guesses[j] != hidden
}

/// `r` is how the game with the guesses `guesses` ends. It is won with the
/// number of its guesses if the last guess is the hidden value. It is given
/// up for want of convergence if the limit is reached by a wrong guess. It is
/// given up as exhausted if the wrong guesses have left no candidate.
pub open spec fn is_outcome(
    vocabulary: Seq<Seq<u8>>,
    hidden: Seq<u8>,
    guesses: Seq<Seq<u8>>,
    r: Result<u32, EvaluationError>,
) -> bool {
    match r {
        Ok(k) => guesses.len() == k && k >= 1 && guesses.last() == hidden,
        Err(e) => e.number() == hidden && (guesses.len() > 0 ==> guesses.last() != hidden)
            && if e is NonConvergence {
            guesses.len() == GUESS_LIMIT
        } else {
            guesses.len() < GUESS_LIMIT && pool_after(vocabulary, hidden, guesses).len() == 0
        },
    }
}

/// `r` is the end of some game that a strategy with the vocabulary
/// `vocabulary` can play at the hidden value `hidden`.
pub open spec fn plays(
    g: GameParams,
    vocabulary: Seq<Seq<u8>>,
    hidden: Seq<u8>,
    r: Result<u32, EvaluationError>,
) -> bool {
    exists|guesses: Seq<Seq<u8>>| #[trigger]
        is_play(g, vocabulary, hidden, guesses) && is_outcome(vocabulary, hidden, guesses, r)
}

/// With an empty vocabulary every game is given up as exhausted.
pub proof fn lemma_empty_vocabulary_is_exhausted(
    g: GameParams,
    hidden: Seq<u8>,
    r: Result<u32, EvaluationError>,
)
    requires
        plays(g, Seq::<Seq<u8>>::empty(), hidden, r),
    ensures
        r is Err,
        r->Err_0 is Exhausted,
        r->Err_0.number() == hidden,
{
    let vocabulary = Seq::<Seq<u8>>::empty();
    let guesses = choose|guesses: Seq<Seq<u8>>| #[trigger]
        is_play(g, vocabulary, hidden, guesses) && is_outcome(vocabulary, hidden, guesses, r);
    if guesses.len() > 0 {
        assert(guesses.take(0) =~= Seq::<Seq<u8>>::empty());
        assert(is_fair_guess(g, pool_after(vocabulary, hidden, guesses.take(0)), guesses[0]));
    }
}

/// Where the hidden value is the whole vocabulary, the game is won with the
/// first guess.
pub proof fn lemma_only_candidate_is_found(
    g: GameParams,
    hidden: Seq<u8>,
    r: Result<u32, EvaluationError>,
)
    requires
        plays(g, seq![hidden], hidden, r),
    ensures
        r == Ok::<u32, EvaluationError>(1),
{
    let vocabulary = seq![hidden];
    let guesses = choose|guesses: Seq<Seq<u8>>| #[trigger]
        is_play(g, vocabulary, hidden, guesses) && is_outcome(vocabulary, hidden, guesses, r);
    if guesses.len() > 0 {
        assert(guesses.take(0) =~= Seq::<Seq<u8>>::empty());
        assert(is_fair_guess(g, pool_after(vocabulary, hidden, guesses.take(0)), guesses[0]));
        assert(guesses[0] == hidden);
        if guesses.len() > 1 {
            assert(guesses[0] != hidden);
        }
    }
}

/// A game at a hidden value of the vocabulary is never given up as
/// exhausted: the hidden value stays in the pool.
pub proof fn lemma_hidden_value_stays(
    vocabulary: Seq<Seq<u8>>,
    hidden: Seq<u8>,
    guesses: Seq<Seq<u8>>,
)
    requires
        vocabulary.contains(hidden),
    ensures
        pool_after(vocabulary, hidden, guesses).contains(hidden),
    decreases guesses.len(),
{
    if guesses.len() > 0 {
        let guess = guesses.last();
        lemma_hidden_value_stays(vocabulary, hidden, guesses.drop_last());
        lemma_partition_sound(
            pool_after(vocabulary, hidden, guesses.drop_last()),
            guess,
            score_of(guess, hidden).0,
            score_of(guess, hidden).1,
            hidden,
        );
    }
}

/// A game at a hidden value of the vocabulary in which no guess is the
/// hidden value, as when one wrong guess is made again and again, is given up
/// for want of convergence, with an error that names the hidden value.
pub proof fn lemma_wrong_guesses_do_not_converge(
    g: GameParams,
    vocabulary: Seq<Seq<u8>>,
    hidden: Seq<u8>,
    guesses: Seq<Seq<u8>>,
    r: Result<u32, EvaluationError>,
)
    requires
        is_play(g, vocabulary, hidden, guesses),
        is_outcome(vocabulary, hidden, guesses, r),
        vocabulary.contains(hidden),
        forall|j: int| 0 <= j < guesses.len() ==> #[trigger] guesses[j] != hidden,
    ensures
        r is Err,
        r->Err_0 is NonConvergence,
        r->Err_0.number() == hidden,
        guesses.len() == GUESS_LIMIT,
{
    lemma_hidden_value_stays(vocabulary, hidden, guesses);
    if r is Ok {
        assert(guesses[guesses.len() - 1] != hidden);
    }
}

/// Plays one game of the strategy against the hidden value: guesses are
/// made and answered truthfully until a guess is the hidden value. Returns
/// the number of guesses that it took. The game is given up with
/// `NonConvergence` when `GUESS_LIMIT` guesses have not found the value, and
/// with `Exhausted` when the strategy has no candidate left, which cannot
/// happen for a hidden value of its vocabulary.
///
/// Which guesses the strategy makes is the strategy's matter. Whatever they
/// are, the game is one that a strategy with this vocabulary can play, and
/// its end is the end that `judge_guess` finds for these guesses.
pub fn play_one_game<S: Strategy>(strategy: &mut S, hidden: &Number) -> (r: Result<
    u32,
    EvaluationError,
>)
    requires
        old(strategy).wf(),
        old(strategy).params().admits(hidden@),
    ensures
        final(strategy).wf(),
        final(strategy).params() == old(strategy).params(),
        final(strategy).vocabulary() == old(strategy).vocabulary(),
        plays(old(strategy).params(), old(strategy).vocabulary(), hidden@, r),
        r is Ok ==> final(strategy).state() == StateView::AwaitingResponse(hidden@),
        r is Err && r->Err_0 is Exhausted ==> final(strategy).state() == StateView::Exhausted
            && !old(strategy).vocabulary().contains(hidden@),
{
    let game = strategy.game();
    let base = game.base();
    let len = game.number_len();
    strategy.init();
    let mut counter: u32 = 1;
    let ghost g = strategy.params();
    let ghost vocabulary = strategy.vocabulary();
    let ghost mut guesses: Seq<Seq<u8>> = Seq::empty();
    loop
        invariant
            strategy.wf(),
            strategy.params() == old(strategy).params(),
            strategy.vocabulary() == old(strategy).vocabulary(),
            strategy.state() == StateView::ReadyToGuess,
            g == strategy.params(),
            vocabulary == strategy.vocabulary(),
            g.admits(hidden@),
            base == g.spec_base(),
            len == g.spec_number_len(),
            len <= MAX_BASE,
            1 <= counter <= GUESS_LIMIT,
            guesses.len() == counter - 1,
            strategy.pool() == pool_after(vocabulary, hidden@, guesses),
            forall|j: int|
                0 <= j < guesses.len() ==> is_fair_guess(
                    g,
                    pool_after(vocabulary, hidden@, guesses.take(j)),
                    #[trigger] guesses[j],
                ),
            forall|j: int| 0 <= j < guesses.len() ==> #[trigger] guesses[j] != hidden@,
        decreases GUESS_LIMIT - counter,
    {
        let ghost pool = strategy.pool();
        let guess = strategy.make_guess();
        let ghost longer = if guess is Some {
            guesses.push(guess->0@)
        } else {
            guesses
        };
        proof {
            if guess is Some {
                assert(longer.drop_last() =~= guesses);
                assert(longer.take(guesses.len() as int) =~= guesses);
                assert forall|j: int| 0 <= j < longer.len() implies is_fair_guess(
                    g,
                    pool_after(vocabulary, hidden@, longer.take(j)),
                    #[trigger] longer[j],
                ) by {
                    if j < guesses.len() {
                        assert(longer.take(j) =~= guesses.take(j));
                        assert(longer[j] == guesses[j]);
                    }
                }
            }
        }
        match judge_guess(guess.as_ref(), hidden, counter, base) {
            GameStep::Won(k) => {
                proof {
                    assert(is_play(g, vocabulary, hidden@, longer));
                    assert(is_outcome(vocabulary, hidden@, longer, Ok::<u32, EvaluationError>(k)));
                }
                return Ok(k);
            },
            GameStep::GivenUp(e) => {
                proof {
                    assert(is_play(g, vocabulary, hidden@, longer));
                    assert(is_outcome(
                        vocabulary,
                        hidden@,
                        longer,
                        Err::<u32, EvaluationError>(e),
                    ));
                    if e is Exhausted {
                        if vocabulary.contains(hidden@) {
                            lemma_hidden_value_stays(vocabulary, hidden@, guesses);
                            let k = choose|k: int| 0 <= k < pool.len() && pool[k] == hidden@;
                        }
                    }
                }
                return Err(e);
            },
            GameStep::Answer(bulls, cows, next) => {
                strategy.respond_to_guess(bulls, cows);
                counter = next;
                proof {
                    guesses = longer;
                }
            },
        }
    }
}

/// The guesses of all games together: the guesses counted before and the
/// guesses of each game, added up and held at `u64::MAX`.
pub open spec fn tally_total(start: u64, counts: Seq<u32>) -> u64
    decreases counts.len(),
{
    if counts.len() == 0 {
        start
    } else {
        let before = tally_total(start, counts.drop_last());
        if before + counts.last() <= u64::MAX {
            (before + counts.last()) as u64
        } else {
            u64::MAX
        }
    }
}

/// The guesses of the longest game: of the games counted before and of
/// the games with the guess counts `counts`.
pub open spec fn tally_worst(start: u32, counts: Seq<u32>) -> u32
    decreases counts.len(),
{
    if counts.len() == 0 {
        start
    } else {
        let before = tally_worst(start, counts.drop_last());
        if counts.last() > before {
            counts.last()
        } else {
            before
        }
    }
}

/// Which of the games with the guess counts `counts` holds the record: the
/// first of the longest, if it is longer than every game counted before;
/// `None` if the record stays where it was.
pub open spec fn tally_record(start: u32, counts: Seq<u32>) -> Option<int>
    decreases counts.len(),
{
    if counts.len() == 0 {
        None
    } else if counts.last() > tally_worst(start, counts.drop_last()) {
        Some(counts.len() - 1)
    } else {
        tally_record(start, counts.drop_last())
    }
}

/// `res` is what `acc` becomes when the games at the hidden values `values`
/// are added to it, won with the guess counts `counts`.
pub open spec fn tallies(
    acc: EvaluationResult,
    values: Seq<Seq<u8>>,
    counts: Seq<u32>,
    res: EvaluationResult,
) -> bool {
    &&& res.total == tally_total(acc.total, counts)
    &&& res.worst_guess_count == tally_worst(acc.worst_guess_count, counts)
    &&& match tally_record(acc.worst_guess_count, counts) {
        Some(i) => res.worst_number is Some && res.worst_number->0@ == values[i],
        None => res.worst_number == acc.worst_number,
    }
}

/// The games at the first hidden values of `values` can be won with the
/// guess counts `counts`, one game for each count.
pub open spec fn is_run(
    g: GameParams,
    vocabulary: Seq<Seq<u8>>,
    values: Seq<Seq<u8>>,
    counts: Seq<u32>,
) -> bool {
    &&& counts.len() <= values.len()
    &&& forall|i: int|
        0 <= i < counts.len() ==> plays(
            g,
            vocabulary,
            values[i],
            Ok::<u32, EvaluationError>(#[trigger] counts[i]),
        )
}

/// `r` is the end of an evaluation over `values` in which the games were
/// won with the guess counts `counts`. Either every game was won, and `r`
/// holds the tally of all of them. Or the game that follows the games won was
/// given up, and `r` is its error.
pub open spec fn is_evaluation(
    g: GameParams,
    vocabulary: Seq<Seq<u8>>,
    values: Seq<Seq<u8>>,
    acc: EvaluationResult,
    counts: Seq<u32>,
    r: Result<EvaluationResult, EvaluationError>,
) -> bool {
    &&& is_run(g, vocabulary, values, counts)
    &&& match r {
        Ok(res) => counts.len() == values.len() && tallies(acc, values, counts, res),
        Err(e) => counts.len() < values.len() && e.number() == values[counts.len() as int]
            && plays(g, vocabulary, values[counts.len() as int], Err::<u32, EvaluationError>(e)),
    }
}

/// An evaluation over no hidden value leaves what was counted as it was.
pub proof fn lemma_evaluation_of_nothing(
    g: GameParams,
    vocabulary: Seq<Seq<u8>>,
    acc: EvaluationResult,
    counts: Seq<u32>,
    r: Result<EvaluationResult, EvaluationError>,
)
    requires
        is_evaluation(g, vocabulary, Seq::<Seq<u8>>::empty(), acc, counts, r),
    ensures
        r is Ok,
        r->Ok_0.total == acc.total,
        r->Ok_0.worst_guess_count == acc.worst_guess_count,
        r->Ok_0.worst_number == acc.worst_number,
{
}

/// Where the vocabulary is empty, an evaluation over some hidden values is
/// given up at the first of them, as exhausted.
pub proof fn lemma_evaluation_without_vocabulary(
    g: GameParams,
    values: Seq<Seq<u8>>,
    acc: EvaluationResult,
    counts: Seq<u32>,
    r: Result<EvaluationResult, EvaluationError>,
)
    requires
        values.len() > 0,
        is_evaluation(g, Seq::<Seq<u8>>::empty(), values, acc, counts, r),
    ensures
        r is Err,
        r->Err_0 is Exhausted,
        r->Err_0.number() == values[0],
{
    let vocabulary = Seq::<Seq<u8>>::empty();
    if counts.len() > 0 {
        lemma_empty_vocabulary_is_exhausted(g, values[0], Ok::<u32, EvaluationError>(counts[0]));
    }
    lemma_empty_vocabulary_is_exhausted(g, values[0], Err::<u32, EvaluationError>(r->Err_0));
}

/// Where one value is the whole vocabulary and the only hidden value, the
/// evaluation counts one game of one guess.
pub proof fn lemma_evaluation_of_only_candidate(
    g: GameParams,
    hidden: Seq<u8>,
    acc: EvaluationResult,
    counts: Seq<u32>,
    r: Result<EvaluationResult, EvaluationError>,
)
    requires
        is_evaluation(g, seq![hidden], seq![hidden], acc, counts, r),
    ensures
        r is Ok,
        r->Ok_0.total == tally_total(acc.total, seq![1u32]),
        r->Ok_0.worst_guess_count == tally_worst(acc.worst_guess_count, seq![1u32]),
        acc.total < u64::MAX ==> r->Ok_0.total == acc.total + 1,
        acc.worst_guess_count == 0 ==> r->Ok_0.worst_guess_count == 1 && r->Ok_0.worst_number
            is Some && r->Ok_0.worst_number->0@ == hidden,
{
    let values = seq![hidden];
    if counts.len() > 0 {
        lemma_only_candidate_is_found(g, hidden, Ok::<u32, EvaluationError>(counts[0]));
        assert(counts =~= seq![1u32]);
    } else {
        lemma_only_candidate_is_found(g, hidden, Err::<u32, EvaluationError>(r->Err_0));
    }
    let one = seq![1u32];
    assert(one.drop_last() =~= Seq::<u32>::empty());
    assert(one.last() == 1);
    assert(tally_total(acc.total, one.drop_last()) == acc.total);
    assert(tally_worst(acc.worst_guess_count, one.drop_last()) == acc.worst_guess_count);
}

/// Plays one game against each of the hidden values `values`, in their
/// order, and adds what the games took to `acc`. The first game that is given
/// up ends the evaluation with its error.
///
/// How many guesses a game takes is the strategy's matter. Whatever the
/// counts are, the result is their tally as `record_game` keeps it, and an
/// error is the error of the game that follows the games won.
pub fn evaluate_values<S: Strategy>(
    strategy: &mut S,
    values: &Vec<Number>,
    acc: EvaluationResult,
) -> (r: Result<EvaluationResult, EvaluationError>)
    requires
        old(strategy).wf(),
        forall|i: int| 0 <= i < values.len() ==> old(strategy).params().admits(#[trigger] values@[i]@),
    ensures
        final(strategy).wf(),
        final(strategy).params() == old(strategy).params(),
        final(strategy).vocabulary() == old(strategy).vocabulary(),
        exists|counts: Seq<u32>| #[trigger]
            is_evaluation(
                old(strategy).params(),
                old(strategy).vocabulary(),
                views_of(values@),
                acc,
                counts,
                r,
            ),
{
    let ghost g = strategy.params();
    let ghost vocabulary = strategy.vocabulary();
    let ghost hidden_values = views_of(values@);
    let ghost mut counts: Seq<u32> = Seq::empty();
    let mut res = acc;
    let mut i: usize = 0;
    while i < values.len()
        invariant
            i <= values.len(),
            strategy.wf(),
            strategy.params() == old(strategy).params(),
            strategy.vocabulary() == old(strategy).vocabulary(),
            g == strategy.params(),
            vocabulary == strategy.vocabulary(),
            hidden_values == views_of(values@),
            forall|i: int| 0 <= i < values.len() ==> g.admits(#[trigger] values@[i]@),
            counts.len() == i,
            is_run(g, vocabulary, hidden_values, counts),
            tallies(acc, hidden_values, counts, res),
        decreases values.len() - i,
    {
        let hidden = &values[i];
        proof {
            assert(hidden_values[i as int] == hidden@);
        }
        match play_one_game(strategy, hidden) {
            Ok(counter) => {
                let ghost longer = counts.push(counter);
                let ghost before = res;
                res = record_game(res, hidden, counter);
                proof {
                    assert(longer.drop_last() =~= counts);
                    assert forall|k: int| 0 <= k < longer.len() implies plays(
                        g,
                        vocabulary,
                        hidden_values[k],
                        Ok::<u32, EvaluationError>(#[trigger] longer[k]),
                    ) by {
                        if k < counts.len() {
                            assert(longer[k] == counts[k]);
                        }
                    }
                    assert(tallies(acc, hidden_values, longer, res));
                    counts = longer;
                }
            },
            Err(e) => {
                proof {
                    assert(is_evaluation(
                        g,
                        vocabulary,
                        hidden_values,
                        acc,
                        counts,
                        Err::<EvaluationResult, EvaluationError>(e),
                    ));
                }
                return Err(e);
            },
        }
        i += 1;
    }
    proof {
        assert(is_evaluation(
            g,
            vocabulary,
            hidden_values,
            acc,
            counts,
            Ok::<EvaluationResult, EvaluationError>(res),
        ));
    }
    Ok(res)
}

} // verus!

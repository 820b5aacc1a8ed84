//! The strategy without an objective: it guesses the first value that is
//! still possible.

use vstd::prelude::*;
use crate::comb_utils::{ints_of_u8, lemma_lex_total, lex_less};
use crate::counting::{
    all_distinct, count_of, lemma_count_is_multiset_count, lemma_count_of_member, lemma_count_two,
    lemma_count_witness, lemma_distinct_count,
};
use crate::game_params::GameParams;
use crate::generator::{collect_numbers, lemma_listing_is_exact};
use crate::number::{views_of, Number};
use crate::strategy::{all_admitted, CandidatePool, StateView, Strategy};
use crate::universe::{lemma_ints_injective, lists_universe};

verus! {

/// The views of a sequence of rows of digits.
pub open spec fn rows_views(rows: Seq<Vec<u8>>) -> Seq<Seq<u8>> {
    Seq::new(rows.len(), |i: int| rows[i]@)
}

/// `<[Vec<u8>]>::sort` of std: the rows are rearranged into ascending
/// order, which for rows of bytes is the lexicographic order. The contract
/// claims that no row is lost or added, and that no row comes before a
/// smaller one.
#[verifier::external_body]
fn sort_rows(rows: &mut Vec<Vec<u8>>)
    ensures
        rows_views(final(rows)@).to_multiset() == rows_views(old(rows)@).to_multiset(),
        forall|i: int, j: int|
            0 <= i < j < final(rows).len() ==> !lex_less(
                ints_of_u8(#[trigger] final(rows)@[j]@),
                ints_of_u8(#[trigger] final(rows)@[i]@),
            ),
{
    rows.sort();
}

/// A copy of a row of digits.
fn copy_digits(v: &Vec<u8>) -> (r: Vec<u8>)
    ensures
        r@ == v@,
{
    let mut r: Vec<u8> = Vec::new();
    let mut i: usize = 0;
    while i < v.len()
        invariant
            i <= v.len(),
            r@ =~= v@.take(i as int),
        decreases v.len() - i,
    {
        r.push(v[i]);
        i += 1;
    }
    assert(v@.take(v@.len() as int) =~= v@);
    r
}

/// `listing` holds the universe of `g` in lexicographic order: values of
/// `g` only, each value of `g`, and each before every greater one.
pub open spec fn lists_universe_sorted(g: GameParams, listing: Seq<Seq<u8>>) -> bool {
    &&& forall|i: int, j: int|
        0 <= i < j < listing.len() ==> lex_less(
            ints_of_u8(#[trigger] listing[i]),
            ints_of_u8(#[trigger] listing[j]),
        )
    &&& forall|v: Seq<u8>| g.admits(v) <==> listing.contains(v)
}

/// The sorted rearrangement of a listing of a universe lists the universe
/// in lexicographic order.
proof fn lemma_sorted_listing(g: GameParams, listing: Seq<Seq<u8>>, sorted: Seq<Seq<u8>>)
    requires
        lists_universe(g, listing),
        sorted.to_multiset() == listing.to_multiset(),
        forall|i: int, j: int|
            0 <= i < j < sorted.len() ==> !lex_less(
                ints_of_u8(#[trigger] sorted[j]),
                ints_of_u8(#[trigger] sorted[i]),
            ),
    ensures
        lists_universe_sorted(g, sorted),
        all_admitted(g, sorted),
{
    lemma_listing_is_exact(g, listing);
    assert(all_distinct(listing)) by {
        assert forall|i: int, j: int| 0 <= i < j < listing.len() implies listing[i]
            != listing[j] by {}
    }
    assert forall|v: Seq<u8>| count_of(sorted, v) == count_of(listing, v) by {
        lemma_count_is_multiset_count(sorted, v);
        lemma_count_is_multiset_count(listing, v);
    }
    assert forall|v: Seq<u8>| g.admits(v) <==> sorted.contains(v) by {
        if g.admits(v) {
            let k = choose|k: int| 0 <= k < listing.len() && listing[k] == v;
            lemma_count_of_member(listing, k);
            let k2 = lemma_count_witness(sorted, v);
        }
        if sorted.contains(v) {
            let k = choose|k: int| 0 <= k < sorted.len() && sorted[k] == v;
            lemma_count_of_member(sorted, k);
            let k2 = lemma_count_witness(listing, v);
            assert(listing.contains(v));
        }
    }
    assert forall|i: int| 0 <= i < sorted.len() implies g.admits(#[trigger] sorted[i]) by {
        assert(sorted.contains(sorted[i]));
    }
    assert forall|i: int, j: int| 0 <= i < j < sorted.len() implies lex_less(
        ints_of_u8(#[trigger] sorted[i]),
        ints_of_u8(#[trigger] sorted[j]),
    ) by {
        assert(g.admits(sorted[i]) && g.admits(sorted[j]));
        lemma_lex_total(ints_of_u8(sorted[i]), ints_of_u8(sorted[j]));
        if ints_of_u8(sorted[i]) == ints_of_u8(sorted[j]) {
            lemma_ints_injective(sorted[i], sorted[j]);
            lemma_count_two(sorted, i, j);
            lemma_distinct_count(listing, sorted[i]);
        }
    }
}

/// The strategy that guesses the first value of the pool.
pub struct NaiveStrategy {
    inner: CandidatePool,
}

impl NaiveStrategy {
    /// The strategy for the configuration `game`; its vocabulary is the
    /// universe of `game` in lexicographic order.
    pub fn new(game: GameParams) -> (r: NaiveStrategy)
        ensures
            r.wf(),
            r.params() == game,
            lists_universe_sorted(game, r.vocabulary()),
            r.pool() == Seq::<Seq<u8>>::empty(),
            r.state() == StateView::ReadyToGuess,
    {
        let all_values = collect_numbers(&game);
        let mut rows: Vec<Vec<u8>> = Vec::new();
        let mut i: usize = 0;
        while i < all_values.len()
            invariant
                i <= all_values.len(),
                rows_views(rows@) =~= views_of(all_values@).take(i as int),
            decreases all_values.len() - i,
        {
            let ghost before = rows_views(rows@);
            rows.push(copy_digits(all_values[i].digits()));
            proof {
                assert(rows_views(rows@) =~= before.push(all_values@[i as int]@));
            }
            i += 1;
        }
        proof {
            assert(views_of(all_values@).take(all_values@.len() as int) =~= views_of(
                all_values@,
            ));
        }
        sort_rows(&mut rows);
        let mut sorted: Vec<Number> = Vec::new();
        let mut k: usize = 0;
        while k < rows.len()
            invariant
                k <= rows.len(),
                views_of(sorted@) =~= rows_views(rows@).take(k as int),
            decreases rows.len() - k,
        {
            let ghost before = views_of(sorted@);
            sorted.push(Number::new(copy_digits(&rows[k])));
            proof {
                assert(views_of(sorted@) =~= before.push(rows@[k as int]@));
            }
            k += 1;
        }
        proof {
            assert(rows_views(rows@).take(rows@.len() as int) =~= rows_views(rows@));
            let sv = views_of(sorted@);
            assert forall|i: int, j: int| 0 <= i < j < sv.len() implies !lex_less(
                ints_of_u8(#[trigger] sv[j]),
                ints_of_u8(#[trigger] sv[i]),
            ) by {
                assert(sv[j] == rows@[j]@ && sv[i] == rows@[i]@);
            }
            lemma_sorted_listing(game, views_of(all_values@), sv);
        }
        NaiveStrategy { inner: CandidatePool::new(game, sorted) }
    }

    /// The pool of candidates that the strategy works on.
    pub fn candidate_pool(&self) -> (r: &CandidatePool)
        ensures
            r.wf() == self.wf(),
            r.params() == self.params(),
            r.vocabulary() == self.vocabulary(),
            r.pool() == self.pool(),
            r.state() == self.state(),
    {
        &self.inner
    }
}

impl Strategy for NaiveStrategy {
    closed spec fn wf(&self) -> bool {
        self.inner.wf()
    }

    closed spec fn params(&self) -> GameParams {
        self.inner.params()
    }

    closed spec fn vocabulary(&self) -> Seq<Seq<u8>> {
        self.inner.vocabulary()
    }

    closed spec fn pool(&self) -> Seq<Seq<u8>> {
        self.inner.pool()
    }

    closed spec fn state(&self) -> StateView {
        self.inner.state()
    }

    fn game(&self) -> (g: GameParams) {
        self.inner.game()
    }

    fn init(&mut self) {
        self.inner.init();
    }

    fn make_guess(&mut self) -> (r: Option<Number>)
        ensures
            old(self).pool().len() > 0 ==> r->0@ == old(self).pool()[0],
    {
        proof {
            self.inner.lemma_wf();
        }
        let candidates = self.inner.candidates();
        proof {
            assert(views_of(candidates@).len() == candidates.len());
        }
        if candidates.len() == 0 {
            self.inner.exhaust();
            return None;
        }
        let guess = candidates[0].clone();
        proof {
            assert(views_of(candidates@)[0] == candidates@[0]@);
            assert(self.inner.params().admits(self.inner.pool()[0]));
        }
        self.inner.commit_guess(guess.clone());
        Some(guess)
    }

    fn respond_to_guess(&mut self, bulls: u8, cows: u8) {
        self.inner.respond_to_guess(bulls, cows);
    }

    fn clone_strategy(&self) -> (r: Self) {
        NaiveStrategy { inner: self.inner.clone_pool() }
    }
}

} // verus!

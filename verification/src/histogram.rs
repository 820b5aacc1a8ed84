//! How a guess of the numeric puzzle splits a pool of candidates: the
//! buckets of candidates that would answer it with the same score.

use vstd::prelude::*;
use crate::comb_utils::ints_of_usize;
use crate::counting::{count_below, lemma_count_below_bound};
use crate::game_params::digits_below;
use crate::number::{views_of, Number};
use crate::oracle::{calc_bc_with_size, lemma_score_bounds, score_of};
use crate::selection::{is_distribution, lemma_sum_of_concat, sum_of};

verus! {

/// The candidates that answer the guess with the score `(bulls, cows)`.
pub open spec fn scored_as(guess: Seq<u8>, bulls: nat, cows: nat) -> spec_fn(Seq<u8>) -> bool {
    |x: Seq<u8>| score_of(guess, x) == (bulls, cows)
}

/// The places of the pool whose candidate answers the guess with the score
/// `(bulls, cows)`.
pub open spec fn in_bucket(guess: Seq<u8>, pool: Seq<Seq<u8>>, bulls: nat, cows: nat) -> spec_fn(
    int,
) -> bool {
    |x: int| 0 <= x < pool.len() && score_of(guess, pool[x]) == (bulls, cows)
}

/// How many of the first `m` candidates answer the guess with the score
/// `(bulls, cows)`.
pub open spec fn bucket_upto(
    guess: Seq<u8>,
    pool: Seq<Seq<u8>>,
    bulls: nat,
    cows: nat,
    m: nat,
) -> nat {
    count_below(in_bucket(guess, pool, bulls, cows), m)
}

/// The buckets of one number of bulls, by the number of cows below
/// `width`, among the first `m` candidates.
pub open spec fn row_upto(guess: Seq<u8>, pool: Seq<Seq<u8>>, bulls: nat, width: nat, m: nat) -> Seq<
    int,
> {
    Seq::new(width, |c: int| bucket_upto(guess, pool, bulls, c as nat, m) as int)
}

/// The entries that are not 0.
pub open spec fn nonzero() -> spec_fn(int) -> bool {
    |x: int| x != 0
}

/// The sizes of the buckets that are not empty, for the numbers of bulls
/// below `rows`, ordered by bulls and then by cows.
pub open spec fn histogram_rows(guess: Seq<u8>, pool: Seq<Seq<u8>>, rows: nat, width: nat) -> Seq<
    int,
>
    decreases rows,
{
    if rows == 0 {
        Seq::empty()
    } else {
        histogram_rows(guess, pool, (rows - 1) as nat, width) + row_upto(
            guess,
            pool,
            (rows - 1) as nat,
            width,
            pool.len(),
        ).filter(nonzero())
    }
}

/// The histogram of the guess over the pool of candidates of length `len`:
/// the sizes of its buckets that are not empty, ordered by score.
pub open spec fn histogram(guess: Seq<u8>, pool: Seq<Seq<u8>>, len: nat) -> Seq<int> {
    histogram_rows(guess, pool, len + 1, len + 1)
}

/// The sum of all buckets for the numbers of bulls below `rows`, among the
/// first `m` candidates.
pub open spec fn grid_sum(guess: Seq<u8>, pool: Seq<Seq<u8>>, rows: nat, width: nat, m: nat) -> int
    decreases rows,
{
    if rows == 0 {
        0
    } else {
        grid_sum(guess, pool, (rows - 1) as nat, width, m) + sum_of(
            row_upto(guess, pool, (rows - 1) as nat, width, m),
        )
    }
}

proof fn lemma_row_sum_step(guess: Seq<u8>, pool: Seq<Seq<u8>>, bulls: nat, width: nat, m: nat)
    requires
        m < pool.len(),
    ensures
        sum_of(row_upto(guess, pool, bulls, width, m + 1)) == sum_of(
            row_upto(guess, pool, bulls, width, m),
        ) + if score_of(guess, pool[m as int]).0 == bulls && score_of(guess, pool[m as int]).1
            < width {
            1int
        } else {
            0int
        },
    decreases width,
{
    if width > 0 {
        lemma_row_sum_step(guess, pool, bulls, (width - 1) as nat, m);
        assert(row_upto(guess, pool, bulls, width, m).drop_last() =~= row_upto(
            guess,
            pool,
            bulls,
            (width - 1) as nat,
            m,
        ));
        assert(row_upto(guess, pool, bulls, width, m + 1).drop_last() =~= row_upto(
            guess,
            pool,
            bulls,
            (width - 1) as nat,
            m + 1,
        ));
    }
}

proof fn lemma_row_sum_zero(guess: Seq<u8>, pool: Seq<Seq<u8>>, bulls: nat, width: nat)
    ensures
        sum_of(row_upto(guess, pool, bulls, width, 0)) == 0,
    decreases width,
{
    if width > 0 {
        lemma_row_sum_zero(guess, pool, bulls, (width - 1) as nat);
        assert(row_upto(guess, pool, bulls, width, 0).drop_last() =~= row_upto(
            guess,
            pool,
            bulls,
            (width - 1) as nat,
            0,
        ));
    }
}

proof fn lemma_grid_sum_step(guess: Seq<u8>, pool: Seq<Seq<u8>>, rows: nat, width: nat, m: nat)
    requires
        m < pool.len(),
    ensures
        grid_sum(guess, pool, rows, width, m + 1) == grid_sum(guess, pool, rows, width, m)
            + if score_of(guess, pool[m as int]).0 < rows && score_of(guess, pool[m as int]).1
            < width {
            1int
        } else {
            0int
        },
    decreases rows,
{
    if rows > 0 {
        lemma_grid_sum_step(guess, pool, (rows - 1) as nat, width, m);
        lemma_row_sum_step(guess, pool, (rows - 1) as nat, width, m);
    }
}

proof fn lemma_grid_sum_zero(guess: Seq<u8>, pool: Seq<Seq<u8>>, rows: nat, width: nat)
    ensures
        grid_sum(guess, pool, rows, width, 0) == 0,
    decreases rows,
{
    if rows > 0 {
        lemma_grid_sum_zero(guess, pool, (rows - 1) as nat, width);
        lemma_row_sum_zero(guess, pool, (rows - 1) as nat, width);
    }
}

/// Every candidate falls into one bucket of the grid.
proof fn lemma_grid_sum_total(guess: Seq<u8>, pool: Seq<Seq<u8>>, len: nat, m: nat)
    requires
        m <= pool.len(),
        forall|x: int| 0 <= x < pool.len() ==> (#[trigger] pool[x]).len() == len,
    ensures
        grid_sum(guess, pool, len + 1, len + 1, m) == m,
    decreases m,
{
    if m == 0 {
        lemma_grid_sum_zero(guess, pool, len + 1, len + 1);
    } else {
        lemma_grid_sum_total(guess, pool, len, (m - 1) as nat);
        lemma_grid_sum_step(guess, pool, len + 1, len + 1, (m - 1) as nat);
        assert(pool[m - 1].len() == len);
        lemma_score_bounds(guess, pool[m - 1]);
    }
}

proof fn lemma_nonzero_sum(s: Seq<int>)
    ensures
        sum_of(s.filter(nonzero())) == sum_of(s),
        forall|i: int| 0 <= i < s.filter(nonzero()).len() ==> #[trigger] s.filter(nonzero())[i] != 0,
    decreases s.len(),
{
    reveal(Seq::filter);
    if s.len() > 0 {
        lemma_nonzero_sum(s.drop_last());
        let rest = s.drop_last().filter(nonzero());
        if nonzero()(s.last()) {
            assert(rest.push(s.last()).drop_last() =~= rest);
        }
    }
}

proof fn lemma_histogram_rows(guess: Seq<u8>, pool: Seq<Seq<u8>>, rows: nat, width: nat)
    ensures
        sum_of(histogram_rows(guess, pool, rows, width)) == grid_sum(
            guess,
            pool,
            rows,
            width,
            pool.len(),
        ),
        forall|i: int|
            0 <= i < histogram_rows(guess, pool, rows, width).len() ==> #[trigger] histogram_rows(
                guess,
                pool,
                rows,
                width,
            )[i] > 0,
    decreases rows,
{
    if rows > 0 {
        let before = histogram_rows(guess, pool, (rows - 1) as nat, width);
        let row = row_upto(guess, pool, (rows - 1) as nat, width, pool.len());
        lemma_histogram_rows(guess, pool, (rows - 1) as nat, width);
        lemma_nonzero_sum(row);
        lemma_sum_of_concat(before, row.filter(nonzero()));
        let h = histogram_rows(guess, pool, rows, width);
        assert forall|i: int| 0 <= i < h.len() implies #[trigger] h[i] > 0 by {
            if i >= before.len() {
                let f = row.filter(nonzero());
                let k = i - before.len();
                assert(h[i] == f[k]);
                assert(f.contains(f[k]));
                row.lemma_filter_contains_rev(nonzero(), f[k]);
                let c = choose|c: int| 0 <= c < row.len() && row[c] == f[k];
                assert(row[c] >= 0);
            } else {
                assert(h[i] == before[i]);
            }
        }
    }
}

/// The histogram of a guess over a pool of candidates of one length is a
/// distribution of the pool.
pub proof fn lemma_histogram_is_distribution(guess: Seq<u8>, pool: Seq<Seq<u8>>, len: nat)
    requires
        forall|x: int| 0 <= x < pool.len() ==> (#[trigger] pool[x]).len() == len,
    ensures
        is_distribution(histogram(guess, pool, len), pool.len() as int),
{
    lemma_histogram_rows(guess, pool, len + 1, len + 1);
    lemma_grid_sum_total(guess, pool, len, pool.len());
}

/// The histogram of the guess `attempt` over the pool: the sizes of the
/// buckets that are not empty, ordered by score.
pub fn distribution(attempt: &Number, pool: &Vec<Number>, len: u8, base: u8) -> (r: Vec<usize>)
    requires
        digits_below(attempt@, base),
        forall|x: int|
            0 <= x < pool.len() ==> (#[trigger] pool@[x])@.len() == len && digits_below(
                pool@[x]@,
                base,
            ),
    ensures
        ints_of_usize(r@) == histogram(attempt@, views_of(pool@), len as nat),
        is_distribution(ints_of_usize(r@), pool.len() as int),
{
    let n: usize = len as usize + 1;
    let ghost g = attempt@;
    let ghost ps = views_of(pool@);
    let mut hist: Vec<Vec<usize>> = Vec::new();
    let mut b: usize = 0;
    while b < n
        invariant
            b <= n,
            hist.len() == b,
            forall|i: int| 0 <= i < b ==> (#[trigger] hist@[i]).len() == n,
            forall|i: int, j: int| 0 <= i < b && 0 <= j < n ==> #[trigger] hist@[i]@[j] == 0,
        decreases n - b,
    {
        hist.push(vec![0usize; n]);
        b += 1;
    }
    let mut x: usize = 0;
    while x < pool.len()
        invariant
            x <= pool.len(),
            n == len + 1,
            g == attempt@,
            ps == views_of(pool@),
            digits_below(g, base),
            forall|x: int|
                0 <= x < pool.len() ==> (#[trigger] pool@[x])@.len() == len && digits_below(
                    pool@[x]@,
                    base,
                ),
            hist.len() == n,
            forall|i: int| 0 <= i < n ==> (#[trigger] hist@[i]).len() == n,
            forall|i: int, j: int|
                0 <= i < n && 0 <= j < n ==> #[trigger] hist@[i]@[j] == bucket_upto(
                    g,
                    ps,
                    i as nat,
                    j as nat,
                    x as nat,
                ),
        decreases pool.len() - x,
    {
        proof {
            assert(pool@[x as int]@.len() == len);
            assert(ps[x as int] == pool@[x as int]@);
            lemma_score_bounds(g, ps[x as int]);
        }
        let (bulls, cows) = calc_bc_with_size(attempt, &pool[x], base);
        proof {
            lemma_count_below_bound(in_bucket(g, ps, bulls as nat, cows as nat), x as nat);
        }
        let old_count = hist[bulls as usize][cows as usize];
        hist[bulls as usize][cows as usize] = old_count + 1;
        x += 1;
    }
    let mut out: Vec<usize> = Vec::new();
    let mut b: usize = 0;
    while b < n
        invariant
            b <= n,
            n == len + 1,
            x == pool.len(),
            ps.len() == pool.len(),
            hist.len() == n,
            forall|i: int| 0 <= i < n ==> (#[trigger] hist@[i]).len() == n,
            forall|i: int, j: int|
                0 <= i < n && 0 <= j < n ==> #[trigger] hist@[i]@[j] == bucket_upto(
                    g,
                    ps,
                    i as nat,
                    j as nat,
                    x as nat,
                ),
            ints_of_usize(out@) == histogram_rows(g, ps, b as nat, n as nat),
        decreases n - b,
    {
        let ghost before = ints_of_usize(out@);
        let ghost row = row_upto(g, ps, b as nat, n as nat, ps.len());
        let mut c: usize = 0;
        proof {
            reveal(Seq::filter);
            assert(row.take(0).filter(nonzero()) =~= Seq::<int>::empty());
            assert(ints_of_usize(out@) =~= before + row.take(0).filter(nonzero()));
        }
        while c < n
            invariant
                c <= n,
                b < n,
                x == pool.len(),
                ps.len() == pool.len(),
                hist.len() == n,
                forall|i: int| 0 <= i < n ==> (#[trigger] hist@[i]).len() == n,
                forall|i: int, j: int|
                    0 <= i < n && 0 <= j < n ==> #[trigger] hist@[i]@[j] == bucket_upto(
                        g,
                        ps,
                        i as nat,
                        j as nat,
                        x as nat,
                    ),
                row == row_upto(g, ps, b as nat, n as nat, ps.len()),
                ints_of_usize(out@) == before + row.take(c as int).filter(nonzero()),
            decreases n - c,
        {
            let v = hist[b][c];
            let ghost so_far = ints_of_usize(out@);
            proof {
                reveal(Seq::filter);
                assert(row.take(c + 1).drop_last() =~= row.take(c as int));
                assert(row.take(c + 1).last() == row[c as int]);
                assert(row[c as int] == v);
            }
            if v != 0 {
                out.push(v);
                proof {
                    assert(ints_of_usize(out@) =~= so_far.push(v as int));
                    assert(ints_of_usize(out@) =~= before + row.take(c + 1).filter(nonzero()));
                }
            }
            c += 1;
        }
        proof {
            assert(row.take(n as int) =~= row);
        }
        b += 1;
    }
    proof {
        lemma_histogram_is_distribution(g, ps, len as nat);
    }
    out
}

} // verus!

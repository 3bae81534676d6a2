//! Building the candidates of one currency group: every unordered pair of
//! venues, the long side being the one with the higher funding rate.
use crate::decimal::{aligned, dec_abs, dec_le, dec_sub, dec_times, decimal_quotient, max_scale, Dec};
use crate::model::{Funding, PositionCandidate};
use itertools::Itertools;
use vstd::prelude::*;

verus! {

/// Scales a per-hour rate to a yearly percentage: 24 hours, 365 days, 100 percent.
pub const ANNUALIZATION_FACTOR: i128 = 24 * 365 * 100;

/// The pairs `(i, j)` with `start <= i < j < n`, ordered by `i` and then by `j`.
pub open spec fn pairs_from(start: int, n: int) -> Seq<(int, int)>
    decreases n - start,
{
    if start >= n {
        Seq::empty()
    } else {
        Seq::new((n - start - 1) as nat, |k: int| (start, start + 1 + k)) + pairs_from(start + 1, n)
    }
}

/// Every unordered pair of positions below `n`, once, in lexicographic order.
pub open spec fn index_pairs(n: int) -> Seq<(int, int)> {
    pairs_from(0, n)
}

/// Whether the exact figures of the pair `(a, b)` fit in the decimal type.
pub open spec fn pair_fits(a: Funding, b: Funding) -> bool {
    match dec_sub(a.funding_rate, b.funding_rate) {
        Some(d) => match dec_abs(d) {
            Some(s) => dec_times(s, ANNUALIZATION_FACTOR as int) is Some,
            None => false,
        },
        None => false,
    }
}

/// `(bid - ask) / bid * 100` for the long side's bid and the short side's ask;
/// none where either price is missing, or where the quotient cannot be formed
/// (a zero bid among them).
pub open spec fn price_spread_of(long: Funding, short: Funding) -> Option<Dec> {
    match (long.best_bid, short.best_ask) {
        (Some(bid), Some(ask)) => match dec_sub(bid, ask) {
            Some(d) => match decimal_quotient(d, bid) {
                Some(q) => dec_times(q, 100),
                None => None,
            },
            None => None,
        },
        _ => None,
    }
}

/// The candidate for the pair `(a, b)`: `a` is long when `a`'s rate minus `b`'s is
/// not negative, else `b` is.
pub open spec fn candidate_of(a: Funding, b: Funding) -> PositionCandidate {
    let diff = dec_sub(a.funding_rate, b.funding_rate).unwrap();
    let long = if diff.mantissa >= 0 {
        a
    } else {
        b
    };
    let short = if diff.mantissa >= 0 {
        b
    } else {
        a
    };
    let spread = dec_abs(diff).unwrap();
    PositionCandidate {
        currency_name: a.currency_name,
        total_funding: spread,
        apy: dec_times(spread, ANNUALIZATION_FACTOR as int).unwrap(),
        long_on: long.exchange,
        long_funding: long.funding_rate,
        long_market: long.market_name,
        short_on: short.exchange,
        short_funding: short.funding_rate,
        short_market: short.market_name,
        oi_long: long.open_interest,
        oi_short: short.open_interest,
        spread: price_spread_of(long, short),
    }
}

/// Whether every pair of the group has figures that fit.
pub open spec fn group_fits(g: Seq<Funding>) -> bool {
    forall|k: int|
        0 <= k < index_pairs(g.len() as int).len() ==> #[trigger] pair_fits(
            g[index_pairs(g.len() as int)[k].0],
            g[index_pairs(g.len() as int)[k].1],
        )
}

/// The candidates of a group, one per pair of positions, in the order of the pairs.
pub open spec fn pair_candidates_of(g: Seq<Funding>) -> Seq<PositionCandidate> {
    index_pairs(g.len() as int).map_values(|p: (int, int)| candidate_of(g[p.0], g[p.1]))
}

/// The candidates of the pairs `ps` of `g` whose figures fit, in the order of `ps`.
pub open spec fn fitting_candidates(g: Seq<Funding>, ps: Seq<(int, int)>) -> Seq<PositionCandidate>
    decreases ps.len(),
{
    if ps.len() == 0 {
        Seq::empty()
    } else {
        let p = ps.last();
        let rest = fitting_candidates(g, ps.drop_last());
        if pair_fits(g[p.0], g[p.1]) {
            rest.push(candidate_of(g[p.0], g[p.1]))
        } else {
            rest
        }
    }
}

/// The candidates a group gives: one per pair of positions whose figures fit,
/// in the order of the pairs.
pub open spec fn group_candidates_of(g: Seq<Funding>) -> Seq<PositionCandidate> {
    fitting_candidates(g, index_pairs(g.len() as int))
}

/// Where every pair fits, no pair is left out.
pub proof fn lemma_fitting_all(g: Seq<Funding>, ps: Seq<(int, int)>)
    requires
        forall|t: int| 0 <= t < ps.len() ==> #[trigger] pair_fits(g[ps[t].0], g[ps[t].1]),
    ensures
        fitting_candidates(g, ps) == ps.map_values(|p: (int, int)| candidate_of(g[p.0], g[p.1])),
    decreases ps.len(),
{
    if ps.len() > 0 {
        let t = ps.len() - 1;
        assert(pair_fits(g[ps[t].0], g[ps[t].1]));
        assert forall|u: int| 0 <= u < ps.drop_last().len() implies #[trigger] pair_fits(
            g[ps.drop_last()[u].0],
            g[ps.drop_last()[u].1],
        ) by {
            assert(ps.drop_last()[u] == ps[u]);
            assert(pair_fits(g[ps[u].0], g[ps[u].1]));
        }
        lemma_fitting_all(g, ps.drop_last());
        assert(fitting_candidates(g, ps) =~= ps.map_values(
            |p: (int, int)| candidate_of(g[p.0], g[p.1]),
        ));
    }
}

/// A candidate a group gives is the candidate of one of its pairs, and that pair fits.
pub proof fn lemma_fitting_member(g: Seq<Funding>, ps: Seq<(int, int)>, c: PositionCandidate)
    requires
        fitting_candidates(g, ps).contains(c),
    ensures
        exists|t: int|
            0 <= t < ps.len() && pair_fits(g[ps[t].0], g[ps[t].1]) && c == candidate_of(
                g[ps[t].0],
                g[ps[t].1],
            ),
    decreases ps.len(),
{
    let rest = fitting_candidates(g, ps.drop_last());
    let p = ps.last();
    if rest.contains(c) {
        lemma_fitting_member(g, ps.drop_last(), c);
        let t = choose|t: int|
            0 <= t < ps.drop_last().len() && pair_fits(g[ps.drop_last()[t].0], g[ps.drop_last()[t].1])
                && c == candidate_of(g[ps.drop_last()[t].0], g[ps.drop_last()[t].1]);
        assert(ps.drop_last()[t] == ps[t]);
    } else {
        let q = choose|q: int| 0 <= q < fitting_candidates(g, ps).len() && fitting_candidates(g, ps)[q] == c;
        if !pair_fits(g[p.0], g[p.1]) {
            assert(rest.contains(c));
        }
        if q < rest.len() {
            assert(rest[q] == c);
        }
        assert(ps[ps.len() - 1] == p);
    }
}

/// The candidate of a pair that fits is among those the group gives.
pub proof fn lemma_fitting_listed(g: Seq<Funding>, ps: Seq<(int, int)>, t: int)
    requires
        0 <= t < ps.len(),
        pair_fits(g[ps[t].0], g[ps[t].1]),
    ensures
        fitting_candidates(g, ps).contains(candidate_of(g[ps[t].0], g[ps[t].1])),
    decreases ps.len(),
{
    let c = candidate_of(g[ps[t].0], g[ps[t].1]);
    let rest = fitting_candidates(g, ps.drop_last());
    if t == ps.len() - 1 {
        assert(fitting_candidates(g, ps)[fitting_candidates(g, ps).len() - 1] == c);
    } else {
        assert(ps.drop_last()[t] == ps[t]);
        lemma_fitting_listed(g, ps.drop_last(), t);
        let q = choose|q: int| 0 <= q < rest.len() && rest[q] == c;
        assert(fitting_candidates(g, ps)[q] == c);
    }
}

/// The pair `(i, j)` of positions of `g` stands at some place of the pair list,
/// and the candidate at that place is the one for `g[i]` and `g[j]`.
pub open spec fn pair_listed(g: Seq<Funding>, i: int, j: int) -> bool {
    exists|k: int|
        0 <= k < index_pairs(g.len() as int).len() && index_pairs(g.len() as int)[k] == (i, j)
            && pair_candidates_of(g)[k] == candidate_of(g[i], g[j])
}

/// The long side's funding rate is never below the short side's, and the spread
/// is their difference.
pub proof fn lemma_long_not_below_short(a: Funding, b: Funding)
    requires
        pair_fits(a, b),
    ensures
        dec_le(candidate_of(a, b).short_funding, candidate_of(a, b).long_funding),
        candidate_of(a, b).total_funding.mantissa >= 0,
        candidate_of(a, b).total_funding.scale == max_scale(a.funding_rate, b.funding_rate),
        candidate_of(a, b).total_funding.mantissa == aligned(
            candidate_of(a, b).long_funding,
            max_scale(a.funding_rate, b.funding_rate),
        ) - aligned(candidate_of(a, b).short_funding, max_scale(a.funding_rate, b.funding_rate)),
{
}

/// The pair count below `n` is `n * (n - 1) / 2`.
pub proof fn lemma_pairs_from_len(start: int, n: int)
    requires
        0 <= start <= n,
    ensures
        2 * pairs_from(start, n).len() == (n - start) * (n - start - 1),
    decreases n - start,
{
    if start < n {
        lemma_pairs_from_len(start + 1, n);
        let row = Seq::new((n - start - 1) as nat, |k: int| (start, start + 1 + k));
        assert(pairs_from(start, n) == row + pairs_from(start + 1, n));
        assert(pairs_from(start, n).len() == (n - start - 1) + pairs_from(start + 1, n).len());
        let m = n - start;
        let t = pairs_from(start + 1, n).len() as int;
        assert(2 * (m - 1 + t) == m * (m - 1)) by (nonlinear_arith)
            requires
                2 * t == (m - 1) * (m - 2),
        ;
        let len = pairs_from(start, n).len() as int;
        assert(2 * len == (n - start) * (n - start - 1)) by (nonlinear_arith)
            requires
                len == m - 1 + t,
                2 * (m - 1 + t) == m * (m - 1),
                m == n - start,
        ;
    } else {
        assert(pairs_from(start, n).len() == 0);
        assert((n - start) * (n - start - 1) == 0) by (nonlinear_arith)
            requires
                start == n,
        ;
    }
}

/// Each pair of `pairs_from(start, n)` is `(i, j)` with `start <= i < j < n`.
pub proof fn lemma_pairs_from_bounds(start: int, n: int)
    requires
        0 <= start,
    ensures
        forall|k: int|
            0 <= k < pairs_from(start, n).len() ==> {
                let p = #[trigger] pairs_from(start, n)[k];
                start <= p.0 < p.1 < n
            },
    decreases n - start,
{
    if start < n {
        lemma_pairs_from_bounds(start + 1, n);
        let row = Seq::new((n - start - 1) as nat, |k: int| (start, start + 1 + k));
        assert forall|k: int| 0 <= k < pairs_from(start, n).len() implies {
            let p = #[trigger] pairs_from(start, n)[k];
            start <= p.0 < p.1 < n
        } by {
            if k >= row.len() {
                assert(pairs_from(start, n)[k] == pairs_from(start + 1, n)[k - row.len()]);
            }
        }
    }
}

/// Each pair `(i, j)` with `start <= i < j < n` stands in `pairs_from(start, n)`
/// at exactly one place.
pub proof fn lemma_pairs_from_once(start: int, n: int, i: int, j: int)
    requires
        0 <= start <= i < j < n,
    ensures
        exists|k: int| 0 <= k < pairs_from(start, n).len() && pairs_from(start, n)[k] == (i, j),
        forall|k1: int, k2: int|
            0 <= k1 < pairs_from(start, n).len() && 0 <= k2 < pairs_from(start, n).len()
                && pairs_from(start, n)[k1] == (i, j) && pairs_from(start, n)[k2] == (i, j) ==> k1
                == k2,
    decreases n - start,
{
    let row = Seq::new((n - start - 1) as nat, |k: int| (start, start + 1 + k));
    let rest = pairs_from(start + 1, n);
    assert(pairs_from(start, n) == row + rest);
    lemma_pairs_from_bounds(start + 1, n);
    if i == start {
        assert(pairs_from(start, n)[j - start - 1] == (i, j));
        assert forall|k1: int, k2: int|
            0 <= k1 < pairs_from(start, n).len() && 0 <= k2 < pairs_from(start, n).len()
                && pairs_from(start, n)[k1] == (i, j) && pairs_from(start, n)[k2] == (i, j) implies k1
            == k2 by {
            if k1 >= row.len() {
                assert(rest[k1 - row.len()] == (i, j));
            }
            if k2 >= row.len() {
                assert(rest[k2 - row.len()] == (i, j));
            }
        }
    } else {
        lemma_pairs_from_once(start + 1, n, i, j);
        let k0 = choose|k: int| 0 <= k < rest.len() && rest[k] == (i, j);
        assert(pairs_from(start, n)[row.len() + k0] == (i, j));
        assert forall|k1: int, k2: int|
            0 <= k1 < pairs_from(start, n).len() && 0 <= k2 < pairs_from(start, n).len()
                && pairs_from(start, n)[k1] == (i, j) && pairs_from(start, n)[k2] == (i, j) implies k1
            == k2 by {
            assert(k1 >= row.len());
            assert(k2 >= row.len());
            assert(rest[k1 - row.len()] == (i, j));
            assert(rest[k2 - row.len()] == (i, j));
        }
    }
}

/// A group of `n` records whose pairs all fit gives `n * (n - 1) / 2`
/// candidates, one for each unordered pair of its positions, each pair exactly once.
pub proof fn lemma_pairing_complete(g: Seq<Funding>)
    requires
        group_fits(g),
    ensures
        group_candidates_of(g) == pair_candidates_of(g),
        2 * group_candidates_of(g).len() == g.len() * (g.len() - 1),
        forall|k: int|
            0 <= k < index_pairs(g.len() as int).len() ==> {
                let p = #[trigger] index_pairs(g.len() as int)[k];
                0 <= p.0 < p.1 < g.len()
            },
        forall|i: int, j: int| 0 <= i < j < g.len() ==> #[trigger] pair_listed(g, i, j),
        forall|k1: int, k2: int|
            0 <= k1 < index_pairs(g.len() as int).len() && 0 <= k2 < index_pairs(
                g.len() as int,
            ).len() && #[trigger] index_pairs(g.len() as int)[k1] == #[trigger] index_pairs(
                g.len() as int,
            )[k2] ==> k1 == k2,
{
    let n = g.len() as int;
    lemma_fitting_all(g, index_pairs(n));
    lemma_pairs_from_len(0, n);
    lemma_pairs_from_bounds(0, n);
    assert forall|i: int, j: int| 0 <= i < j < g.len() implies #[trigger] pair_listed(g, i, j) by {
        lemma_pairs_from_once(0, n, i, j);
        let k = choose|k: int| 0 <= k < index_pairs(n).len() && index_pairs(n)[k] == (i, j);
        assert(pair_candidates_of(g)[k] == candidate_of(g[i], g[j]));
    }
    assert forall|k1: int, k2: int|
        0 <= k1 < index_pairs(n).len() && 0 <= k2 < index_pairs(n).len() && #[trigger] index_pairs(
            n,
        )[k1] == #[trigger] index_pairs(n)[k2] implies k1 == k2 by {
        let p = index_pairs(n)[k1];
        lemma_pairs_from_once(0, n, p.0, p.1);
    }
}

/// The candidate for the pair `(a, b)`, or `None` where its exact figures do not fit.
pub fn pair_candidate(a: &Funding, b: &Funding) -> (r: Option<PositionCandidate>)
    ensures
        r == (if pair_fits(*a, *b) {
            Some(candidate_of(*a, *b))
        } else {
            None
        }),
{
    let diff = match a.funding_rate.checked_sub(&b.funding_rate) {
        Some(d) => d,
        None => return None,
    };
    let spread = match diff.checked_abs() {
        Some(s) => s,
        None => return None,
    };
    let apy = match spread.checked_times(ANNUALIZATION_FACTOR) {
        Some(y) => y,
        None => return None,
    };
    let (long, short) = if diff.is_non_negative() {
        (a, b)
    } else {
        (b, a)
    };
    let price_spread = match (long.best_bid, short.best_ask) {
        (Some(bid), Some(ask)) => match bid.checked_sub(&ask) {
            Some(d) => match d.checked_div(&bid) {
                Some(q) => q.checked_times(100),
                None => None,
            },
            None => None,
        },
        _ => None,
    };
    Some(
        PositionCandidate {
            currency_name: a.currency_name.clone(),
            total_funding: spread,
            apy,
            long_on: long.exchange,
            long_funding: long.funding_rate,
            long_market: long.market_name.clone(),
            short_on: short.exchange,
            short_funding: short.funding_rate,
            short_market: short.market_name.clone(),
            oi_long: long.open_interest,
            oi_short: short.open_interest,
            spread: price_spread,
        },
    )
}

/// Relies on itertools' `combinations(2)` over `0..n`, which yields each pair
/// `[i, j]` with `i < j < n` once, in lexicographic order.
#[verifier::external_body]
fn index_pairs_below(n: usize) -> (r: Vec<Vec<usize>>)
    ensures
        r@.len() == index_pairs(n as int).len(),
        forall|k: int|
            0 <= k < r@.len() ==> (#[trigger] r@[k])@ == seq![
                index_pairs(n as int)[k].0 as usize,
                index_pairs(n as int)[k].1 as usize,
            ],
{
    (0..n).combinations(2).collect()
}

/// The candidates of one currency group, one per unordered pair of its records
/// whose figures fit; a pair whose figures do not fit is left out.
pub fn group_candidates(group: &Vec<Funding>) -> (r: Vec<PositionCandidate>)
    ensures
        r@ == group_candidates_of(group@),
        group_fits(group@) ==> r@ == pair_candidates_of(group@),
{
    let pairs = index_pairs_below(group.len());
    let ghost ps = index_pairs(group@.len() as int);
    proof {
        lemma_pairs_from_bounds(0, group@.len() as int);
    }
    let mut out: Vec<PositionCandidate> = Vec::new();
    let mut k: usize = 0;
    while k < pairs.len()
        invariant
            pairs@.len() == ps.len(),
            ps == index_pairs(group@.len() as int),
            forall|q: int|
                0 <= q < pairs@.len() ==> (#[trigger] pairs@[q])@ == seq![
                    ps[q].0 as usize,
                    ps[q].1 as usize,
                ],
            forall|q: int|
                0 <= q < ps.len() ==> {
                    let p = #[trigger] ps[q];
                    0 <= p.0 < p.1 < group@.len()
                },
            k <= pairs@.len(),
            out@ == fitting_candidates(group@, ps.take(k as int)),
        decreases pairs@.len() - k,
    {
        let pair = &pairs[k];
        assert(pair@ == pairs@[k as int]@);
        let i = pair[0];
        let j = pair[1];
        assert(ps.take(k + 1).drop_last() =~= ps.take(k as int));
        assert(ps.take(k + 1).last() == ps[k as int]);
        match pair_candidate(&group[i], &group[j]) {
            Some(c) => {
                out.push(c);
            },
            None => {},
        }
        k = k + 1;
    }
    assert(ps.take(k as int) =~= ps);
    proof {
        if group_fits(group@) {
            lemma_pairing_complete(group@);
        }
    }
    out
}

} // verus!

//! Laws of the cycle's published list, per currency.
use crate::aggregate::{
    candidates_of_groups, cycle_result, flat, is_chunking, lemma_candidate_group, lemma_chunk_member,
    lemma_chunking_drop_last, lemma_filter_count, lemma_merge_groups_match, name_is, named,
    ranked, records_named, sorted_by_name, stable_ranked,
};
use crate::candidate::{
    candidate_of, group_candidates_of, group_fits, index_pairs, lemma_fitting_member,
    lemma_pairing_complete, lemma_pairs_from_bounds, pair_fits,
};
use crate::model::{Funding, PositionCandidate};
use vstd::prelude::*;
use vstd::seq_lib::group_to_multiset_ensures;

verus! {

/// Whether a candidate is for the currency `n`.
pub open spec fn candidate_is(n: Seq<char>) -> spec_fn(PositionCandidate) -> bool {
    |c: PositionCandidate| c.currency_name@ == n
}

/// The candidates for the currency `n`, in order.
pub open spec fn candidates_named(s: Seq<PositionCandidate>, n: Seq<char>) -> Seq<PositionCandidate> {
    s.filter(candidate_is(n))
}

proof fn lemma_candidates_named_count(s: Seq<PositionCandidate>, n: Seq<char>, x: PositionCandidate)
    ensures
        candidates_named(s, n).to_multiset().count(x) == if x.currency_name@ == n {
            s.to_multiset().count(x)
        } else {
            0
        },
    decreases s.len(),
{
    broadcast use group_to_multiset_ensures;

    if s.len() > 0 {
        lemma_candidates_named_count(s.drop_last(), n, x);
        assert(s.drop_last().push(s.last()) =~= s);
        s.drop_last().lemma_filter_push(s.last(), candidate_is(n));
    } else {
        reveal(Seq::filter);
        assert(candidates_named(s, n) =~= Seq::<PositionCandidate>::empty());
    }
}

/// Candidates that all carry one name: filtering by it keeps them all, by
/// another keeps none.
proof fn lemma_named_uniform(s: Seq<PositionCandidate>, m: Seq<char>, n: Seq<char>)
    requires
        forall|q: int| 0 <= q < s.len() ==> (#[trigger] s[q]).currency_name@ == m,
    ensures
        candidates_named(s, n).len() == if m == n {
            s.len()
        } else {
            0
        },
    decreases s.len(),
{
    if s.len() > 0 {
        assert forall|q: int| 0 <= q < s.drop_last().len() implies (
        #[trigger] s.drop_last()[q]).currency_name@ == m by {
            assert(s.drop_last()[q] == s[q]);
        }
        lemma_named_uniform(s.drop_last(), m, n);
        assert(s.drop_last().push(s.last()) =~= s);
        s.drop_last().lemma_filter_push(s.last(), candidate_is(n));
        assert(s[s.len() - 1] == s.last());
    } else {
        reveal(Seq::filter);
    }
}

/// Every candidate a run gives carries the run's name.
proof fn lemma_group_candidate_names(merged: Seq<Funding>, gs: Seq<Vec<Funding>>, k: int)
    requires
        is_chunking(merged, gs),
        0 <= k < gs.len(),
    ensures
        forall|q: int|
            0 <= q < group_candidates_of(gs[k]@).len() ==> (#[trigger] group_candidates_of(
                gs[k]@,
            )[q]).currency_name@ == gs[k]@[0].currency_name@,
{
    let g = gs[k]@;
    let ps = index_pairs(g.len() as int);
    lemma_pairs_from_bounds(0, g.len() as int);
    assert forall|q: int| 0 <= q < group_candidates_of(g).len() implies (
    #[trigger] group_candidates_of(gs[k]@)[q]).currency_name@ == gs[k]@[0].currency_name@ by {
        let c = group_candidates_of(g)[q];
        assert(group_candidates_of(g).contains(c));
        lemma_fitting_member(g, ps, c);
        let t = choose|t: int|
            0 <= t < ps.len() && pair_fits(g[ps[t].0], g[ps[t].1]) && c == candidate_of(
                g[ps[t].0],
                g[ps[t].1],
            );
        let p = ps[t];
        assert(0 <= p.0 < p.1 < g.len());
        lemma_chunk_member(merged, gs, k, p.0);
    }
}

/// The candidates of all the runs for the name `n` are those of the one run of
/// that name, and none where no run has it.
proof fn lemma_named_of_groups(merged: Seq<Funding>, gs: Seq<Vec<Funding>>, n: Seq<char>)
    requires
        is_chunking(merged, gs),
        forall|k1: int, k2: int|
            0 <= k1 < gs.len() && 0 <= k2 < gs.len() && k1 != k2 ==> (#[trigger] gs[k1])@[0].currency_name@
                != (#[trigger] gs[k2])@[0].currency_name@,
    ensures
        (forall|k: int| 0 <= k < gs.len() ==> (#[trigger] gs[k])@[0].currency_name@ != n)
            ==> candidates_named(candidates_of_groups(gs), n).len() == 0,
        forall|k: int|
            0 <= k < gs.len() && (#[trigger] gs[k])@[0].currency_name@ == n ==> candidates_named(
                candidates_of_groups(gs),
                n,
            ).len() == group_candidates_of(gs[k]@).len(),
    decreases gs.len(),
{
    if gs.len() > 0 {
        let d = gs.drop_last();
        let last = gs.len() - 1;
        lemma_chunking_drop_last(merged, gs);
        assert forall|k1: int, k2: int|
            0 <= k1 < d.len() && 0 <= k2 < d.len() && k1 != k2 implies (#[trigger] d[k1])@[0].currency_name@
            != (#[trigger] d[k2])@[0].currency_name@ by {
            assert(d[k1] == gs[k1]);
            assert(d[k2] == gs[k2]);
        }
        lemma_named_of_groups(flat(d), d, n);
        let a = candidates_of_groups(d);
        let b = group_candidates_of(gs[last]@);
        assert(candidates_of_groups(gs) == a + b);
        Seq::filter_distributes_over_add(a, b, candidate_is(n));
        lemma_group_candidate_names(merged, gs, last);
        lemma_named_uniform(b, gs[last]@[0].currency_name@, n);
        assert forall|k: int| 0 <= k < d.len() implies #[trigger] d[k] == gs[k] by {}
        assert forall|k: int|
            0 <= k < gs.len() && (#[trigger] gs[k])@[0].currency_name@ == n implies candidates_named(
            candidates_of_groups(gs),
            n,
        ).len() == group_candidates_of(gs[k]@).len() by {
            if k == last {
                assert forall|k2: int| 0 <= k2 < d.len() implies (#[trigger] d[k2])@[0].currency_name@
                    != n by {
                    assert(d[k2] == gs[k2]);
                    assert(gs[k2]@[0].currency_name@ != gs[last]@[0].currency_name@);
                }
            } else {
                assert(d[k] == gs[k]);
                assert(gs[k]@[0].currency_name@ != gs[last]@[0].currency_name@);
            }
        }
    } else {
        reveal(Seq::filter);
        assert(candidates_named(candidates_of_groups(gs), n) =~= Seq::<PositionCandidate>::empty());
    }
}

/// Per currency, a cycle publishes one candidate for each unordered pair of
/// the records that carry it, `m * (m - 1) / 2` for `m` records, where the
/// figures of the records fit.
pub proof fn lemma_candidates_per_currency(all: Seq<Funding>, r: Vec<PositionCandidate>, n: Seq<char>)
    requires
        cycle_result(all, r),
        forall|i: int, j: int|
            0 <= i < all.len() && 0 <= j < all.len() ==> #[trigger] pair_fits(all[i], all[j]),
    ensures
        2 * candidates_named(r@, n).len() == records_named(all, n) * (records_named(all, n) - 1),
{
    broadcast use group_to_multiset_ensures;

    let (merged, gs) = choose|merged: Seq<Funding>, gs: Seq<Vec<Funding>>|
        {
            &&& merged.to_multiset() == all.to_multiset()
            &&& sorted_by_name(merged)
            &&& #[trigger] is_chunking(merged, gs)
            &&& r@ == stable_ranked(candidates_of_groups(gs))
            &&& r@.to_multiset() == candidates_of_groups(gs).to_multiset()
            &&& ranked(r@)
        };
    lemma_merge_groups_match(all, merged, gs);
    lemma_named_of_groups(merged, gs, n);
    let cs = candidates_of_groups(gs);
    assert forall|x: PositionCandidate| candidates_named(r@, n).to_multiset().count(x)
        == candidates_named(cs, n).to_multiset().count(x) by {
        lemma_candidates_named_count(r@, n, x);
        lemma_candidates_named_count(cs, n, x);
    }
    assert(candidates_named(r@, n).to_multiset() =~= candidates_named(cs, n).to_multiset());
    assert(candidates_named(r@, n).to_multiset().len() == candidates_named(cs, n).to_multiset().len());
    assert(candidates_named(r@, n).len() == candidates_named(cs, n).len());
    let named = named(all, n);
    if exists|k: int| 0 <= k < gs.len() && (#[trigger] gs[k])@[0].currency_name@ == n {
        let k = choose|k: int| 0 <= k < gs.len() && (#[trigger] gs[k])@[0].currency_name@ == n;
        let g = gs[k]@;
        assert forall|y: Funding| g.to_multiset().count(y) == named.to_multiset().count(y) by {
            lemma_filter_count(all, n, y);
        }
        assert(g.to_multiset() =~= named.to_multiset());
        assert(g.to_multiset().len() == named.to_multiset().len());
        assert forall|t: int| 0 <= t < g.len() implies all.contains(#[trigger] g[t]) by {
            assert(g.contains(g[t]));
            assert(g.to_multiset().count(g[t]) > 0);
            lemma_filter_count(all, n, g[t]);
        }
        lemma_pairs_from_bounds(0, g.len() as int);
        assert forall|q: int| 0 <= q < index_pairs(g.len() as int).len() implies #[trigger] pair_fits(
            g[index_pairs(g.len() as int)[q].0],
            g[index_pairs(g.len() as int)[q].1],
        ) by {
            let p = index_pairs(g.len() as int)[q];
            assert(all.contains(g[p.0]));
            assert(all.contains(g[p.1]));
            let ia = choose|i: int| 0 <= i < all.len() && all[i] == g[p.0];
            let ib = choose|i: int| 0 <= i < all.len() && all[i] == g[p.1];
            assert(pair_fits(all[ia], all[ib]));
        }
        assert(group_fits(g));
        lemma_pairing_complete(g);
        assert(g.len() == named.len());
        assert(candidates_named(cs, n).len() == group_candidates_of(g).len());
        let c = candidates_named(r@, n).len() as int;
        let m = records_named(all, n) as int;
        assert(2 * c == m * (m - 1)) by (nonlinear_arith)
            requires
                c == group_candidates_of(g).len(),
                m == g.len(),
                2 * group_candidates_of(g).len() == g.len() * (g.len() - 1),
        ;
    } else {
        if named.len() > 0 {
            let x = named[0];
            assert(named.contains(x));
            assert(x.currency_name@ == n) by {
                all.lemma_filter_pred(name_is(n), 0);
            }
            lemma_filter_count(all, n, x);
            assert(all.contains(x));
            let i0 = choose|i: int| 0 <= i < all.len() && all[i] == x;
            assert(all[i0] == x);
            let k = choose|k: int|
                0 <= k < gs.len() && (#[trigger] gs[k])@[0].currency_name@ == all[i0].currency_name@;
            assert(gs[k]@[0].currency_name@ == n);
        }
        assert(forall|k: int| 0 <= k < gs.len() ==> (#[trigger] gs[k])@[0].currency_name@ != n);
        assert(candidates_named(cs, n).len() == 0);
        let m = records_named(all, n) as int;
        assert(m * (m - 1) == 0) by (nonlinear_arith)
            requires
                m == 0,
        ;
    }
}

/// Each published candidate pairs two records of its currency: records the
/// naive group of that name holds, two distinct ones where they are equal.
pub proof fn lemma_candidate_from_two_records(all: Seq<Funding>, r: Vec<PositionCandidate>, idx: int)
    requires
        cycle_result(all, r),
        0 <= idx < r@.len(),
    ensures
        exists|x: Funding, y: Funding|
            {
                &&& r@[idx] == #[trigger] candidate_of(x, y)
                &&& x.currency_name@ == r@[idx].currency_name@
                &&& y.currency_name@ == r@[idx].currency_name@
                &&& named(all, r@[idx].currency_name@).to_multiset().count(x) >= 1
                &&& named(all, r@[idx].currency_name@).to_multiset().count(y) >= 1
                &&& (x == y ==> named(all, r@[idx].currency_name@).to_multiset().count(x) >= 2)
            },
{
    broadcast use group_to_multiset_ensures;

    let (merged, gs) = choose|merged: Seq<Funding>, gs: Seq<Vec<Funding>>|
        {
            &&& merged.to_multiset() == all.to_multiset()
            &&& sorted_by_name(merged)
            &&& #[trigger] is_chunking(merged, gs)
            &&& r@ == stable_ranked(candidates_of_groups(gs))
            &&& r@.to_multiset() == candidates_of_groups(gs).to_multiset()
            &&& ranked(r@)
        };
    lemma_merge_groups_match(all, merged, gs);
    let c = r@[idx];
    let n = c.currency_name@;
    assert(r@.contains(c));
    assert(candidates_of_groups(gs).to_multiset().count(c) > 0);
    lemma_candidate_group(gs, c);
    let (k, q) = choose|k: int, q: int|
        0 <= k < gs.len() && 0 <= q < group_candidates_of(gs[k]@).len()
            && #[trigger] group_candidates_of(gs[k]@)[q] == c;
    let g = gs[k]@;
    let ps = index_pairs(g.len() as int);
    lemma_pairs_from_bounds(0, g.len() as int);
    assert(group_candidates_of(g).contains(c));
    lemma_fitting_member(g, ps, c);
    let t = choose|t: int|
        0 <= t < ps.len() && pair_fits(g[ps[t].0], g[ps[t].1]) && c == candidate_of(
            g[ps[t].0],
            g[ps[t].1],
        );
    let (i, j) = ps[t];
    assert(0 <= i < j < g.len());
    lemma_chunk_member(merged, gs, k, i);
    lemma_chunk_member(merged, gs, k, j);
    assert(c.currency_name == g[i].currency_name);
    let grp = named(all, n);
    assert forall|y: Funding| g.to_multiset().count(y) == grp.to_multiset().count(y) by {
        lemma_filter_count(all, n, y);
    }
    assert(g.to_multiset() =~= grp.to_multiset());
    assert(g.contains(g[i]));
    assert(g.contains(g[j]));
    assert(g.to_multiset().count(g[i]) >= 1);
    assert(g.to_multiset().count(g[j]) >= 1);
    if g[i] == g[j] {
        let rest = g.remove(j);
        assert(rest[i] == g[i]);
        assert(rest.contains(g[i]));
        assert(rest.to_multiset().count(g[i]) >= 1);
        assert(rest.to_multiset() =~= g.to_multiset().remove(g[j]));
        assert(g.to_multiset().count(g[i]) >= 2);
    }
    assert(grp.to_multiset().count(g[i]) == g.to_multiset().count(g[i]));
    assert(grp.to_multiset().count(g[j]) == g.to_multiset().count(g[j]));
    assert(r@[idx] == candidate_of(g[i], g[j]));
    assert(g[i].currency_name@ == n && g[j].currency_name@ == n);
}

} // verus!

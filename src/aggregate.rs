//! One aggregation cycle: sort each venue's records by currency, merge the
//! venues, cut the merged sequence into currency groups, pair each group and
//! rank the candidates by yield.
use crate::candidate::{
    candidate_of, group_candidates, group_candidates_of, index_pairs, lemma_fitting_listed,
    lemma_fitting_member,
    lemma_pairs_from_bounds, pair_fits, pairs_from,
};
use crate::decimal::dec_lt;
use crate::model::{lemma_name_lt_total, name_less, name_lt, Funding, PositionCandidate};
use itertools::Itertools;
use std::cmp::Ordering;
use vstd::prelude::*;
use vstd::seq_lib::{group_to_multiset_ensures, lemma_multiset_commutative};

verus! {

/// The records of all the vectors, in order.
pub open spec fn flat(vs: Seq<Vec<Funding>>) -> Seq<Funding>
    decreases vs.len(),
{
    if vs.len() == 0 {
        Seq::empty()
    } else {
        flat(vs.drop_last()) + vs.last()@
    }
}

/// The candidates of all the groups, group after group.
pub open spec fn candidates_of_groups(gs: Seq<Vec<Funding>>) -> Seq<PositionCandidate>
    decreases gs.len(),
{
    if gs.len() == 0 {
        Seq::empty()
    } else {
        candidates_of_groups(gs.drop_last()) + group_candidates_of(gs.last()@)
    }
}

/// The records of the venues whose fetch succeeded, in venue order.
pub open spec fn successes(outcomes: Seq<Option<Vec<Funding>>>) -> Seq<Vec<Funding>>
    decreases outcomes.len(),
{
    if outcomes.len() == 0 {
        Seq::empty()
    } else {
        match outcomes.last() {
            Some(v) => successes(outcomes.drop_last()).push(v),
            None => successes(outcomes.drop_last()),
        }
    }
}

/// No record's currency name comes before that of a record ahead of it.
#[verifier::opaque]
pub open spec fn sorted_by_name(s: Seq<Funding>) -> bool {
    forall|i: int, j: int|
        0 <= i < j < s.len() ==> !name_lt(#[trigger] s[j].currency_name@, #[trigger] s[i].currency_name@)
}

/// Each vector holds at least one record.
#[verifier::opaque]
pub open spec fn runs_nonempty(gs: Seq<Vec<Funding>>) -> bool {
    forall|k: int| 0 <= k < gs.len() ==> (#[trigger] gs[k])@.len() > 0
}

/// The records of each vector carry one currency name.
#[verifier::opaque]
pub open spec fn runs_uniform(gs: Seq<Vec<Funding>>) -> bool {
    forall|k: int, i: int|
        0 <= k < gs.len() && 0 <= i < gs[k]@.len() ==> (#[trigger] gs[k]@[i]).currency_name@
            == gs[k]@[0].currency_name@
}

/// Neighbouring vectors carry different currency names.
#[verifier::opaque]
pub open spec fn runs_differ(gs: Seq<Vec<Funding>>) -> bool {
    forall|k: int|
        0 <= k < gs.len() - 1 ==> (#[trigger] gs[k])@[0].currency_name@ != gs[k + 1]@[0].currency_name@
}

/// `gs` cuts `s` into runs of one currency name each, two neighbouring runs
/// having different names.
#[verifier::opaque]
pub open spec fn is_chunking(s: Seq<Funding>, gs: Seq<Vec<Funding>>) -> bool {
    &&& flat(gs) == s
    &&& runs_nonempty(gs)
    &&& runs_uniform(gs)
    &&& runs_differ(gs)
}

/// Higher yields first: no candidate's yield is below that of one after it.
pub open spec fn ranked(s: Seq<PositionCandidate>) -> bool {
    forall|i: int, j: int| 0 <= i < j < s.len() ==> !dec_lt(#[trigger] s[i].apy, #[trigger] s[j].apy)
}

/// `c` placed into the ranked `s` after every candidate whose yield is not below its own.
pub open spec fn insert_ranked(s: Seq<PositionCandidate>, c: PositionCandidate) -> Seq<PositionCandidate>
    decreases s.len(),
{
    if s.len() == 0 {
        seq![c]
    } else if dec_lt(s.last().apy, c.apy) {
        insert_ranked(s.drop_last(), c).push(s.last())
    } else {
        s.push(c)
    }
}

/// `s` ranked by yield, highest first, candidates of equal yield keeping their
/// order in `s`.
pub open spec fn stable_ranked(s: Seq<PositionCandidate>) -> Seq<PositionCandidate>
    decreases s.len(),
{
    if s.len() == 0 {
        Seq::empty()
    } else {
        insert_ranked(stable_ranked(s.drop_last()), s.last())
    }
}

/// `x` placed into `s`, sorted by name, after every record whose name does not
/// come after its own.
pub open spec fn insert_by_name(s: Seq<Funding>, x: Funding) -> Seq<Funding>
    decreases s.len(),
{
    if s.len() == 0 {
        seq![x]
    } else if name_lt(x.currency_name@, s.last().currency_name@) {
        insert_by_name(s.drop_last(), x).push(s.last())
    } else {
        s.push(x)
    }
}

/// `s` sorted by currency name, records of one name keeping their order in `s`.
pub open spec fn stable_by_name(s: Seq<Funding>) -> Seq<Funding>
    decreases s.len(),
{
    if s.len() == 0 {
        Seq::empty()
    } else {
        insert_by_name(stable_by_name(s.drop_last()), s.last())
    }
}

/// What itertools' `kmerge_by` yields for the sequences `vs` under the
/// currency-name order of `name_less`.
pub uninterp spec fn kmerged_by_name(vs: Seq<Seq<Funding>>) -> Seq<Funding>;

/// The merge of the venues' records, each venue first sorted by name.
pub open spec fn merged_of(venues: Seq<Vec<Funding>>) -> Seq<Funding> {
    kmerged_by_name(venues.map_values(|v: Vec<Funding>| stable_by_name(v@)))
}

/// The result of one cycle, fixed by the venues' records: the currency groups
/// of their merge, and those groups' candidates, group after group, ranked stably.
pub open spec fn cycle_output(venues: Seq<Vec<Funding>>, r: Vec<PositionCandidate>) -> bool {
    exists|gs: Seq<Vec<Funding>>|
        {
            &&& #[trigger] is_chunking(merged_of(venues), gs)
            &&& r@ == stable_ranked(candidates_of_groups(gs))
        }
}

/// What one cycle owes for the records `all`: a sorted merge of them cut into
/// currency groups, and all the groups' candidates, group after group, ranked
/// stably.
pub open spec fn cycle_result(all: Seq<Funding>, r: Vec<PositionCandidate>) -> bool {
    exists|merged: Seq<Funding>, gs: Seq<Vec<Funding>>|
        {
            &&& merged.to_multiset() == all.to_multiset()
            &&& sorted_by_name(merged)
            &&& #[trigger] is_chunking(merged, gs)
            &&& r@ == stable_ranked(candidates_of_groups(gs))
            &&& r@.to_multiset() == candidates_of_groups(gs).to_multiset()
            &&& ranked(r@)
        }
}

pub proof fn lemma_flat_append(a: Seq<Vec<Funding>>, b: Seq<Vec<Funding>>)
    ensures
        flat(a + b) == flat(a) + flat(b),
    decreases b.len(),
{
    if b.len() == 0 {
        assert(a + b =~= a);
        assert(flat(a) + flat(b) =~= flat(a));
    } else {
        lemma_flat_append(a, b.drop_last());
        assert((a + b).drop_last() =~= a + b.drop_last());
        assert(flat(a) + flat(b) =~= flat(a) + flat(b.drop_last()) + b.last()@);
    }
}

/// Where the vector at `k` is the first of `gs` after `take(k)`, its records
/// stand in `flat(gs)` right after those of the vectors before it.
proof fn lemma_flat_position(gs: Seq<Vec<Funding>>, k: int)
    requires
        0 <= k < gs.len(),
    ensures
        flat(gs.take(k + 1)) == flat(gs.take(k)) + gs[k]@,
        forall|i: int|
            0 <= i < gs[k]@.len() ==> flat(gs)[flat(gs.take(k)).len() + i] == #[trigger] gs[k]@[i],
        flat(gs.take(k + 1)).len() <= flat(gs).len(),
{
    assert(gs.take(k + 1).drop_last() =~= gs.take(k));
    lemma_flat_append(gs.take(k + 1), gs.skip(k + 1));
    assert(gs.take(k + 1) + gs.skip(k + 1) =~= gs);
}

/// The records before the vector at `k` are no more than those before the one at `k2 > k`.
proof fn lemma_flat_prefix_len(gs: Seq<Vec<Funding>>, k: int, k2: int)
    requires
        0 <= k <= k2 <= gs.len(),
    ensures
        flat(gs.take(k)).len() <= flat(gs.take(k2)).len(),
{
    lemma_flat_append(gs.take(k), gs.take(k2).skip(k));
    assert(gs.take(k) + gs.take(k2).skip(k) =~= gs.take(k2));
}

/// A record that no vector holds is not among their records together.
proof fn lemma_flat_count_zero(gs: Seq<Vec<Funding>>, x: Funding)
    requires
        forall|j: int| 0 <= j < gs.len() ==> !(#[trigger] gs[j])@.contains(x),
    ensures
        flat(gs).to_multiset().count(x) == 0,
    decreases gs.len(),
{
    broadcast use group_to_multiset_ensures;

    if gs.len() > 0 {
        lemma_flat_count_zero(gs.drop_last(), x);
        lemma_multiset_commutative(flat(gs.drop_last()), gs.last()@);
        assert(!gs[gs.len() - 1]@.contains(x));
    }
}

/// A record that only the vector at `k` may hold is held as often by `flat(gs)` as by it.
proof fn lemma_flat_count_one(gs: Seq<Vec<Funding>>, x: Funding, k: int)
    requires
        0 <= k < gs.len(),
        forall|j: int| 0 <= j < gs.len() && j != k ==> !(#[trigger] gs[j])@.contains(x),
    ensures
        flat(gs).to_multiset().count(x) == gs[k]@.to_multiset().count(x),
    decreases gs.len(),
{
    broadcast use group_to_multiset_ensures;

    lemma_multiset_commutative(flat(gs.drop_last()), gs.last()@);
    if k == gs.len() - 1 {
        assert forall|j: int| 0 <= j < gs.drop_last().len() implies !(
        #[trigger] gs.drop_last()[j])@.contains(x) by {
            assert(gs.drop_last()[j] == gs[j]);
        }
        lemma_flat_count_zero(gs.drop_last(), x);
    } else {
        assert(!gs[gs.len() - 1]@.contains(x));
        lemma_flat_count_one(gs.drop_last(), x, k);
    }
}

/// Grouping after the merge gives the groups of a plain group-by over all the
/// records: no two groups share a currency name, every record's name has a
/// group, and each group holds exactly the records of its name.
pub proof fn lemma_merge_groups_match(
    all: Seq<Funding>,
    merged: Seq<Funding>,
    gs: Seq<Vec<Funding>>,
)
    requires
        merged.to_multiset() == all.to_multiset(),
        sorted_by_name(merged),
        is_chunking(merged, gs),
    ensures
        forall|k1: int, k2: int|
            0 <= k1 < gs.len() && 0 <= k2 < gs.len() && k1 != k2 ==> (#[trigger] gs[k1])@[0].currency_name@
                != (#[trigger] gs[k2])@[0].currency_name@,
        forall|i: int|
            0 <= i < all.len() ==> exists|k: int|
                0 <= k < gs.len() && (#[trigger] gs[k])@[0].currency_name@ == (
                #[trigger] all[i]).currency_name@,
        forall|k: int, x: Funding|
            0 <= k < gs.len() ==> #[trigger] gs[k]@.to_multiset().count(x) == if x.currency_name@
                == gs[k]@[0].currency_name@ {
                all.to_multiset().count(x)
            } else {
                0
            },
{
    assert(flat(gs) == merged) by {
        reveal(is_chunking);
        reveal(runs_nonempty);
        reveal(runs_uniform);
        reveal(runs_differ);
    }
    assert forall|k1: int, k2: int|
        0 <= k1 < gs.len() && 0 <= k2 < gs.len() && k1 != k2 implies (#[trigger] gs[k1])@[0].currency_name@
        != (#[trigger] gs[k2])@[0].currency_name@ by {
        let (a, b) = if k1 < k2 {
            (k1, k2)
        } else {
            (k2, k1)
        };
        lemma_distinct_groups(merged, gs, a, b);
    }
    assert forall|i: int| 0 <= i < all.len() implies exists|k: int|
        0 <= k < gs.len() && (#[trigger] gs[k])@[0].currency_name@ == (
        #[trigger] all[i]).currency_name@ by {
        broadcast use group_to_multiset_ensures;

        let x = all[i];
        assert(all.contains(x));
        assert(merged.to_multiset().count(x) > 0);
        if forall|j: int| 0 <= j < gs.len() ==> !(#[trigger] gs[j])@.contains(x) {
            lemma_flat_count_zero(gs, x);
        }
        let j = choose|j: int| 0 <= j < gs.len() && (#[trigger] gs[j])@.contains(x);
        let t = choose|t: int| 0 <= t < gs[j]@.len() && gs[j]@[t] == x;
        lemma_chunk_member(merged, gs, j, t);
    }
    assert forall|k: int, x: Funding| 0 <= k < gs.len() implies #[trigger] gs[k]@.to_multiset().count(x)
        == if x.currency_name@ == gs[k]@[0].currency_name@ {
        all.to_multiset().count(x)
    } else {
        0
    } by {
        broadcast use group_to_multiset_ensures;

        if x.currency_name@ == gs[k]@[0].currency_name@ {
            assert forall|j: int| 0 <= j < gs.len() && j != k implies !(
            #[trigger] gs[j])@.contains(x) by {
                if gs[j]@.contains(x) {
                    let t = choose|t: int| 0 <= t < gs[j]@.len() && gs[j]@[t] == x;
                    lemma_chunk_member(merged, gs, j, t);
                    let (a, b) = if j < k {
                        (j, k)
                    } else {
                        (k, j)
                    };
                    lemma_distinct_groups(merged, gs, a, b);
                }
            }
            lemma_flat_count_one(gs, x, k);
        } else {
            if gs[k]@.contains(x) {
                let t = choose|t: int| 0 <= t < gs[k]@.len() && gs[k]@[t] == x;
                lemma_chunk_member(merged, gs, k, t);
            }
        }
    }
}

/// The records that carry the currency name `n`, in order.
pub open spec fn named(s: Seq<Funding>, n: Seq<char>) -> Seq<Funding> {
    s.filter(name_is(n))
}

/// Whether a record carries the currency name `n`.
pub open spec fn name_is(n: Seq<char>) -> spec_fn(Funding) -> bool {
    |f: Funding| f.currency_name@ == n
}

/// How many records carry the currency name `n`.
pub open spec fn records_named(s: Seq<Funding>, n: Seq<char>) -> nat {
    named(s, n).len()
}

pub proof fn lemma_filter_count(s: Seq<Funding>, n: Seq<char>, x: Funding)
    ensures
        named(s, n).to_multiset().count(x) == if x.currency_name@ == n {
            s.to_multiset().count(x)
        } else {
            0
        },
    decreases s.len(),
{
    broadcast use group_to_multiset_ensures;

    if s.len() > 0 {
        lemma_filter_count(s.drop_last(), n, x);
        assert(s.drop_last().push(s.last()) =~= s);
        s.drop_last().lemma_filter_push(s.last(), name_is(n));
    } else {
        reveal(Seq::filter);
        assert(named(s, n) =~= Seq::<Funding>::empty());
    }
}

/// A candidate of the groups is the candidate at some place of some group.
pub proof fn lemma_candidate_group(gs: Seq<Vec<Funding>>, c: PositionCandidate)
    requires
        candidates_of_groups(gs).contains(c),
    ensures
        exists|k: int, q: int|
            0 <= k < gs.len() && 0 <= q < group_candidates_of(gs[k]@).len()
                && #[trigger] group_candidates_of(gs[k]@)[q] == c,
    decreases gs.len(),
{
    let last = gs.len() - 1;
    let before = candidates_of_groups(gs.drop_last());
    let g = gs[last]@;
    if before.contains(c) {
        lemma_candidate_group(gs.drop_last(), c);
        let (k, q) = choose|k: int, q: int|
            0 <= k < gs.drop_last().len() && 0 <= q < group_candidates_of(gs.drop_last()[k]@).len()
                && #[trigger] group_candidates_of(gs.drop_last()[k]@)[q] == c;
        assert(gs.drop_last()[k] == gs[k]);
    } else {
        let q = choose|q: int| 0 <= q < group_candidates_of(g).len() && group_candidates_of(g)[q] == c;
        assert(group_candidates_of(gs[last]@)[q] == c);
    }
}

/// A currency that at most one record carries gets no candidate; one that no
/// record carries (all its venues failed) gets none either.
pub proof fn lemma_lone_currency_no_candidates(
    all: Seq<Funding>,
    r: Vec<PositionCandidate>,
    n: Seq<char>,
)
    requires
        cycle_result(all, r),
        records_named(all, n) <= 1,
    ensures
        forall|i: int| 0 <= i < r@.len() ==> (#[trigger] r@[i]).currency_name@ != n,
{
    broadcast use group_to_multiset_ensures;

    let (merged, gs) = choose|merged: Seq<Funding>, gs: Seq<Vec<Funding>>|
        {
            &&& merged.to_multiset() == all.to_multiset()
            &&& sorted_by_name(merged)
            &&& #[trigger] is_chunking(merged, gs)
            &&& r@ == stable_ranked(candidates_of_groups(gs))
            &&& r@.to_multiset() == candidates_of_groups(gs).to_multiset()
            &&& ranked(r@)
        };
    lemma_merge_groups_match(all, merged, gs);
    assert forall|i: int| 0 <= i < r@.len() implies (#[trigger] r@[i]).currency_name@ != n by {
        let c = r@[i];
        assert(r@.contains(c));
        assert(r@.to_multiset().count(c) > 0);
        assert(candidates_of_groups(gs).contains(c));
        lemma_candidate_group(gs, c);
        let (k, q) = choose|k: int, q: int|
            0 <= k < gs.len() && 0 <= q < group_candidates_of(gs[k]@).len()
                && #[trigger] group_candidates_of(gs[k]@)[q] == c;
        let g = gs[k]@;
        let ps = index_pairs(g.len() as int);
        lemma_pairs_from_bounds(0, g.len() as int);
        assert(group_candidates_of(g).contains(c));
        lemma_fitting_member(g, ps, c);
        let t = choose|t: int|
            0 <= t < ps.len() && pair_fits(g[ps[t].0], g[ps[t].1]) && c == candidate_of(
                g[ps[t].0],
                g[ps[t].1],
            );
        let p = ps[t];
        assert(0 <= p.0 < p.1 < g.len());
        assert(c.currency_name == g[p.0].currency_name);
        lemma_chunk_member(merged, gs, k, p.0);
        if c.currency_name@ == n {
            let named = named(all, n);
            assert forall|x: Funding| gs[k]@.to_multiset().count(x) == named.to_multiset().count(x) by {
                lemma_filter_count(all, n, x);
            }
            assert(gs[k]@.to_multiset() =~= named.to_multiset());
            assert(gs[k]@.to_multiset().len() == named.to_multiset().len());
            assert(gs[k]@.len() == named.len());
        }
    }
}

/// Every candidate of a group is among the candidates of all the groups.
proof fn lemma_group_candidate_listed(gs: Seq<Vec<Funding>>, k: int, q: int)
    requires
        0 <= k < gs.len(),
        0 <= q < group_candidates_of(gs[k]@).len(),
    ensures
        candidates_of_groups(gs).contains(group_candidates_of(gs[k]@)[q]),
    decreases gs.len(),
{
    let before = candidates_of_groups(gs.drop_last());
    let c = group_candidates_of(gs[k]@)[q];
    if k == gs.len() - 1 {
        assert(candidates_of_groups(gs)[before.len() + q] == c);
    } else {
        assert(gs.drop_last()[k] == gs[k]);
        lemma_group_candidate_listed(gs.drop_last(), k, q);
        let i = choose|i: int| 0 <= i < before.len() && before[i] == c;
        assert(candidates_of_groups(gs)[i] == c);
    }
}

/// A currency that two or more records carry gets a candidate, where the
/// figures of its records fit: venues that failed take nothing away from the others.
pub proof fn lemma_shared_currency_has_candidate(
    all: Seq<Funding>,
    r: Vec<PositionCandidate>,
    n: Seq<char>,
)
    requires
        cycle_result(all, r),
        records_named(all, n) >= 2,
        forall|i: int, j: int|
            0 <= i < all.len() && 0 <= j < all.len() ==> #[trigger] pair_fits(all[i], all[j]),
    ensures
        exists|i: int| 0 <= i < r@.len() && (#[trigger] r@[i]).currency_name@ == n,
{
    broadcast use group_to_multiset_ensures;

    let (merged, gs) = choose|merged: Seq<Funding>, gs: Seq<Vec<Funding>>|
        {
            &&& merged.to_multiset() == all.to_multiset()
            &&& sorted_by_name(merged)
            &&& #[trigger] is_chunking(merged, gs)
            &&& r@ == stable_ranked(candidates_of_groups(gs))
            &&& r@.to_multiset() == candidates_of_groups(gs).to_multiset()
            &&& ranked(r@)
        };
    lemma_merge_groups_match(all, merged, gs);
    let named = named(all, n);
    let x = named[0];
    assert(named.contains(x));
    assert(x.currency_name@ == n) by {
        all.lemma_filter_pred(name_is(n), 0);
    }
    lemma_filter_count(all, n, x);
    assert(all.contains(x));
    let i0 = choose|i: int| 0 <= i < all.len() && all[i] == x;
    assert(all[i0] == x);
    let k = choose|k: int| 0 <= k < gs.len() && (#[trigger] gs[k])@[0].currency_name@ == all[i0].currency_name@;
    let g = gs[k]@;
    assert forall|y: Funding| g.to_multiset().count(y) == named.to_multiset().count(y) by {
        lemma_filter_count(all, n, y);
    }
    assert(g.to_multiset() =~= named.to_multiset());
    assert(g.to_multiset().len() == named.to_multiset().len());
    assert(g.len() >= 2);
    lemma_pairs_from_bounds(0, g.len() as int);
    let ps = index_pairs(g.len() as int);
    assert(pairs_from(0, g.len() as int)[0] == (0int, 1int));
    let p = ps[0];
    assert(p == (0int, 1int));
    assert forall|t: int| 0 <= t < 2 implies all.contains(#[trigger] g[t]) by {
        assert(g.contains(g[t]));
        assert(g.to_multiset().count(g[t]) > 0);
        lemma_filter_count(all, n, g[t]);
    }
    let ia = choose|i: int| 0 <= i < all.len() && all[i] == g[0];
    let ib = choose|i: int| 0 <= i < all.len() && all[i] == g[1];
    assert(pair_fits(all[ia], all[ib]));
    lemma_fitting_listed(g, ps, 0);
    let c = candidate_of(g[0], g[1]);
    assert(group_candidates_of(g).contains(c));
    let q = choose|q: int| 0 <= q < group_candidates_of(g).len() && group_candidates_of(g)[q] == c;
    assert(c.currency_name == g[0].currency_name);
    lemma_chunk_member(merged, gs, k, 0);
    lemma_group_candidate_listed(gs, k, q);
    assert(candidates_of_groups(gs).to_multiset().count(c) > 0);
    assert(r@.to_multiset().count(c) > 0);
    assert(r@.contains(c));
    let i = choose|i: int| 0 <= i < r@.len() && r@[i] == c;
    assert(r@[i].currency_name@ == n);
}

pub proof fn lemma_chunk_member(merged: Seq<Funding>, gs: Seq<Vec<Funding>>, k: int, t: int)
    requires
        is_chunking(merged, gs),
        0 <= k < gs.len(),
        0 <= t < gs[k]@.len(),
    ensures
        gs[k]@[t].currency_name@ == gs[k]@[0].currency_name@,
{
    reveal(is_chunking);
        reveal(runs_nonempty);
        reveal(runs_uniform);
        reveal(runs_differ);
}

/// In a sorted sequence cut into runs, two runs never share a name.
#[verifier::rlimit(100)]
proof fn lemma_distinct_groups(merged: Seq<Funding>, gs: Seq<Vec<Funding>>, a: int, b: int)
    requires
        sorted_by_name(merged),
        is_chunking(merged, gs),
        0 <= a < b < gs.len(),
    ensures
        gs[a]@[0].currency_name@ != gs[b]@[0].currency_name@,
{
    let p = flat(gs.take(a)).len() as int;
    let mid = flat(gs.take(a + 1)).len() as int;
    let q = flat(gs.take(b)).len() as int;
    assert(flat(gs) == merged && gs[a]@.len() > 0 && gs[a + 1]@.len() > 0 && gs[b]@.len() > 0
        && gs[a]@[0].currency_name@ != gs[a + 1]@[0].currency_name@) by {
        reveal(is_chunking);
        reveal(runs_nonempty);
        reveal(runs_uniform);
        reveal(runs_differ);
    }
    lemma_flat_position(gs, a);
    lemma_flat_position(gs, a + 1);
    lemma_flat_position(gs, b);
    lemma_flat_prefix_len(gs, a + 1, b);
    assert(merged[p + 0] == gs[a]@[0]);
    assert(merged[mid + 0] == gs[a + 1]@[0]);
    assert(merged[q + 0] == gs[b]@[0]);
    let n = gs[a]@[0].currency_name@;
    let m = gs[a + 1]@[0].currency_name@;
    let o = gs[b]@[0].currency_name@;
    assert(0 <= p < mid <= q < merged.len());
    assert(!name_lt(m, n)) by {
        reveal(sorted_by_name);
        assert(!name_lt(merged[mid].currency_name@, merged[p].currency_name@));
    }
    assert(mid < q ==> !name_lt(o, m)) by {
        reveal(sorted_by_name);
        if mid < q {
            assert(!name_lt(merged[q].currency_name@, merged[mid].currency_name@));
        }
    }
    lemma_name_lt_total(m, n);
}

/// The records each vector holds.
pub open spec fn group_views(gs: Seq<Vec<Funding>>) -> Seq<Seq<Funding>> {
    gs.map_values(|v: Vec<Funding>| v@)
}

/// Dropping the last run leaves a cutting of what comes before it.
pub proof fn lemma_chunking_drop_last(s: Seq<Funding>, gs: Seq<Vec<Funding>>)
    requires
        is_chunking(s, gs),
        gs.len() > 0,
    ensures
        is_chunking(flat(gs.drop_last()), gs.drop_last()),
        s == flat(gs.drop_last()) + gs.last()@,
        gs.last()@.len() > 0,
{
    let d = gs.drop_last();
    reveal(is_chunking);
    assert(gs.last()@.len() > 0) by {
        reveal(runs_nonempty);
        assert(gs[gs.len() - 1] == gs.last());
    }
    assert(runs_nonempty(d)) by {
        reveal(runs_nonempty);
        assert forall|k: int| 0 <= k < d.len() implies (#[trigger] d[k])@.len() > 0 by {
            assert(d[k] == gs[k]);
        }
    }
    assert(runs_uniform(d)) by {
        reveal(runs_uniform);
        assert forall|k: int, i: int| 0 <= k < d.len() && 0 <= i < d[k]@.len() implies (
        #[trigger] d[k]@[i]).currency_name@ == d[k]@[0].currency_name@ by {
            assert(d[k] == gs[k]);
            assert(gs[k]@[i].currency_name@ == gs[k]@[0].currency_name@);
        }
    }
    assert(runs_differ(d)) by {
        reveal(runs_differ);
        assert forall|k: int| 0 <= k < d.len() - 1 implies (#[trigger] d[k])@[0].currency_name@
            != d[k + 1]@[0].currency_name@ by {
            assert(d[k] == gs[k]);
            assert(d[k + 1] == gs[k + 1]);
        }
    }
}

/// A sequence has one cutting into maximal runs of one currency name.
#[verifier::rlimit(100)]
pub proof fn lemma_chunking_unique(s: Seq<Funding>, g1: Seq<Vec<Funding>>, g2: Seq<Vec<Funding>>)
    requires
        is_chunking(s, g1),
        is_chunking(s, g2),
    ensures
        group_views(g1) == group_views(g2),
    decreases s.len(),
{
    if g1.len() == 0 || g2.len() == 0 {
        if g1.len() > 0 {
            lemma_chunking_drop_last(s, g1);
            assert(flat(g2) == s) by {
                reveal(is_chunking);
        reveal(runs_nonempty);
        reveal(runs_uniform);
        reveal(runs_differ);
            }
        }
        if g2.len() > 0 {
            lemma_chunking_drop_last(s, g2);
            assert(flat(g1) == s) by {
                reveal(is_chunking);
        reveal(runs_nonempty);
        reveal(runs_uniform);
        reveal(runs_differ);
            }
        }
        assert(group_views(g1) =~= group_views(g2));
    } else {
        lemma_chunking_drop_last(s, g1);
        lemma_chunking_drop_last(s, g2);
        let a = g1.last()@;
        let b = g2.last()@;
        let p1 = flat(g1.drop_last());
        let p2 = flat(g2.drop_last());
        let n = s.len() as int;
        assert(s[n - 1] == a[a.len() - 1]);
        assert(s[n - 1] == b[b.len() - 1]);
        assert(a[a.len() - 1].currency_name@ == a[0].currency_name@ && b[b.len() - 1].currency_name@
            == b[0].currency_name@) by {
            reveal(is_chunking);
        reveal(runs_nonempty);
        reveal(runs_uniform);
        reveal(runs_differ);
            assert(g1[g1.len() - 1] == g1.last());
            assert(g2[g2.len() - 1] == g2.last());
        }
        lemma_run_boundary(s, g1, g2);
        lemma_run_boundary(s, g2, g1);
        assert(a =~= s.subrange(n - a.len(), n));
        assert(b =~= s.subrange(n - b.len(), n));
        assert(p1 =~= s.subrange(0, n - a.len()));
        assert(p2 =~= s.subrange(0, n - b.len()));
        lemma_chunking_unique(p1, g1.drop_last(), g2.drop_last());
        assert(group_views(g1) =~= group_views(g1.drop_last()).push(a));
        assert(group_views(g2) =~= group_views(g2.drop_last()).push(b));
    }
}

/// The last run of one cutting is no shorter than that of another.
#[verifier::rlimit(100)]
proof fn lemma_run_boundary(s: Seq<Funding>, g1: Seq<Vec<Funding>>, g2: Seq<Vec<Funding>>)
    requires
        is_chunking(s, g1),
        is_chunking(s, g2),
        g1.len() > 0,
        g2.len() > 0,
    ensures
        g1.last()@.len() >= g2.last()@.len(),
{
    if g1.last()@.len() < g2.last()@.len() {
        lemma_chunking_drop_last(s, g1);
        lemma_chunking_drop_last(s, g2);
        reveal(is_chunking);
        reveal(runs_nonempty);
        reveal(runs_uniform);
        reveal(runs_differ);
        let a = g1.last()@;
        let b = g2.last()@;
        let p1 = flat(g1.drop_last());
        let n = s.len() as int;
        let idx = n - a.len() - 1;
        let j = idx - (n - b.len());
        assert(s[idx] == b[j]);
        assert(b[j].currency_name@ == b[0].currency_name@) by {
            assert(g2[g2.len() - 1] == g2.last());
        }
        assert(s[n - 1] == a[a.len() - 1]);
        assert(s[n - 1] == b[b.len() - 1]);
        assert(a[a.len() - 1].currency_name@ == a[0].currency_name@) by {
            assert(g1[g1.len() - 1] == g1.last());
        }
        assert(b[b.len() - 1].currency_name@ == b[0].currency_name@) by {
            assert(g2[g2.len() - 1] == g2.last());
        }
        assert(p1.len() > 0);
        let d = g1.drop_last();
        if d.len() == 0 {
            assert(p1.len() == 0);
        }
        lemma_chunking_drop_last(p1, d);
        let c = d.last()@;
        assert(s[idx] == p1[p1.len() - 1]);
        assert(p1[p1.len() - 1] == c[c.len() - 1]);
        let k = g1.len() - 2;
        assert(d.last() == g1[k]);
        assert(g1[k]@[c.len() - 1].currency_name@ == g1[k]@[0].currency_name@);
        assert(g1[k]@[0].currency_name@ != g1[k + 1]@[0].currency_name@);
        assert(g1[k + 1] == g1.last());
    }
}

/// The candidates of runs holding the same records are the same.
proof fn lemma_candidates_of_views(g1: Seq<Vec<Funding>>, g2: Seq<Vec<Funding>>)
    requires
        group_views(g1) == group_views(g2),
    ensures
        candidates_of_groups(g1) == candidates_of_groups(g2),
    decreases g1.len(),
{
    assert(g1.len() == group_views(g1).len());
    if g1.len() > 0 {
        assert(group_views(g1.drop_last()) =~= group_views(g1).drop_last());
        assert(group_views(g2.drop_last()) =~= group_views(g2).drop_last());
        lemma_candidates_of_views(g1.drop_last(), g2.drop_last());
        assert(g1.last()@ == group_views(g1)[g1.len() - 1]);
        assert(g2.last()@ == group_views(g2)[g2.len() - 1]);
    }
}

/// Two cycles on the same venues' records publish the same candidates, in
/// the same order.
pub proof fn lemma_cycle_deterministic(
    venues: Seq<Vec<Funding>>,
    r1: Vec<PositionCandidate>,
    r2: Vec<PositionCandidate>,
)
    requires
        cycle_output(venues, r1),
        cycle_output(venues, r2),
    ensures
        r1@ == r2@,
{
    let m = merged_of(venues);
    let g1 = choose|gs: Seq<Vec<Funding>>|
        #[trigger] is_chunking(m, gs) && r1@ == stable_ranked(candidates_of_groups(gs));
    let g2 = choose|gs: Seq<Vec<Funding>>|
        #[trigger] is_chunking(m, gs) && r2@ == stable_ranked(candidates_of_groups(gs));
    lemma_chunking_unique(m, g1, g2);
    lemma_candidates_of_views(g1, g2);
}

/// Vectors that pairwise hold the same records hold, together, the same records.
proof fn lemma_flat_multiset(a: Seq<Vec<Funding>>, b: Seq<Vec<Funding>>)
    requires
        a.len() == b.len(),
        forall|i: int| 0 <= i < a.len() ==> (#[trigger] a[i])@.to_multiset() == b[i]@.to_multiset(),
    ensures
        flat(a).to_multiset() == flat(b).to_multiset(),
    decreases a.len(),
{
    if a.len() > 0 {
        lemma_flat_multiset(a.drop_last(), b.drop_last());
        lemma_multiset_commutative(flat(a.drop_last()), a.last()@);
        lemma_multiset_commutative(flat(b.drop_last()), b.last()@);
    }
}

/// Relies on itertools' `sorted_by_key`, a stable sort by the key's `Ord`; the
/// key is the currency name, and `String` orders by code point, as `name_lt` does.
#[verifier::external_body]
fn sort_by_name(v: Vec<Funding>) -> (r: Vec<Funding>)
    ensures
        r@ == stable_by_name(v@),
        r@.to_multiset() == v@.to_multiset(),
        sorted_by_name(r@),
{
    v.into_iter().sorted_by_key(|f| f.currency_name.clone()).collect()
}

/// Relies on itertools' `kmerge_by`, which yields every record of every input
/// once, and yields them sorted where each input is sorted by the closure's order;
/// its heap merge depends on the inputs alone.
#[verifier::external_body]
fn merge_by_name(vs: Vec<Vec<Funding>>) -> (r: Vec<Funding>)
    ensures
        r@ == kmerged_by_name(vs@.map_values(|v: Vec<Funding>| v@)),
        r@.to_multiset() == flat(vs@).to_multiset(),
        (forall|i: int| 0 <= i < vs@.len() ==> sorted_by_name(#[trigger] vs@[i]@)) ==> sorted_by_name(
            r@,
        ),
{
    vs.into_iter().kmerge_by(|a, b| name_less(a, b)).collect()
}

/// Relies on itertools' `chunk_by`, which cuts the input into maximal runs of
/// records whose keys, the currency names, are equal.
#[verifier::external_body]
fn chunk_by_name(v: Vec<Funding>) -> (r: Vec<Vec<Funding>>)
    ensures
        is_chunking(v@, r@),
{
    let chunks = v.into_iter().chunk_by(|f| f.currency_name.clone());
    chunks.into_iter().map(|(_, g)| g.collect()).collect()
}

/// Relies on itertools' `sorted_by`, a stable sort (`slice::sort_by`) by the
/// total order `yield_order` gives: the same candidates, higher yields first,
/// equal yields in their input order, so an input already in that order comes
/// back as it was.
#[verifier::external_body]
fn sort_by_yield(v: Vec<PositionCandidate>) -> (r: Vec<PositionCandidate>)
    ensures
        r@ == stable_ranked(v@),
        r@.to_multiset() == v@.to_multiset(),
        ranked(r@),
        ranked(v@) ==> r@ == v@,
{
    v.into_iter().sorted_by(|a, b| yield_order(a, b)).collect()
}

/// Higher yield first; equal yields compare equal.
pub fn yield_order(a: &PositionCandidate, b: &PositionCandidate) -> (r: Ordering)
    ensures
        r == (if dec_lt(b.apy, a.apy) {
            Ordering::Less
        } else if dec_lt(a.apy, b.apy) {
            Ordering::Greater
        } else {
            Ordering::Equal
        }),
{
    if b.apy.less_than(&a.apy) {
        Ordering::Less
    } else if a.apy.less_than(&b.apy) {
        Ordering::Greater
    } else {
        Ordering::Equal
    }
}

/// Sorts each venue's records by currency name and merges the venues into
/// one sequence sorted by currency name.
pub fn merge_venues(venues: Vec<Vec<Funding>>) -> (r: Vec<Funding>)
    ensures
        r@ == merged_of(venues@),
        r@.to_multiset() == flat(venues@).to_multiset(),
        sorted_by_name(r@),
{
    let ghost orig = venues@;
    let mut rest = venues;
    let mut sorted: Vec<Vec<Funding>> = Vec::new();
    while rest.len() > 0
        invariant
            sorted@.len() + rest@.len() == orig.len(),
            rest@ == orig.subrange(sorted@.len() as int, orig.len() as int),
            forall|i: int|
                0 <= i < sorted@.len() ==> (#[trigger] sorted@[i])@.to_multiset()
                    == orig[i]@.to_multiset() && sorted_by_name(sorted@[i]@) && sorted@[i]@
                    == stable_by_name(orig[i]@),
        decreases rest@.len(),
    {
        let v = rest.remove(0);
        let s = sort_by_name(v);
        sorted.push(s);
    }
    proof {
        lemma_flat_multiset(sorted@, orig);
        assert(sorted@.map_values(|v: Vec<Funding>| v@) =~= orig.map_values(
            |v: Vec<Funding>| stable_by_name(v@),
        ));
    }
    merge_by_name(sorted)
}

/// Cuts a sequence sorted by currency name into its currency groups.
pub fn group_by_currency(merged: Vec<Funding>) -> (r: Vec<Vec<Funding>>)
    ensures
        is_chunking(merged@, r@),
{
    chunk_by_name(merged)
}

/// Orders candidates by yield, highest first, keeping the order of equal yields.
pub fn rank_candidates(v: Vec<PositionCandidate>) -> (r: Vec<PositionCandidate>)
    ensures
        r@ == stable_ranked(v@),
        r@.to_multiset() == v@.to_multiset(),
        ranked(r@),
        ranked(v@) ==> r@ == v@,
{
    sort_by_yield(v)
}

/// The candidates of every group, group after group.
pub fn candidates_of_all_groups(groups: &Vec<Vec<Funding>>) -> (r: Vec<PositionCandidate>)
    ensures
        r@ == candidates_of_groups(groups@),
{
    let mut out: Vec<PositionCandidate> = Vec::new();
    let mut k: usize = 0;
    while k < groups.len()
        invariant
            k <= groups@.len(),
            out@ == candidates_of_groups(groups@.subrange(0, k as int)),
        decreases groups@.len() - k,
    {
        let mut cs = group_candidates(&groups[k]);
        out.append(&mut cs);
        assert(groups@.subrange(0, k + 1).drop_last() =~= groups@.subrange(0, k as int));
        k = k + 1;
    }
    assert(groups@.subrange(0, k as int) =~= groups@);
    out
}

/// One cycle on the records of the given venues: merge, group, pair, rank.
pub fn build_candidates(venues: Vec<Vec<Funding>>) -> (r: Vec<PositionCandidate>)
    ensures
        cycle_result(flat(venues@), r),
        cycle_output(venues@, r),
{
    let merged = merge_venues(venues);
    let ghost m = merged@;
    let groups = group_by_currency(merged);
    let r = rank_candidates(candidates_of_all_groups(&groups));
    assert(is_chunking(m, groups@));
    r
}

/// One cycle where some venues' fetches failed: the failed venues are left out
/// and the others go through `build_candidates`.
pub fn cycle_candidates(outcomes: Vec<Option<Vec<Funding>>>) -> (r: Vec<PositionCandidate>)
    ensures
        cycle_result(flat(successes(outcomes@)), r),
        cycle_output(successes(outcomes@), r),
{
    let ghost orig = outcomes@;
    let mut rest = outcomes;
    let mut ok: Vec<Vec<Funding>> = Vec::new();
    let mut k: usize = 0;
    assert(orig.len() == rest.len());
    while rest.len() > 0
        invariant
            k + rest@.len() == orig.len(),
            orig.len() <= usize::MAX,
            rest@ == orig.subrange(k as int, orig.len() as int),
            ok@ == successes(orig.subrange(0, k as int)),
        decreases rest@.len(),
    {
        let o = rest.remove(0);
        assert(orig.subrange(0, k + 1).drop_last() =~= orig.subrange(0, k as int));
        assert(orig.subrange(0, k + 1).last() == o);
        match o {
            Some(v) => ok.push(v),
            None => {},
        }
        k = k + 1;
    }
    assert(orig.subrange(0, k as int) =~= orig);
    build_candidates(ok)
}

} // verus!

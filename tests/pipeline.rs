use funding_arb::aggregate::{build_candidates, cycle_candidates, group_by_currency, merge_venues, rank_candidates};
use funding_arb::candidate::{group_candidates, pair_candidate, ANNUALIZATION_FACTOR};
use funding_arb::decimal::Dec;
use funding_arb::model::{name_less, Exchange, Funding, PositionCandidate};
use funding_arb::store::CandidateStore;

fn rec(name: &str, exchange: Exchange, mantissa: i128, scale: u32) -> Funding {
    Funding {
        currency_name: name.to_string(),
        funding_rate: Dec::new(mantissa, scale),
        market_name: format!("{}-PERP", name),
        exchange,
        open_interest: None,
        best_bid: None,
        best_ask: None,
    }
}

/// The value of `d` times `10^28`, for comparing decimals of different scales.
fn at28(d: Dec) -> i128 {
    d.mantissa * 10i128.pow(28 - d.scale)
}

fn not_below(a: Dec, b: Dec) -> bool {
    at28(a) >= at28(b)
}

#[test]
fn btc_example_two_venues() {
    let a = vec![rec("BTC", Exchange::Paradex, 1, 4)];
    let b = vec![rec("BTC", Exchange::Extended, -2, 4)];
    let r = build_candidates(vec![a, b]);
    assert_eq!(r.len(), 1);
    let c = &r[0];
    assert_eq!(c.currency_name, "BTC");
    assert_eq!(c.long_on, Exchange::Paradex);
    assert_eq!(c.short_on, Exchange::Extended);
    assert_eq!(c.long_funding, Dec::new(1, 4));
    assert_eq!(c.short_funding, Dec::new(-2, 4));
    assert_eq!(c.total_funding, Dec::new(3, 4));
    assert_eq!(c.apy, Dec::new(2_628_000, 4));
    assert_eq!(at28(c.apy), at28(Dec::new(2628, 1)));
    assert_eq!(c.spread, None);
}

#[test]
fn annualization_factor_is_hourly_percent() {
    assert_eq!(ANNUALIZATION_FACTOR, 876_000);
}

#[test]
fn lone_currency_gives_no_candidates() {
    let a = vec![rec("BTC", Exchange::Paradex, 1, 4), rec("SOL", Exchange::Paradex, 5, 4)];
    let b = vec![rec("BTC", Exchange::Hyperliquid, 3, 4)];
    let r = build_candidates(vec![a, b]);
    assert_eq!(r.len(), 1);
    assert!(r.iter().all(|c| c.currency_name != "SOL"));
}

#[test]
fn failed_venue_is_skipped() {
    let a = vec![rec("BTC", Exchange::Paradex, 1, 4), rec("ETH", Exchange::Paradex, 2, 4)];
    let b = vec![rec("ETH", Exchange::Extended, -1, 4), rec("BTC", Exchange::Extended, 4, 4)];
    let outcomes = vec![Some(a), None, Some(b)];
    let r = cycle_candidates(outcomes);
    assert_eq!(r.len(), 2);
    assert!(r.iter().all(|c| c.long_on != Exchange::Hyperliquid && c.short_on != Exchange::Hyperliquid));
    assert_eq!(r[0].currency_name, "BTC");
    assert_eq!(r[0].total_funding, Dec::new(3, 4));
    assert_eq!(r[1].currency_name, "ETH");
    assert_eq!(r[1].total_funding, Dec::new(3, 4));
}

#[test]
fn currency_of_failed_venue_only_gives_nothing() {
    let a = vec![rec("BTC", Exchange::Paradex, 1, 4)];
    let b = vec![rec("BTC", Exchange::Extended, 2, 4)];
    let outcomes = vec![Some(a), None, Some(b)];
    let r = cycle_candidates(outcomes);
    assert_eq!(r.len(), 1);
    assert!(r.iter().all(|c| c.currency_name != "DOGE"));
}

#[test]
fn all_venues_failed_gives_empty_set() {
    let r = cycle_candidates(vec![None, None, None]);
    assert!(r.is_empty());
}

#[test]
fn group_of_n_gives_all_pairs() {
    let g = vec![
        rec("ETH", Exchange::Paradex, 1, 4),
        rec("ETH", Exchange::Extended, 2, 4),
        rec("ETH", Exchange::Hyperliquid, 3, 4),
        rec("ETH", Exchange::Vest, 4, 4),
    ];
    let cs = group_candidates(&g);
    assert_eq!(cs.len(), 6);
    let venues: Vec<(Exchange, Exchange)> = cs.iter().map(|c| (c.short_on, c.long_on)).collect();
    assert_eq!(
        venues,
        vec![
            (Exchange::Paradex, Exchange::Extended),
            (Exchange::Paradex, Exchange::Hyperliquid),
            (Exchange::Paradex, Exchange::Vest),
            (Exchange::Extended, Exchange::Hyperliquid),
            (Exchange::Extended, Exchange::Vest),
            (Exchange::Hyperliquid, Exchange::Vest),
        ]
    );
    let three = group_candidates(&g[..3].to_vec());
    assert_eq!(three.len(), 3);
    let one = group_candidates(&g[..1].to_vec());
    assert!(one.is_empty());
}

#[test]
fn long_side_has_higher_rate() {
    let venues = vec![
        vec![rec("A", Exchange::Paradex, 7, 3), rec("B", Exchange::Paradex, -5, 5)],
        vec![rec("A", Exchange::Extended, -1, 2), rec("B", Exchange::Extended, 2, 6)],
        vec![rec("A", Exchange::Hyperliquid, 15, 4), rec("B", Exchange::Hyperliquid, 0, 0)],
    ];
    let r = build_candidates(venues);
    assert_eq!(r.len(), 6);
    for c in &r {
        assert!(not_below(c.long_funding, c.short_funding));
        assert_eq!(at28(c.total_funding), at28(c.long_funding) - at28(c.short_funding));
    }
}

#[test]
fn equal_rates_keep_first_as_long() {
    let a = rec("X", Exchange::Vest, 5, 4);
    let b = rec("X", Exchange::Paradex, 50, 5);
    let c = pair_candidate(&a, &b).unwrap();
    assert_eq!(c.long_on, Exchange::Vest);
    assert_eq!(c.short_on, Exchange::Paradex);
    assert_eq!(c.total_funding, Dec::new(0, 5));
}

#[test]
fn price_spread_from_long_bid_and_short_ask() {
    let mut a = rec("X", Exchange::Paradex, 2, 4);
    let mut b = rec("X", Exchange::Extended, 1, 4);
    a.best_bid = Some(Dec::new(100, 0));
    b.best_ask = Some(Dec::new(99, 0));
    a.open_interest = Some(Dec::new(5000, 0));
    b.open_interest = Some(Dec::new(7000, 0));
    let c = pair_candidate(&a, &b).unwrap();
    assert_eq!(at28(c.spread.unwrap()), at28(Dec::new(1, 0)));
    assert_eq!(c.oi_long, Some(Dec::new(5000, 0)));
    assert_eq!(c.oi_short, Some(Dec::new(7000, 0)));
    let mut e = rec("X", Exchange::Paradex, 2, 4);
    e.best_bid = Some(Dec::new(8, 0));
    let d = pair_candidate(&e, &b).unwrap();
    assert_eq!(at28(d.spread.unwrap()), at28(Dec::new(-11_375, 1)));
}

#[test]
fn price_spread_absent_without_prices_or_with_zero_bid() {
    let mut a = rec("X", Exchange::Paradex, 2, 4);
    let b = rec("X", Exchange::Extended, 1, 4);
    a.best_bid = Some(Dec::new(100, 0));
    assert_eq!(pair_candidate(&a, &b).unwrap().spread, None);
    let mut z = rec("X", Exchange::Paradex, 2, 4);
    let mut w = rec("X", Exchange::Extended, 1, 4);
    z.best_bid = Some(Dec::new(0, 0));
    w.best_ask = Some(Dec::new(1, 0));
    assert_eq!(pair_candidate(&z, &w).unwrap().spread, None);
}

#[test]
fn overflowing_rates_give_none() {
    let a = rec("X", Exchange::Paradex, i128::MAX, 0);
    let b = rec("X", Exchange::Extended, -1, 0);
    assert!(pair_candidate(&a, &b).is_none());
    assert!(build_candidates(vec![vec![a], vec![b]]).is_empty());
}

#[test]
fn overflowing_pair_leaves_the_others() {
    // aligning 10^30 to ten places overflows, so only the pair of these two is left out
    let a = rec("X", Exchange::Paradex, 1_000_000_000_000_000_000_000_000_000_000, 0);
    let b = rec("X", Exchange::Extended, 1, 10);
    let c = rec("X", Exchange::Vest, 1, 0);
    let r = build_candidates(vec![vec![a], vec![b], vec![c]]);
    assert_eq!(r.len(), 2);
    let pairs: Vec<(Exchange, Exchange)> = r.iter().map(|x| (x.long_on, x.short_on)).collect();
    assert!(pairs.contains(&(Exchange::Vest, Exchange::Extended)));
    assert!(pairs.contains(&(Exchange::Paradex, Exchange::Vest)));
}

#[test]
fn ranking_is_descending_and_idempotent() {
    let venues = vec![
        vec![rec("A", Exchange::Paradex, 1, 4), rec("B", Exchange::Paradex, 9, 4), rec("C", Exchange::Paradex, 0, 0)],
        vec![rec("A", Exchange::Extended, 2, 4), rec("B", Exchange::Extended, -9, 4), rec("C", Exchange::Extended, 5, 3)],
    ];
    let r = build_candidates(venues);
    let names: Vec<&str> = r.iter().map(|c| c.currency_name.as_str()).collect();
    assert_eq!(names, vec!["C", "B", "A"]);
    for w in r.windows(2) {
        assert!(not_below(w[0].apy, w[1].apy));
    }
    let again = rank_candidates(r.clone());
    let names2: Vec<&str> = again.iter().map(|c| c.currency_name.as_str()).collect();
    assert_eq!(names, names2);
}

#[test]
fn ranking_keeps_order_of_equal_yields() {
    let g = vec![
        rec("A", Exchange::Paradex, 1, 4),
        rec("A", Exchange::Extended, 2, 4),
        rec("A", Exchange::Hyperliquid, 3, 4),
    ];
    let cs = group_candidates(&g);
    let ranked = rank_candidates(cs);
    let pairs: Vec<(Exchange, Exchange)> = ranked.iter().map(|c| (c.short_on, c.long_on)).collect();
    assert_eq!(
        pairs,
        vec![
            (Exchange::Paradex, Exchange::Hyperliquid),
            (Exchange::Paradex, Exchange::Extended),
            (Exchange::Extended, Exchange::Hyperliquid),
        ]
    );
}

#[test]
fn merge_sorts_across_venues() {
    let a = vec![rec("SOL", Exchange::Paradex, 1, 4), rec("BTC", Exchange::Paradex, 1, 4)];
    let b = vec![rec("ETH", Exchange::Extended, 1, 4), rec("ADA", Exchange::Extended, 1, 4), rec("BTC", Exchange::Extended, 1, 4)];
    let m = merge_venues(vec![a, b]);
    let names: Vec<&str> = m.iter().map(|f| f.currency_name.as_str()).collect();
    assert_eq!(names, vec!["ADA", "BTC", "BTC", "ETH", "SOL"]);
}

#[test]
fn grouping_cuts_runs_of_one_name() {
    let m = vec![
        rec("ADA", Exchange::Paradex, 1, 4),
        rec("BTC", Exchange::Paradex, 1, 4),
        rec("BTC", Exchange::Extended, 1, 4),
        rec("ETH", Exchange::Extended, 1, 4),
    ];
    let g = group_by_currency(m);
    let sizes: Vec<usize> = g.iter().map(|v| v.len()).collect();
    assert_eq!(sizes, vec![1, 2, 1]);
    assert_eq!(g[1][0].currency_name, "BTC");
}

#[test]
fn grouping_after_merge_matches_plain_group_by() {
    let a = vec![rec("ETH", Exchange::Paradex, 1, 4), rec("BTC", Exchange::Paradex, 1, 4)];
    let b = vec![rec("BTC", Exchange::Extended, 1, 4), rec("XRP", Exchange::Extended, 1, 4)];
    let c = vec![rec("ETH", Exchange::Hyperliquid, 1, 4), rec("BTC", Exchange::Hyperliquid, 1, 4)];
    let g = group_by_currency(merge_venues(vec![a, b, c]));
    let summary: Vec<(String, usize)> = g.iter().map(|v| (v[0].currency_name.clone(), v.len())).collect();
    assert_eq!(
        summary,
        vec![("BTC".to_string(), 3), ("ETH".to_string(), 2), ("XRP".to_string(), 1)]
    );
}

#[test]
fn names_compare_by_code_point() {
    let a = rec("BTC", Exchange::Paradex, 0, 0);
    let b = rec("BTCX", Exchange::Paradex, 0, 0);
    let c = rec("btc", Exchange::Paradex, 0, 0);
    assert!(name_less(&a, &b));
    assert!(!name_less(&b, &a));
    assert!(name_less(&a, &c));
    assert!(!name_less(&a, &a));
}

#[test]
fn decimal_arithmetic_is_exact() {
    let a = Dec::new(15, 1);
    let b = Dec::new(-25, 3);
    assert_eq!(a.checked_sub(&b), Some(Dec::new(1525, 3)));
    assert_eq!(b.checked_abs(), Some(Dec::new(25, 3)));
    assert_eq!(a.checked_times(4), Some(Dec::new(60, 1)));
    assert!(b.less_than(&a));
    assert!(!a.less_than(&b));
    assert!(!a.less_than(&Dec::new(150, 2)));
    assert_eq!(Dec::new(i128::MIN, 0).checked_abs(), None);
    assert_eq!(Dec::new(i128::MAX, 0).checked_sub(&Dec::new(1, 1)), None);
    assert!(Dec::new(-1, 0).less_than(&Dec::new(i128::MIN, 38)) == false);
    assert!(Dec::new(1, 0).less_than(&Dec::new(i128::MAX, 0)));
}

#[test]
fn decimal_division_goes_through_rust_decimal() {
    let q = Dec::new(1, 0).checked_div(&Dec::new(4, 0)).unwrap();
    assert_eq!(at28(q), at28(Dec::new(25, 2)));
    assert_eq!(Dec::new(1, 0).checked_div(&Dec::new(0, 0)), None);
}

#[test]
fn store_starts_empty_and_copies_top() {
    let mut s = CandidateStore::new();
    assert!(s.read_top(5).is_empty());
    let venues = vec![
        vec![rec("A", Exchange::Paradex, 1, 4), rec("B", Exchange::Paradex, 9, 4)],
        vec![rec("A", Exchange::Extended, 2, 4), rec("B", Exchange::Extended, -9, 4)],
    ];
    let set = build_candidates(venues);
    let old = s.replace(set);
    assert!(old.is_empty());
    let top: Vec<PositionCandidate> = s.read_top(1);
    assert_eq!(top.len(), 1);
    assert_eq!(top[0].currency_name, "B");
    assert_eq!(s.read_top(10).len(), 2);
    let newer = build_candidates(vec![vec![rec("C", Exchange::Vest, 1, 2)], vec![rec("C", Exchange::Paradex, 0, 0)]]);
    let before = s.replace(newer);
    assert_eq!(before.len(), 2);
    assert_eq!(top[0].currency_name, "B");
    let now = s.read_top(10);
    assert_eq!(now.len(), 1);
    assert_eq!(now[0].currency_name, "C");
}

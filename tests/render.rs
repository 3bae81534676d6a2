use funding_arb::aggregate::build_candidates;
use funding_arb::decimal::Dec;
use funding_arb::model::{Exchange, Funding};
use funding_arb::render::{candidates_to_string, format_short};

fn rec(name: &str, exchange: Exchange, mantissa: i128, scale: u32) -> Funding {
    Funding {
        currency_name: name.to_string(),
        funding_rate: Dec::new(mantissa, scale),
        market_name: name.to_string(),
        exchange,
        open_interest: None,
        best_bid: None,
        best_ask: None,
    }
}

#[test]
fn short_amounts_use_units() {
    assert_eq!(format_short(Dec::new(1_500_000_000, 0)), "1.50B");
    assert_eq!(format_short(Dec::new(2_345_678, 0)), "2.34M");
    assert_eq!(format_short(Dec::new(1234, 0)), "1.23K");
    assert_eq!(format_short(Dec::new(-5000, 0)), "-5.00K");
    assert_eq!(format_short(Dec::new(999, 0)), "999");
    assert_eq!(format_short(Dec::new(12_345, 3)), "12.34");
    assert_eq!(format_short(Dec::new(1000, 0)), "1.00K");
}

#[test]
fn empty_set_renders_empty() {
    assert_eq!(candidates_to_string(&[]), "");
}

#[test]
fn one_candidate_block() {
    let a = vec![rec("BTC", Exchange::Paradex, 1, 4)];
    let b = vec![rec("BTC", Exchange::Extended, -2, 4)];
    let r = build_candidates(vec![a, b]);
    let text = candidates_to_string(&r);
    assert_eq!(
        text,
        "currency:          BTC\n\
total funding:  0.0300%h\n\
APY:                262.80%\n\
Spread:         0%\n\
Long on:        Paradex\n\
Long Funding:   0.0100\n\
Long OI:        0$\n\
Short on:       Extended\n\
Short Funding:  -0.0200\n\
Short OI:       0$\n"
    );
}

#[test]
fn blocks_are_separated_by_dashes() {
    let mut a = rec("ETH", Exchange::Hyperliquid, 5, 4);
    a.open_interest = Some(Dec::new(2_500_000, 0));
    let venues = vec![
        vec![rec("BTC", Exchange::Paradex, 1, 4), a],
        vec![rec("BTC", Exchange::Vest, 2, 4), rec("ETH", Exchange::Vest, 1, 4)],
    ];
    let r = build_candidates(venues);
    let text = candidates_to_string(&r);
    let parts: Vec<&str> = text.split("---------------------------------\n").collect();
    assert_eq!(parts.len(), 2);
    assert!(parts[0].starts_with("currency:          ETH\n"));
    assert!(parts[0].contains("Long OI:        2.50M$\n"));
    assert!(parts[1].starts_with("currency:          BTC\n"));
    assert!(parts[1].contains("Long on:        Vest\n"));
}

#[test]
fn tiny_negative_rate_rounds_to_zero() {
    let a = vec![rec("BTC", Exchange::Paradex, 0, 0)];
    let b = vec![rec("BTC", Exchange::Extended, -1, 9)];
    let r = build_candidates(vec![a, b]);
    let text = candidates_to_string(&r);
    assert!(text.contains("Short Funding:  0.000000\n"), "{}", text);
    assert!(text.contains("Long Funding:   0\n"));
}

#[test]
fn open_interest_rounds_ties_to_even() {
    let mut a = rec("ETH", Exchange::Paradex, 2, 4);
    a.open_interest = Some(Dec::new(25_005, 1));
    let mut b = rec("ETH", Exchange::Vest, 1, 4);
    b.open_interest = Some(Dec::new(15_015, 1));
    let r = build_candidates(vec![vec![a], vec![b]]);
    let text = candidates_to_string(&r);
    assert!(text.contains("Long OI:        2.50K$\n"));
    assert!(text.contains("Short OI:       1.50K$\n"));
}

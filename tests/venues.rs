use funding_arb::decimal::Dec;
use funding_arb::model::Exchange;
use funding_arb::venues::{extended_record, hyperliquid_record, paradex_record, prefix_before};

fn at28(d: Dec) -> i128 {
    d.mantissa * 10i128.pow(28 - d.scale)
}

#[test]
fn prefix_stops_at_first_marker() {
    assert_eq!(prefix_before("BTC-USD-PERP", "-USD-PERP"), "BTC");
    assert_eq!(prefix_before("ETH", "-USD-PERP"), "ETH");
    assert_eq!(prefix_before("-USD-PERP", "-USD-PERP"), "");
    assert_eq!(prefix_before("A-USD-PERP-USD-PERP", "-USD-PERP"), "A");
    assert_eq!(prefix_before("X-USD", "-USD-PERP"), "X-USD");
}

#[test]
fn paradex_record_scales_rate_and_values_interest() {
    let f = paradex_record(
        "BTC-USD-PERP".to_string(),
        Dec::new(101, 0),
        Dec::new(99, 0),
        Dec::new(3, 0),
        Dec::new(8, 4),
    )
    .unwrap();
    assert_eq!(f.currency_name, "BTC");
    assert_eq!(f.market_name, "BTC-USD-PERP");
    assert_eq!(f.exchange, Exchange::Paradex);
    assert_eq!(at28(f.funding_rate), at28(Dec::new(1, 4)));
    assert_eq!(at28(f.open_interest.unwrap()), at28(Dec::new(300, 0)));
    assert_eq!(f.best_bid, Some(Dec::new(99, 0)));
    assert_eq!(f.best_ask, Some(Dec::new(101, 0)));
}

#[test]
fn paradex_usdc_is_left_out() {
    let r = paradex_record("USDC".to_string(), Dec::new(1, 0), Dec::new(1, 0), Dec::new(1, 0), Dec::new(1, 4));
    assert!(r.is_none());
    let kept = paradex_record("USDCX".to_string(), Dec::new(1, 0), Dec::new(1, 0), Dec::new(1, 0), Dec::new(1, 4));
    assert!(kept.is_some());
}

#[test]
fn extended_record_drops_empty_books() {
    let f = extended_record(
        "ETH".to_string(),
        "ETH-USD".to_string(),
        Dec::new(2001, 0),
        Dec::new(1999, 0),
        Dec::new(500, 0),
        Dec::new(-3, 5),
    )
    .unwrap();
    assert_eq!(f.currency_name, "ETH");
    assert_eq!(f.market_name, "ETH-USD");
    assert_eq!(f.exchange, Exchange::Extended);
    assert_eq!(f.funding_rate, Dec::new(-3, 5));
    assert_eq!(f.open_interest, Some(Dec::new(500, 0)));
    let no_ask = extended_record("A".to_string(), "A-USD".to_string(), Dec::new(0, 2), Dec::new(1, 0), Dec::new(1, 0), Dec::new(1, 4));
    assert!(no_ask.is_none());
    let no_bid = extended_record("A".to_string(), "A-USD".to_string(), Dec::new(1, 0), Dec::new(0, 0), Dec::new(1, 0), Dec::new(1, 4));
    assert!(no_bid.is_none());
}

#[test]
fn hyperliquid_record_values_interest_at_mid() {
    let f = hyperliquid_record(
        "SOL".to_string(),
        Dec::new(125, 7),
        Some(Dec::new(15, 1)),
        Some(Dec::new(200, 0)),
        Some(Dec::new(1995, 1)),
        Some(Dec::new(2005, 1)),
    )
    .unwrap();
    assert_eq!(f.currency_name, "SOL");
    assert_eq!(f.market_name, "SOL");
    assert_eq!(f.exchange, Exchange::Hyperliquid);
    assert_eq!(f.open_interest, Some(Dec::new(3000, 1)));
    assert_eq!(f.best_bid, Some(Dec::new(1995, 1)));
    assert_eq!(f.best_ask, Some(Dec::new(2005, 1)));
    let g = hyperliquid_record("SOL".to_string(), Dec::new(1, 4), None, None, None, None).unwrap();
    assert_eq!(g.open_interest, None);
}

#[test]
fn decimal_add_and_mul_are_exact() {
    assert_eq!(Dec::new(15, 1).checked_add(&Dec::new(-25, 3)), Some(Dec::new(1475, 3)));
    assert_eq!(Dec::new(15, 1).checked_mul(&Dec::new(-25, 3)), Some(Dec::new(-375, 4)));
    assert_eq!(Dec::new(i128::MAX, 0).checked_add(&Dec::new(1, 0)), None);
    assert_eq!(Dec::new(i128::MAX, 0).checked_mul(&Dec::new(2, 0)), None);
    assert!(Dec::new(0, 3).is_zero());
    assert!(!Dec::new(1, 3).is_zero());
}

#[test]
fn empty_currency_names_are_left_out() {
    assert!(hyperliquid_record(String::new(), Dec::new(1, 4), None, None, None, None).is_none());
    let p = paradex_record("-USD-PERP".to_string(), Dec::new(1, 0), Dec::new(1, 0), Dec::new(1, 0), Dec::new(1, 4));
    assert!(p.is_none());
    let e = extended_record(String::new(), "X-USD".to_string(), Dec::new(1, 0), Dec::new(1, 0), Dec::new(1, 0), Dec::new(1, 4));
    assert!(e.is_none());
}

#[test]
fn decimal_text_is_read_by_rust_decimal() {
    assert_eq!(Dec::parse("-0.000125"), Some(Dec::new(-125, 6)));
    assert_eq!(Dec::parse("42"), Some(Dec::new(42, 0)));
    assert_eq!(Dec::parse("abc"), None);
}

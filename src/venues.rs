//! Turning the figures a venue reports into funding records.
use crate::decimal::{dec_add, dec_mul, decimal_quotient, Dec};
use crate::model::{Exchange, Funding};
use vstd::prelude::*;

verus! {

/// Whether `p` stands in `s` at position `i`.
pub open spec fn occurs_at(s: Seq<char>, p: Seq<char>, i: int) -> bool {
    0 <= i && i + p.len() <= s.len() && s.subrange(i, i + p.len()) == p
}

/// `s` up to the first place where `p` stands, or all of `s` where `p` does not.
pub open spec fn before_first(s: Seq<char>, p: Seq<char>) -> Seq<char> {
    if exists|i: int| occurs_at(s, p, i) {
        let i = choose|i: int| occurs_at(s, p, i) && forall|j: int| 0 <= j < i ==> !occurs_at(s, p, j);
        s.take(i)
    } else {
        s
    }
}

/// Whether `p` stands in `s` at position `i`.
fn matches_at(s: &str, p: &str, i: usize) -> (r: bool)
    requires
        i + p@.len() <= s@.len() <= usize::MAX,
    ensures
        r == occurs_at(s@, p@, i as int),
{
    let n = p.unicode_len();
    let mut k: usize = 0;
    while k < n
        invariant
            n == p@.len(),
            i + n <= s@.len() <= usize::MAX,
            k <= n,
            forall|q: int| 0 <= q < k ==> s@[i + q] == p@[q],
        decreases n - k,
    {
        if s.get_char(i + k) != p.get_char(k) {
            assert(s@.subrange(i as int, i + n)[k as int] != p@[k as int]);
            return false;
        }
        k = k + 1;
    }
    assert(s@.subrange(i as int, i + n) =~= p@);
    true
}

/// `s` up to the first place where the non-empty `p` stands, or all of `s`.
pub fn prefix_before(s: &str, p: &str) -> (r: String)
    requires
        p@.len() > 0,
    ensures
        r@ == before_first(s@, p@),
{
    let n = s.unicode_len();
    let m = p.unicode_len();
    if m > n {
        assert(!exists|i: int| occurs_at(s@, p@, i));
        return s.to_string();
    }
    let mut i: usize = 0;
    while i <= n - m
        invariant
            n == s@.len(),
            m == p@.len(),
            0 < m <= n,
            i <= n - m + 1,
            forall|j: int| 0 <= j < i ==> !occurs_at(s@, p@, j),
        decreases n - m + 1 - i,
    {
        if matches_at(s, p, i) {
            let ghost c = choose|c: int| occurs_at(s@, p@, c) && forall|j: int| 0 <= j < c ==> !occurs_at(s@, p@, j);
            assert(occurs_at(s@, p@, i as int));
            assert(c == i) by {
                if c < i {
                } else if c > i {
                }
            }
            return s.substring_char(0, i).to_string();
        }
        i = i + 1;
    }
    assert(!exists|i: int| occurs_at(s@, p@, i)) by {
        assert forall|j: int| !occurs_at(s@, p@, j) by {
            if 0 <= j < i {
            }
        }
    }
    s.to_string()
}

/// Open interest valued at the mid price `(bid + ask) / 2`.
pub open spec fn paradex_interest(ask: Dec, bid: Dec, open_interest: Dec) -> Option<Dec> {
    match dec_add(bid, ask) {
        Some(sum) => match decimal_quotient(sum, Dec { mantissa: 2, scale: 0 }) {
            Some(mid) => dec_mul(open_interest, mid),
            None => None,
        },
        None => None,
    }
}

/// Whether `s` is exactly `USDC`.
fn is_usdc(s: &str) -> (r: bool)
    ensures
        r == (s@ == "USDC"@),
{
    proof {
        reveal_strlit("USDC");
    }
    let n = s.unicode_len();
    if n != 4 {
        return false;
    }
    let r = matches_at(s, "USDC", 0);
    assert(s@.subrange(0, 4) =~= s@);
    r
}

/// The record for a Paradex market, from the figures it reports; none for the
/// `USDC` market, for a symbol that leaves an empty currency name, or where the
/// funding rate cannot be formed. Paradex quotes an
/// eight-hour rate, and its open interest in contracts, valued here at the mid
/// price. The currency is the symbol up to `-USD-PERP`.
pub fn paradex_record(symbol: String, ask: Dec, bid: Dec, open_interest: Dec, funding_rate: Dec) -> (r:
    Option<Funding>)
    ensures
        r is Some <==> symbol@ != "USDC"@ && before_first(symbol@, "-USD-PERP"@).len() > 0
            && decimal_quotient(funding_rate, Dec { mantissa: 8, scale: 0 }) is Some,
        r matches Some(f) ==> {
            &&& f.currency_name@.len() > 0
            &&& f.currency_name@ == before_first(symbol@, "-USD-PERP"@)
            &&& Some(f.funding_rate) == decimal_quotient(funding_rate, Dec { mantissa: 8, scale: 0 })
            &&& f.market_name == symbol
            &&& f.exchange == Exchange::Paradex
            &&& f.open_interest == paradex_interest(ask, bid, open_interest)
            &&& f.best_bid == Some(bid)
            &&& f.best_ask == Some(ask)
        },
{
    if is_usdc(symbol.as_str()) {
        return None;
    }
    let rate = match funding_rate.checked_div(&Dec { mantissa: 8, scale: 0 }) {
        Some(q) => q,
        None => return None,
    };
    let interest = match bid.checked_add(&ask) {
        Some(sum) => match sum.checked_div(&Dec { mantissa: 2, scale: 0 }) {
            Some(mid) => open_interest.checked_mul(&mid),
            None => None,
        },
        None => None,
    };
    proof {
        reveal_strlit("-USD-PERP");
    }
    let currency_name = prefix_before(symbol.as_str(), "-USD-PERP");
    if currency_name.as_str().unicode_len() == 0 {
        return None;
    }
    Some(
        Funding {
            currency_name,
            funding_rate: rate,
            market_name: symbol,
            exchange: Exchange::Paradex,
            open_interest: interest,
            best_bid: Some(bid),
            best_ask: Some(ask),
        },
    )
}

/// The record for an Extended market; none for an empty asset name, or where
/// either side of the book is zero, as such a market cannot be priced.
pub open spec fn extended_funding(
    asset: String,
    name: String,
    ask: Dec,
    bid: Dec,
    open_interest: Dec,
    funding_rate: Dec,
) -> Option<Funding> {
    if asset@.len() == 0 || ask.mantissa == 0 || bid.mantissa == 0 {
        None
    } else {
        Some(
            Funding {
                currency_name: asset,
                funding_rate,
                market_name: name,
                exchange: Exchange::Extended,
                open_interest: Some(open_interest),
                best_bid: Some(bid),
                best_ask: Some(ask),
            },
        )
    }
}

/// The record for an Extended market, from the figures it reports.
pub fn extended_record(
    asset: String,
    name: String,
    ask: Dec,
    bid: Dec,
    open_interest: Dec,
    funding_rate: Dec,
) -> (r: Option<Funding>)
    ensures
        r == extended_funding(asset, name, ask, bid, open_interest, funding_rate),
        r matches Some(f) ==> f.currency_name@.len() > 0,
{
    if asset.as_str().unicode_len() == 0 || ask.is_zero() || bid.is_zero() {
        None
    } else {
        Some(
            Funding {
                currency_name: asset,
                funding_rate,
                market_name: name,
                exchange: Exchange::Extended,
                open_interest: Some(open_interest),
                best_bid: Some(bid),
                best_ask: Some(ask),
            },
        )
    }
}

/// The record for a Hyperliquid market: the coin names both the market and the
/// currency, the impact prices stand for the book, and the open interest, in
/// coins, is valued at the mid price where both are reported. None for an empty
/// coin name.
pub open spec fn hyperliquid_funding(
    coin: String,
    funding_rate: Dec,
    open_interest: Option<Dec>,
    mid: Option<Dec>,
    impact_bid: Option<Dec>,
    impact_ask: Option<Dec>,
) -> Option<Funding> {
    if coin@.len() == 0 {
        None
    } else {
        Some(
            Funding {
                currency_name: coin,
                funding_rate,
                market_name: coin,
                exchange: Exchange::Hyperliquid,
                open_interest: match (open_interest, mid) {
                    (Some(o), Some(m)) => dec_mul(o, m),
                    _ => None,
                },
                best_bid: impact_bid,
                best_ask: impact_ask,
            },
        )
    }
}

/// The record for a Hyperliquid market, from the figures it reports.
pub fn hyperliquid_record(
    coin: String,
    funding_rate: Dec,
    open_interest: Option<Dec>,
    mid: Option<Dec>,
    impact_bid: Option<Dec>,
    impact_ask: Option<Dec>,
) -> (r: Option<Funding>)
    ensures
        r == hyperliquid_funding(coin, funding_rate, open_interest, mid, impact_bid, impact_ask),
        r matches Some(f) ==> f.currency_name@.len() > 0,
{
    if coin.as_str().unicode_len() == 0 {
        return None;
    }
    let interest = match (open_interest, mid) {
        (Some(o), Some(m)) => o.checked_mul(&m),
        _ => None,
    };
    Some(
        Funding {
            currency_name: coin.clone(),
            funding_rate,
            market_name: coin,
            exchange: Exchange::Hyperliquid,
            open_interest: interest,
            best_bid: impact_bid,
            best_ask: impact_ask,
        },
    )
}

} // verus!

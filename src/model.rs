//! The records that flow through one cycle: funding snapshots in, candidates out.
use crate::decimal::Dec;
use vstd::prelude::*;

verus! {

/// A trading venue.
#[derive(Clone, Copy, Debug, PartialEq, Eq, Structural)]
pub enum Exchange {
    Paradex,
    Extended,
    Hyperliquid,
    Vest,
}

/// One venue's funding figures for one instrument.
#[derive(Clone, Debug)]
pub struct Funding {
    /// The underlying asset; the key that joins venues.
    pub currency_name: String,
    /// Per-hour fractional funding rate.
    pub funding_rate: Dec,
    /// The venue's own symbol for the instrument.
    pub market_name: String,
    pub exchange: Exchange,
    pub open_interest: Option<Dec>,
    pub best_bid: Option<Dec>,
    pub best_ask: Option<Dec>,
}

/// A long position on one venue against a short one on another, for one currency.
#[derive(Clone, Debug)]
pub struct PositionCandidate {
    pub currency_name: String,
    /// The funding spread: long rate minus short rate.
    pub total_funding: Dec,
    /// The spread as a yearly percentage, funding accruing hourly.
    pub apy: Dec,
    pub long_on: Exchange,
    pub long_funding: Dec,
    pub long_market: String,
    pub short_on: Exchange,
    pub short_funding: Dec,
    pub short_market: String,
    pub oi_long: Option<Dec>,
    pub oi_short: Option<Dec>,
    /// `(long bid - short ask) / long bid * 100`, where both prices are known.
    pub spread: Option<Dec>,
}

impl Funding {
    /// A field-by-field copy.
    pub fn duplicate(&self) -> (r: Funding)
        ensures
            r == *self,
    {
        Funding {
            currency_name: self.currency_name.clone(),
            funding_rate: self.funding_rate,
            market_name: self.market_name.clone(),
            exchange: self.exchange,
            open_interest: self.open_interest,
            best_bid: self.best_bid,
            best_ask: self.best_ask,
        }
    }
}

impl PositionCandidate {
    /// A field-by-field copy.
    pub fn duplicate(&self) -> (r: PositionCandidate)
        ensures
            r == *self,
    {
        PositionCandidate {
            currency_name: self.currency_name.clone(),
            total_funding: self.total_funding,
            apy: self.apy,
            long_on: self.long_on,
            long_funding: self.long_funding,
            long_market: self.long_market.clone(),
            short_on: self.short_on,
            short_funding: self.short_funding,
            short_market: self.short_market.clone(),
            oi_long: self.oi_long,
            oi_short: self.oi_short,
            spread: self.spread,
        }
    }
}

/// Lexicographic order of names by code point, as `str` orders them.
pub open spec fn name_lt(a: Seq<char>, b: Seq<char>) -> bool
    decreases a.len(),
{
    if a.len() == 0 {
        b.len() > 0
    } else if b.len() == 0 {
        false
    } else if a[0] != b[0] {
        (a[0] as int) < (b[0] as int)
    } else {
        name_lt(a.drop_first(), b.drop_first())
    }
}

/// Two names of which neither comes first are the same name.
pub proof fn lemma_name_lt_total(a: Seq<char>, b: Seq<char>)
    ensures
        !name_lt(a, b) && !name_lt(b, a) ==> a == b,
        !(name_lt(a, b) && name_lt(b, a)),
    decreases a.len(),
{
    if a.len() > 0 && b.len() > 0 && a[0] == b[0] {
        lemma_name_lt_total(a.drop_first(), b.drop_first());
        if a.drop_first() == b.drop_first() {
            assert(a =~= seq![a[0]] + a.drop_first());
            assert(b =~= seq![b[0]] + b.drop_first());
        }
    } else if a.len() > 0 && b.len() > 0 {
        assert((a[0] as int) != (b[0] as int));
    } else if a.len() == 0 && b.len() == 0 {
        assert(a =~= b);
    }
}

/// Whether `a`'s currency name comes strictly before `b`'s.
pub fn name_less(a: &Funding, b: &Funding) -> (r: bool)
    ensures
        r == name_lt(a.currency_name@, b.currency_name@),
{
    let x = a.currency_name.as_str();
    let y = b.currency_name.as_str();
    let n = x.unicode_len();
    let m = y.unicode_len();
    let mut i: usize = 0;
    assert(x@.skip(0) =~= x@);
    assert(y@.skip(0) =~= y@);
    while i < n && i < m
        invariant
            x@ == a.currency_name@,
            y@ == b.currency_name@,
            n == x@.len(),
            m == y@.len(),
            i <= n,
            i <= m,
            name_lt(x@, y@) == name_lt(x@.skip(i as int), y@.skip(i as int)),
        decreases n - i,
    {
        let c = x.get_char(i);
        let d = y.get_char(i);
        assert(x@.skip(i as int)[0] == c);
        assert(y@.skip(i as int)[0] == d);
        if c != d {
            return (c as u32) < (d as u32);
        }
        assert(x@.skip(i as int).drop_first() =~= x@.skip(i + 1));
        assert(y@.skip(i as int).drop_first() =~= y@.skip(i + 1));
        i = i + 1;
    }
    assert(x@.skip(i as int).len() == n - i);
    assert(y@.skip(i as int).len() == m - i);
    i == n && i < m
}

} // verus!

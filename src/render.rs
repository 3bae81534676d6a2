//! Text for readers of the published set: one block per candidate.
use crate::decimal::{
    pow10, dec_abs, dec_lt, dec_times, decimal_quotient, fits_decimal, Dec, DECIMAL_MAX_MANTISSA,
    DECIMAL_MAX_SCALE,
};
use crate::model::{Exchange, PositionCandidate};
use vstd::prelude::*;
use vstd::string::StringExecFns;

verus! {

/// `m / 10^k` rounded to the nearest integer, a tie going to the even one.
pub open spec fn div_round_half_even(m: int, k: nat) -> int {
    let p = pow10(k);
    let a = if m < 0 {
        -m
    } else {
        m
    };
    let q = a / p;
    let rem = a % p;
    let r = if 2 * rem > p || (2 * rem == p && q % 2 == 1) {
        q + 1
    } else {
        q
    };
    if m < 0 {
        -r
    } else {
        r
    }
}

/// `d` rounded to `dp` places, ties to even; unchanged with `dp` places or fewer.
pub open spec fn rounded(d: Dec, dp: u32) -> Dec {
    if d.scale <= dp {
        d
    } else {
        Dec { mantissa: div_round_half_even(d.mantissa as int, (d.scale - dp) as nat) as i128, scale: dp }
    }
}

/// How `rust_decimal` writes `d` rounded to `dp` places.
pub uninterp spec fn decimal_rounded_text(d: Dec, dp: u32) -> Seq<char>;

/// How `rust_decimal` writes `d` with two places after the point.
pub uninterp spec fn decimal_text_2dp(d: Dec) -> Seq<char>;

/// Relies on `rust_decimal::Decimal::round_dp`, which rounds to `dp` places by
/// the bankers' rule and leaves a number with `dp` places or fewer as it is; its
/// result is again a `Decimal`.
#[verifier::external_body]
fn round_dp(d: Dec, dp: u32) -> (r: Dec)
    requires
        fits_decimal(d),
    ensures
        r == rounded(d, dp),
        fits_decimal(r),
{
    let x = rust_decimal::Decimal::from_i128_with_scale(d.mantissa, d.scale).round_dp(dp);
    Dec { mantissa: x.mantissa(), scale: x.scale() }
}

/// Relies on `rust_decimal::Decimal::round_dp` and the result's `Display`.
#[verifier::external_body]
fn display_rounded(d: Dec, dp: u32) -> (r: String)
    requires
        fits_decimal(d),
    ensures
        r@ == decimal_rounded_text(d, dp),
{
    rust_decimal::Decimal::from_i128_with_scale(d.mantissa, d.scale).round_dp(dp).to_string()
}

/// Relies on `rust_decimal::Decimal`'s `Display` with a precision of two, which
/// cuts the digits past the second place.
#[verifier::external_body]
fn display_2dp(d: Dec) -> (r: String)
    requires
        fits_decimal(d),
    ensures
        r@ == decimal_text_2dp(d),
{
    format!("{:.2}", rust_decimal::Decimal::from_i128_with_scale(d.mantissa, d.scale))
}

pub open spec fn venue_text(e: Exchange) -> Seq<char> {
    match e {
        Exchange::Paradex => "Paradex"@,
        Exchange::Extended => "Extended"@,
        Exchange::Hyperliquid => "Hyperliquid"@,
        Exchange::Vest => "Vest"@,
    }
}

/// A figure rounded to `dp` places; `?` for one outside the decimal range.
pub open spec fn shown(d: Dec, dp: u32) -> Seq<char> {
    if fits_decimal(d) {
        decimal_rounded_text(d, dp)
    } else {
        "?"@
    }
}

/// A rate as a percentage with six places.
pub open spec fn percent_shown(d: Dec) -> Seq<char> {
    match dec_times(d, 100) {
        Some(p) => shown(p, 6),
        None => "?"@,
    }
}

/// `n / unit` with two places and the unit's letter.
pub open spec fn in_units(n: Dec, unit: Dec, letter: Seq<char>) -> Seq<char> {
    match decimal_quotient(n, unit) {
        Some(q) => decimal_text_2dp(q) + letter,
        None => "?"@,
    }
}

/// An amount in billions, millions or thousands, or as it is below a thousand.
pub open spec fn short_text(n: Dec) -> Seq<char> {
    let a = dec_abs(n).unwrap();
    if !dec_lt(a, Dec { mantissa: 1_000_000_000, scale: 0 }) {
        in_units(n, Dec { mantissa: 1_000_000_000, scale: 0 }, "B"@)
    } else if !dec_lt(a, Dec { mantissa: 1_000_000, scale: 0 }) {
        in_units(n, Dec { mantissa: 1_000_000, scale: 0 }, "M"@)
    } else if !dec_lt(a, Dec { mantissa: 1000, scale: 0 }) {
        in_units(n, Dec { mantissa: 1000, scale: 0 }, "K"@)
    } else {
        decimal_rounded_text(n, 2)
    }
}

/// An open interest in whole units, shortened; zero where it is unknown.
pub open spec fn interest_shown(o: Option<Dec>) -> Seq<char> {
    let n = o.unwrap_or(Dec { mantissa: 0, scale: 0 });
    if fits_decimal(n) {
        short_text(rounded(n, 0))
    } else {
        "?"@
    }
}

/// The block of text for one candidate.
pub open spec fn block_text(c: PositionCandidate) -> Seq<char> {
    "currency:          "@ + c.currency_name@ + "\ntotal funding:  "@ + percent_shown(c.total_funding)
        + "%h\nAPY:                "@ + shown(c.apy, 2) + "%\nSpread:         "@ + shown(
        c.spread.unwrap_or(Dec { mantissa: 0, scale: 0 }),
        6,
    ) + "%\nLong on:        "@ + venue_text(c.long_on) + "\nLong Funding:   "@ + percent_shown(
        c.long_funding,
    ) + "\nLong OI:        "@ + interest_shown(c.oi_long) + "$\nShort on:       "@ + venue_text(
        c.short_on,
    ) + "\nShort Funding:  "@ + percent_shown(c.short_funding) + "\nShort OI:       "@
        + interest_shown(c.oi_short) + "$\n"@
}

/// The blocks of all candidates, a line of dashes between two blocks.
pub open spec fn candidates_text(cs: Seq<PositionCandidate>) -> Seq<char>
    decreases cs.len(),
{
    if cs.len() == 0 {
        Seq::empty()
    } else if cs.len() == 1 {
        block_text(cs[0])
    } else {
        candidates_text(cs.drop_last()) + "---------------------------------\n"@ + block_text(cs.last())
    }
}

fn venue_label(e: Exchange) -> (r: &'static str)
    ensures
        r@ == venue_text(e),
{
    match e {
        Exchange::Paradex => "Paradex",
        Exchange::Extended => "Extended",
        Exchange::Hyperliquid => "Hyperliquid",
        Exchange::Vest => "Vest",
    }
}

fn fits(d: Dec) -> (r: bool)
    ensures
        r == fits_decimal(d),
{
    d.scale <= DECIMAL_MAX_SCALE && -DECIMAL_MAX_MANTISSA <= d.mantissa && d.mantissa
        <= DECIMAL_MAX_MANTISSA
}

fn show(d: Dec, dp: u32) -> (r: String)
    ensures
        r@ == shown(d, dp),
{
    if fits(d) {
        display_rounded(d, dp)
    } else {
        String::from_str("?")
    }
}

fn show_percent(d: Dec) -> (r: String)
    ensures
        r@ == percent_shown(d),
{
    match d.checked_times(100) {
        Some(p) => show(p, 6),
        None => String::from_str("?"),
    }
}

fn show_in_units(n: Dec, unit: Dec, letter: &str) -> (r: String)
    ensures
        r@ == in_units(n, unit, letter@),
{
    match n.checked_div(&unit) {
        Some(q) => {
            let mut s = display_2dp(q);
            s.append(letter);
            s
        },
        None => String::from_str("?"),
    }
}

/// An amount in billions (`B`), millions (`M`) or thousands (`K`) with two
/// places, or rounded to two places below a thousand.
pub fn format_short(n: Dec) -> (r: String)
    requires
        fits_decimal(n),
    ensures
        r@ == short_text(n),
{
    // a mantissa of 96 bits has an absolute value
    let a = Dec { mantissa: if n.mantissa < 0 { -n.mantissa } else { n.mantissa }, scale: n.scale };
    let billion = Dec { mantissa: 1_000_000_000, scale: 0 };
    let million = Dec { mantissa: 1_000_000, scale: 0 };
    let thousand = Dec { mantissa: 1000, scale: 0 };
    if !a.less_than(&billion) {
        show_in_units(n, billion, "B")
    } else if !a.less_than(&million) {
        show_in_units(n, million, "M")
    } else if !a.less_than(&thousand) {
        show_in_units(n, thousand, "K")
    } else {
        display_rounded(n, 2)
    }
}

fn show_interest(o: Option<Dec>) -> (r: String)
    ensures
        r@ == interest_shown(o),
{
    let n = match o {
        Some(x) => x,
        None => Dec { mantissa: 0, scale: 0 },
    };
    if fits(n) {
        format_short(round_dp(n, 0))
    } else {
        String::from_str("?")
    }
}

/// The block of text for `c`.
fn block(c: &PositionCandidate) -> (r: String)
    ensures
        r@ == block_text(*c),
{
    let mut out = String::from_str("currency:          ");
    out.append(c.currency_name.as_str());
    out.append("\ntotal funding:  ");
    out.append(show_percent(c.total_funding).as_str());
    out.append("%h\nAPY:                ");
    out.append(show(c.apy, 2).as_str());
    out.append("%\nSpread:         ");
    let spread = match c.spread {
        Some(s) => s,
        None => Dec { mantissa: 0, scale: 0 },
    };
    out.append(show(spread, 6).as_str());
    out.append("%\nLong on:        ");
    out.append(venue_label(c.long_on));
    out.append("\nLong Funding:   ");
    out.append(show_percent(c.long_funding).as_str());
    out.append("\nLong OI:        ");
    out.append(show_interest(c.oi_long).as_str());
    out.append("$\nShort on:       ");
    out.append(venue_label(c.short_on));
    out.append("\nShort Funding:  ");
    out.append(show_percent(c.short_funding).as_str());
    out.append("\nShort OI:       ");
    out.append(show_interest(c.oi_short).as_str());
    out.append("$\n");
    out
}

/// The readers' text: one block per candidate, in order, separated by a line
/// of dashes.
pub fn candidates_to_string(c: &[PositionCandidate]) -> (r: String)
    ensures
        r@ == candidates_text(c@),
{
    let mut out = String::new();
    let mut i: usize = 0;
    while i < c.len()
        invariant
            i <= c@.len(),
            out@ == candidates_text(c@.take(i as int)),
        decreases c@.len() - i,
    {
        if i > 0 {
            out.append("---------------------------------\n");
        }
        let b = block(&c[i]);
        out.append(b.as_str());
        assert(c@.take(i + 1).drop_last() =~= c@.take(i as int));
        assert(out@ =~= candidates_text(c@.take(i + 1)));
        i = i + 1;
    }
    assert(c@.take(i as int) =~= c@);
    out
}

} // verus!

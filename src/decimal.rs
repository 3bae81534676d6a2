//! Exact fixed-point decimals: a signed mantissa over a power of ten.
use vstd::prelude::*;

verus! {

/// The number `mantissa / 10^scale`.
#[derive(Clone, Copy, Debug, PartialEq, Eq, Structural)]
pub struct Dec {
    pub mantissa: i128,
    pub scale: u32,
}

pub open spec fn pow10(n: nat) -> int
    decreases n,
{
    if n == 0 {
        1
    } else {
        10 * pow10((n - 1) as nat)
    }
}

pub open spec fn in_i128(x: int) -> bool {
    i128::MIN <= x <= i128::MAX
}

pub open spec fn max_scale(a: Dec, b: Dec) -> nat {
    if a.scale >= b.scale {
        a.scale as nat
    } else {
        b.scale as nat
    }
}

/// The mantissa of `d` written at scale `s` (for `s >= d.scale`).
pub open spec fn aligned(d: Dec, s: nat) -> int {
    d.mantissa * pow10((s - d.scale) as nat)
}

/// `a <= b` as numbers.
pub open spec fn dec_le(a: Dec, b: Dec) -> bool {
    aligned(a, max_scale(a, b)) <= aligned(b, max_scale(a, b))
}

/// `a < b` as numbers.
pub open spec fn dec_lt(a: Dec, b: Dec) -> bool {
    aligned(a, max_scale(a, b)) < aligned(b, max_scale(a, b))
}

/// `a - b` exactly, at the larger of the two scales; `None` where a mantissa
/// on the way does not fit in an `i128`.
pub open spec fn dec_sub(a: Dec, b: Dec) -> Option<Dec> {
    let s = max_scale(a, b);
    let x = aligned(a, s);
    let y = aligned(b, s);
    if in_i128(x) && in_i128(y) && in_i128(x - y) {
        Some(Dec { mantissa: (x - y) as i128, scale: s as u32 })
    } else {
        None
    }
}

/// `a * b` exactly: the mantissas multiplied, the scales added.
pub open spec fn dec_mul(a: Dec, b: Dec) -> Option<Dec> {
    if in_i128(a.mantissa * b.mantissa) && a.scale + b.scale <= u32::MAX {
        Some(Dec { mantissa: (a.mantissa * b.mantissa) as i128, scale: (a.scale + b.scale) as u32 })
    } else {
        None
    }
}

/// `a + b` exactly, at the larger of the two scales.
pub open spec fn dec_add(a: Dec, b: Dec) -> Option<Dec> {
    let s = max_scale(a, b);
    let x = aligned(a, s);
    let y = aligned(b, s);
    if in_i128(x) && in_i128(y) && in_i128(x + y) {
        Some(Dec { mantissa: (x + y) as i128, scale: s as u32 })
    } else {
        None
    }
}

/// `|d|`, at the same scale.
pub open spec fn dec_abs(d: Dec) -> Option<Dec> {
    if d.mantissa >= 0 {
        Some(d)
    } else if in_i128(-d.mantissa) {
        Some(Dec { mantissa: (-d.mantissa) as i128, scale: d.scale })
    } else {
        None
    }
}

/// `d * k`, at the same scale.
pub open spec fn dec_times(d: Dec, k: int) -> Option<Dec> {
    if in_i128(d.mantissa * k) {
        Some(Dec { mantissa: (d.mantissa * k) as i128, scale: d.scale })
    } else {
        None
    }
}

/// The largest mantissa magnitude of a `rust_decimal::Decimal`: 96 bits.
pub const DECIMAL_MAX_MANTISSA: i128 = 0xFFFF_FFFF_FFFF_FFFF_FFFF_FFFF;

/// The largest scale of a `rust_decimal::Decimal`.
pub const DECIMAL_MAX_SCALE: u32 = 28;

/// Whether `d` can be written as a `rust_decimal::Decimal`.
pub open spec fn fits_decimal(d: Dec) -> bool {
    &&& d.scale <= DECIMAL_MAX_SCALE
    &&& -DECIMAL_MAX_MANTISSA <= d.mantissa <= DECIMAL_MAX_MANTISSA
}

/// What `rust_decimal` reads from the text `s`, if it reads a number.
pub uninterp spec fn decimal_parsed(s: Seq<char>) -> Option<Dec>;

/// What `rust_decimal` gives for `a / b`.
pub uninterp spec fn decimal_quotient(a: Dec, b: Dec) -> Option<Dec>;

pub proof fn lemma_pow10_pos(n: nat)
    ensures
        pow10(n) >= 1,
    decreases n,
{
    if n > 0 {
        lemma_pow10_pos((n - 1) as nat);
    }
}

pub proof fn lemma_pow10_mono(a: nat, b: nat)
    requires
        a <= b,
    ensures
        pow10(a) <= pow10(b),
    decreases b,
{
    if a < b {
        lemma_pow10_mono(a, (b - 1) as nat);
        lemma_pow10_pos((b - 1) as nat);
    }
}

/// A nonzero mantissa only grows in magnitude as it is written at a larger scale.
proof fn lemma_aligned_grows(m: int, a: nat, b: nat)
    requires
        m != 0,
        a <= b,
    ensures
        m > 0 ==> m * pow10(a) <= m * pow10(b),
        m < 0 ==> m * pow10(b) <= m * pow10(a),
{
    lemma_pow10_mono(a, b);
    let pa = pow10(a);
    let pb = pow10(b);
    if m > 0 {
        assert(m * pa <= m * pb) by (nonlinear_arith)
            requires
                m > 0,
                pa <= pb,
        ;
    } else {
        assert(m * pb <= m * pa) by (nonlinear_arith)
            requires
                m < 0,
                pa <= pb,
        ;
    }
}

impl Dec {
    pub fn new(mantissa: i128, scale: u32) -> (r: Dec)
        ensures
            r.mantissa == mantissa,
            r.scale == scale,
    {
        Dec { mantissa, scale }
    }

    /// The mantissa of `self` at scale `s`, where it fits in an `i128`.
    pub fn rescaled(&self, s: u32) -> (r: Option<i128>)
        requires
            s >= self.scale,
        ensures
            r == (if in_i128(aligned(*self, s as nat)) {
                Some(aligned(*self, s as nat) as i128)
            } else {
                None
            }),
    {
        let ghost target = aligned(*self, s as nat);
        if self.mantissa == 0 {
            assert(target == 0);
            return Some(0);
        }
        let mut m: i128 = self.mantissa;
        let mut k: u32 = self.scale;
        while k < s
            invariant
                self.scale <= k <= s,
                self.mantissa != 0,
                m == aligned(*self, k as nat),
                target == aligned(*self, s as nat),
            decreases s - k,
        {
            let ghost kn = (k - self.scale) as nat;
            assert(pow10((kn + 1) as nat) == 10 * pow10(kn));
            assert(self.mantissa * (10 * pow10(kn)) == (self.mantissa * pow10(kn)) * 10)
                by (nonlinear_arith);
            match m.checked_mul(10) {
                Some(x) => {
                    m = x;
                    k = k + 1;
                },
                None => {
                    proof {
                        let mi = self.mantissa as int;
                        let p = pow10(kn);
                        lemma_pow10_pos(kn);
                        lemma_aligned_grows(mi, (kn + 1) as nat, (s - self.scale) as nat);
                        assert(aligned(*self, (k + 1) as nat) == m * 10);
                        assert(mi > 0 ==> mi * p > 0) by (nonlinear_arith)
                            requires
                                p >= 1,
                        ;
                        assert(mi < 0 ==> mi * p < 0) by (nonlinear_arith)
                            requires
                                p >= 1,
                        ;
                        assert(!in_i128(target));
                    }
                    return None;
                },
            }
        }
        Some(m)
    }

    /// `self - o`, exactly.
    pub fn checked_sub(&self, o: &Dec) -> (r: Option<Dec>)
        ensures
            r == dec_sub(*self, *o),
    {
        let s: u32 = if self.scale >= o.scale {
            self.scale
        } else {
            o.scale
        };
        match (self.rescaled(s), o.rescaled(s)) {
            (Some(x), Some(y)) => match x.checked_sub(y) {
                Some(d) => Some(Dec { mantissa: d, scale: s }),
                None => None,
            },
            _ => None,
        }
    }

    /// `self + o`, exactly.
    pub fn checked_add(&self, o: &Dec) -> (r: Option<Dec>)
        ensures
            r == dec_add(*self, *o),
    {
        let s: u32 = if self.scale >= o.scale {
            self.scale
        } else {
            o.scale
        };
        match (self.rescaled(s), o.rescaled(s)) {
            (Some(x), Some(y)) => match x.checked_add(y) {
                Some(d) => Some(Dec { mantissa: d, scale: s }),
                None => None,
            },
            _ => None,
        }
    }

    /// `self * o`, exactly.
    pub fn checked_mul(&self, o: &Dec) -> (r: Option<Dec>)
        ensures
            r == dec_mul(*self, *o),
    {
        match (self.mantissa.checked_mul(o.mantissa), self.scale.checked_add(o.scale)) {
            (Some(m), Some(s)) => Some(Dec { mantissa: m, scale: s }),
            _ => None,
        }
    }

    /// Whether `self` is zero.
    pub fn is_zero(&self) -> (r: bool)
        ensures
            r == (self.mantissa == 0),
    {
        self.mantissa == 0
    }

    /// `|self|`, exactly.
    pub fn checked_abs(&self) -> (r: Option<Dec>)
        ensures
            r == dec_abs(*self),
    {
        if self.mantissa >= 0 {
            Some(*self)
        } else if self.mantissa == i128::MIN {
            None
        } else {
            Some(Dec { mantissa: -self.mantissa, scale: self.scale })
        }
    }

    /// `self * k`, exactly.
    pub fn checked_times(&self, k: i128) -> (r: Option<Dec>)
        ensures
            r == dec_times(*self, k as int),
    {
        match self.mantissa.checked_mul(k) {
            Some(m) => Some(Dec { mantissa: m, scale: self.scale }),
            None => None,
        }
    }

    /// Whether `self` is strictly below `o` as a number.
    pub fn less_than(&self, o: &Dec) -> (r: bool)
        ensures
            r == dec_lt(*self, *o),
    {
        let s: u32 = if self.scale >= o.scale {
            self.scale
        } else {
            o.scale
        };
        proof {
            lemma_pow10_pos(0);
            assert(pow10(0) == 1);
        }
        match (self.rescaled(s), o.rescaled(s)) {
            (Some(x), Some(y)) => x < y,
            (None, _) => {
                // `o` is at its own scale here, so its mantissa is the smaller in magnitude
                proof {
                    if self.scale == s {
                        assert(aligned(*self, s as nat) == self.mantissa * 1);
                    }
                }
                assert(o.scale == s);
                assert(aligned(*o, s as nat) == o.mantissa * 1);
                proof {
                    if self.mantissa != 0 {
                        lemma_aligned_grows(self.mantissa as int, 0, (s - self.scale) as nat);
                    }
                }
                self.mantissa < 0
            },
            (_, None) => {
                proof {
                    if o.scale == s {
                        assert(aligned(*o, s as nat) == o.mantissa * 1);
                    }
                }
                assert(self.scale == s);
                assert(aligned(*self, s as nat) == self.mantissa * 1);
                proof {
                    if o.mantissa != 0 {
                        lemma_aligned_grows(o.mantissa as int, 0, (s - o.scale) as nat);
                    }
                }
                o.mantissa > 0
            },
        }
    }

    /// Whether `self` is zero or above.
    pub fn is_non_negative(&self) -> (r: bool)
        ensures
            r == (self.mantissa >= 0),
    {
        self.mantissa >= 0
    }

    /// The number written in `s`, as `rust_decimal` reads it.
    pub fn parse(s: &str) -> (r: Option<Dec>)
        ensures
            r == decimal_parsed(s@),
            r matches Some(d) ==> fits_decimal(d),
    {
        decimal_from_str(s)
    }

    /// `self / o`, as `rust_decimal` computes it.
    pub fn checked_div(&self, o: &Dec) -> (r: Option<Dec>)
        ensures
            r == decimal_quotient(*self, *o),
            o.mantissa == 0 ==> r is None,
            r is Some ==> fits_decimal(r.unwrap()),
    {
        decimal_div(*self, *o)
    }
}

/// Relies on `rust_decimal::Decimal`'s `FromStr`, which reads a number or fails;
/// a `Decimal`'s scale is at most 28 and its mantissa has 96 bits.
#[verifier::external_body]
fn decimal_from_str(s: &str) -> (r: Option<Dec>)
    ensures
        r == decimal_parsed(s@),
        r matches Some(d) ==> fits_decimal(d),
{
    s.parse::<rust_decimal::Decimal>().ok().map(|d| Dec { mantissa: d.mantissa(), scale: d.scale() })
}

/// Relies on `rust_decimal::Decimal::try_from_i128_with_scale`, which refuses
/// a value outside the decimal's range, and on `Decimal::checked_div`, which
/// returns `None` for a zero divisor; a `Decimal`'s scale is at most 28 and its
/// mantissa has 96 bits.
#[verifier::external_body]
fn decimal_div(a: Dec, b: Dec) -> (r: Option<Dec>)
    ensures
        r == decimal_quotient(a, b),
        b.mantissa == 0 ==> r is None,
        r is Some ==> fits_decimal(r.unwrap()),
{
    let x = rust_decimal::Decimal::try_from_i128_with_scale(a.mantissa, a.scale).ok()?;
    let y = rust_decimal::Decimal::try_from_i128_with_scale(b.mantissa, b.scale).ok()?;
    x.checked_div(y).map(|q| Dec { mantissa: q.mantissa(), scale: q.scale() })
}

} // verus!

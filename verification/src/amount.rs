//! Exact decimal amounts as carried by `rust_decimal::Decimal`: a signed
//! mantissa of at most 96 bits and a decimal scale of at most 28.

use rust_decimal::Decimal;
use std::str::FromStr;
use vstd::prelude::*;

verus! {

/// Largest magnitude of a mantissa (2^96 - 1).
pub const MAX_MAGNITUDE: i128 = 0xFFFF_FFFF_FFFF_FFFF_FFFF_FFFF;

/// Largest decimal scale.
pub const MAX_SCALE: u32 = 28;

/// A decimal number `mantissa * 10^(-scale)`.
#[derive(Clone, Copy, Debug)]
pub struct Amount {
    pub mantissa: i128,
    pub scale: u32,
}

impl Amount {
    /// The representation limits of a decimal.
    pub open spec fn wf(self) -> bool {
        &&& self.scale <= MAX_SCALE
        &&& -MAX_MAGNITUDE <= self.mantissa <= MAX_MAGNITUDE
    }

    /// The amount is strictly greater than zero.
    pub open spec fn positive(self) -> bool {
        self.mantissa > 0
    }

    /// The amount is zero, whatever its scale.
    pub open spec fn is_zero_spec(self) -> bool {
        self.mantissa == 0
    }

    /// The pair (mantissa, scale) as mathematical integers.
    pub open spec fn parts(self) -> (int, int) {
        (self.mantissa as int, self.scale as int)
    }

    /// The zero amount.
    pub fn zero() -> (r: Amount)
        ensures
            r.wf(),
            r.mantissa == 0,
            r.scale == 0,
    {
        Amount { mantissa: 0, scale: 0 }
    }

    /// Builds `mantissa * 10^(-scale)` when both parts are within the limits.
    pub fn new(mantissa: i128, scale: u32) -> (r: Option<Amount>)
        ensures
            r matches Some(a) ==> a.wf() && a.mantissa == mantissa && a.scale == scale,
            r is Some <==> (scale <= MAX_SCALE && -MAX_MAGNITUDE <= mantissa <= MAX_MAGNITUDE),
    {
        if scale <= MAX_SCALE && -MAX_MAGNITUDE <= mantissa && mantissa <= MAX_MAGNITUDE {
            Some(Amount { mantissa, scale })
        } else {
            None
        }
    }

    /// Whether the amount is strictly greater than zero.
    pub fn is_positive(&self) -> (r: bool)
        ensures
            r == self.positive(),
    {
        self.mantissa > 0
    }

    /// Whether the amount is zero.
    pub fn is_zero(&self) -> (r: bool)
        ensures
            r == self.is_zero_spec(),
    {
        self.mantissa == 0
    }

    /// Reads a decimal from text; text that is not a decimal reads as zero.
    pub fn parse_or_zero(text: &str) -> (r: Amount)
        ensures
            r.wf(),
            r == or_zero(lift(decimal_parse(text@))),
    {
        match parse_decimal(text) {
            Some(a) => a,
            None => Amount::zero(),
        }
    }
}

/// Ten to the power `n`.
pub open spec fn pow10(n: nat) -> nat
    decreases n,
{
    if n == 0 {
        1
    } else {
        10 * pow10((n - 1) as nat)
    }
}

/// The mantissa that gives the amount's value at scale `k` (no smaller than
/// its own scale): the value times `10^k`.
pub open spec fn at_scale(a: Amount, k: int) -> int {
    a.mantissa * pow10((k - a.scale) as nat)
}

/// The larger of the two scales.
pub open spec fn larger_scale(a: Amount, b: Amount) -> int {
    if a.scale >= b.scale {
        a.scale as int
    } else {
        b.scale as int
    }
}

/// A mantissa within the representation limits.
pub open spec fn fits(m: int) -> bool {
    -MAX_MAGNITUDE <= m <= MAX_MAGNITUDE
}

/// The exact sum fits in 96 bits at the larger of the two scales.
pub open spec fn sum_fits(a: Amount, b: Amount) -> bool {
    fits(at_scale(a, larger_scale(a, b)) + at_scale(b, larger_scale(a, b)))
}

/// The exact difference fits in 96 bits at the larger of the two scales.
pub open spec fn difference_fits(a: Amount, b: Amount) -> bool {
    fits(at_scale(a, larger_scale(a, b)) - at_scale(b, larger_scale(a, b)))
}

/// The product of the mantissas fits in 96 bits and the scales add up to at
/// most 28.
pub open spec fn product_fits(a: Amount, b: Amount) -> bool {
    a.scale + b.scale <= MAX_SCALE && fits(a.mantissa * b.mantissa)
}

/// The divisor is not zero, its scale is at most the dividend's, and its
/// mantissa divides the dividend's.
pub open spec fn divides_evenly(a: Amount, b: Amount) -> bool {
    &&& b.mantissa != 0
    &&& a.scale >= b.scale
    &&& (a.mantissa as int) % (b.mantissa as int) == 0
}

/// Ten to the power `a + b` is ten to `a` times ten to `b`.
pub proof fn lemma_pow10_add(a: nat, b: nat)
    ensures
        pow10(a + b) == pow10(a) * pow10(b),
    decreases b,
{
    if b == 0 {
        assert(pow10(0) == 1);
        assert(a + b == a);
    } else {
        lemma_pow10_add(a, (b - 1) as nat);
        assert(pow10(a + b) == 10 * pow10((a + b - 1) as nat));
        assert(pow10(b) == 10 * pow10((b - 1) as nat));
        assert(pow10(a) * (10 * pow10((b - 1) as nat)) == 10 * (pow10(a) * pow10((b - 1) as nat))) by (nonlinear_arith);
    }
}

/// Ten to any power is positive.
pub proof fn lemma_pow10_positive(n: nat)
    ensures
        pow10(n) >= 1,
    decreases n,
{
    if n > 0 {
        lemma_pow10_positive((n - 1) as nat);
    }
}

/// An amount's mantissa at a larger scale is its mantissa at a smaller one
/// times the power of ten between them.
pub proof fn lemma_at_scale_up(a: Amount, k: int, big: int)
    requires
        a.scale <= k <= big,
    ensures
        at_scale(a, big) == at_scale(a, k) * pow10((big - k) as nat),
{
    lemma_pow10_add((k - a.scale) as nat, (big - k) as nat);
    assert(((big - a.scale) as nat) == ((k - a.scale) as nat) + ((big - k) as nat));
    assert(a.mantissa * (pow10((k - a.scale) as nat) * pow10((big - k) as nat)) == (a.mantissa * pow10(
        (k - a.scale) as nat,
    )) * pow10((big - k) as nat)) by (nonlinear_arith);
}

/// A sum computed exactly at its larger scale is also exact at any scale
/// `k` at least as large, and it fits there when it fits at `k`.
pub proof fn lemma_sum_exact_at(a: Amount, b: Amount, x: Amount, k: int)
    requires
        a.scale <= k,
        b.scale <= k,
        fits(at_scale(a, k) + at_scale(b, k)),
        sum_fits(a, b) ==> x.scale <= larger_scale(a, b) && at_scale(x, larger_scale(a, b)) == at_scale(
            a,
            larger_scale(a, b),
        ) + at_scale(b, larger_scale(a, b)),
    ensures
        sum_fits(a, b),
        x.scale <= k,
        at_scale(x, k) == at_scale(a, k) + at_scale(b, k),
{
    let l = larger_scale(a, b);
    let p = pow10((k - l) as nat);
    lemma_at_scale_up(a, l, k);
    lemma_at_scale_up(b, l, k);
    lemma_pow10_positive((k - l) as nat);
    let sa = at_scale(a, l);
    let sb = at_scale(b, l);
    assert(sa * p + sb * p == (sa + sb) * p) by (nonlinear_arith);
    assert(-MAX_MAGNITUDE <= sa + sb <= MAX_MAGNITUDE) by (nonlinear_arith)
        requires
            p >= 1,
            -MAX_MAGNITUDE <= (sa + sb) * p <= MAX_MAGNITUDE,
    {
        if sa + sb > 0 {
            assert((sa + sb) * p >= sa + sb);
        } else if sa + sb < 0 {
            assert((sa + sb) * p <= sa + sb);
        }
    }
    lemma_at_scale_up(x, l, k);
}

/// The same for a difference.
pub proof fn lemma_difference_exact_at(a: Amount, b: Amount, x: Amount, k: int)
    requires
        a.scale <= k,
        b.scale <= k,
        fits(at_scale(a, k) - at_scale(b, k)),
        difference_fits(a, b) ==> x.scale <= larger_scale(a, b) && at_scale(x, larger_scale(a, b)) == at_scale(
            a,
            larger_scale(a, b),
        ) - at_scale(b, larger_scale(a, b)),
    ensures
        difference_fits(a, b),
        x.scale <= k,
        at_scale(x, k) == at_scale(a, k) - at_scale(b, k),
{
    let l = larger_scale(a, b);
    let p = pow10((k - l) as nat);
    lemma_at_scale_up(a, l, k);
    lemma_at_scale_up(b, l, k);
    lemma_pow10_positive((k - l) as nat);
    let sa = at_scale(a, l);
    let sb = at_scale(b, l);
    assert(sa * p - sb * p == (sa - sb) * p) by (nonlinear_arith);
    assert(-MAX_MAGNITUDE <= sa - sb <= MAX_MAGNITUDE) by (nonlinear_arith)
        requires
            p >= 1,
            -MAX_MAGNITUDE <= (sa - sb) * p <= MAX_MAGNITUDE,
    {
        if sa - sb > 0 {
            assert((sa - sb) * p >= sa - sb);
        } else if sa - sb < 0 {
            assert((sa - sb) * p <= sa - sb);
        }
    }
    lemma_at_scale_up(x, l, k);
}

/// A product computed exactly is exact at any scale at least the sum of the
/// operands' scales.
pub proof fn lemma_product_exact_at(a: Amount, b: Amount, x: Amount, k: int)
    requires
        a.scale + b.scale <= k,
        product_fits(a, b) ==> x.scale <= a.scale + b.scale && at_scale(x, a.scale + b.scale) == a.mantissa
            * b.mantissa,
        product_fits(a, b),
    ensures
        x.scale <= k,
        at_scale(x, k) == a.mantissa * b.mantissa * pow10((k - a.scale - b.scale) as nat),
{
    lemma_at_scale_up(x, a.scale + b.scale, k);
}

/// The amount named by a (mantissa, scale) pair.
pub open spec fn amount_of(p: (int, int)) -> Amount {
    Amount { mantissa: p.0 as i128, scale: p.1 as u32 }
}

/// The amount named by an optional (mantissa, scale) pair.
pub open spec fn lift(p: Option<(int, int)>) -> Option<Amount> {
    match p {
        Some(q) => Some(amount_of(q)),
        None => None,
    }
}

/// The amount held, or zero.
pub open spec fn or_zero(a: Option<Amount>) -> Amount {
    match a {
        Some(x) => x,
        None => Amount { mantissa: 0, scale: 0 },
    }
}

/// What `Decimal::checked_add` gives for two decimals, each taken as its
/// (mantissa, scale) pair; `None` on overflow.
pub uninterp spec fn decimal_sum(a_mantissa: int, a_scale: int, b_mantissa: int, b_scale: int) -> Option<(int, int)>;

/// What `Decimal::checked_sub` gives; `None` on overflow.
pub uninterp spec fn decimal_difference(a_mantissa: int, a_scale: int, b_mantissa: int, b_scale: int) -> Option<(int, int)>;

/// What `Decimal::checked_mul` gives; `None` on overflow.
pub uninterp spec fn decimal_product(a_mantissa: int, a_scale: int, b_mantissa: int, b_scale: int) -> Option<(int, int)>;

/// What `Decimal::checked_div` gives; `None` on overflow or division by zero.
pub uninterp spec fn decimal_quotient(a_mantissa: int, a_scale: int, b_mantissa: int, b_scale: int) -> Option<(int, int)>;

/// What `Decimal::from_str` gives for a text; `None` where it is refused.
pub uninterp spec fn decimal_parse(text: Seq<char>) -> Option<(int, int)>;

/// `a + b` as rust_decimal computes it.
pub open spec fn sum(a: Amount, b: Amount) -> Option<Amount> {
    lift(decimal_sum(a.mantissa as int, a.scale as int, b.mantissa as int, b.scale as int))
}

/// `a - b` as rust_decimal computes it.
pub open spec fn difference(a: Amount, b: Amount) -> Option<Amount> {
    lift(decimal_difference(a.mantissa as int, a.scale as int, b.mantissa as int, b.scale as int))
}

/// `a * b` as rust_decimal computes it.
pub open spec fn product(a: Amount, b: Amount) -> Option<Amount> {
    lift(decimal_product(a.mantissa as int, a.scale as int, b.mantissa as int, b.scale as int))
}

/// `a / b` as rust_decimal computes it.
pub open spec fn quotient(a: Amount, b: Amount) -> Option<Amount> {
    lift(decimal_quotient(a.mantissa as int, a.scale as int, b.mantissa as int, b.scale as int))
}

/// Calls `Decimal::checked_add` on the two decimals. The contract claims that
/// the result depends on the two operands alone and, being a `Decimal`, is
/// within the representation limits, and that where the exact sum fits in 96
/// bits at the larger of the two scales, the result is that sum, at that
/// scale or (when an operand is zero and the other is returned) a smaller
/// one. Where the exact sum does not fit, `rust_decimal` rounds it to a
/// smaller scale, and nothing is claimed of its value.
#[verifier::external_body]
pub(crate) fn checked_add(a: Amount, b: Amount) -> (r: Option<Amount>)
    requires
        a.wf(),
        b.wf(),
    ensures
        r == lift(decimal_sum(a.mantissa as int, a.scale as int, b.mantissa as int, b.scale as int)),
        r matches Some(x) ==> x.wf(),
        sum_fits(a, b) ==> r is Some,
        r matches Some(x) ==> sum_fits(a, b) ==> x.scale <= larger_scale(a, b),
        r matches Some(x) ==> sum_fits(a, b) ==> at_scale(x, larger_scale(a, b)) == at_scale(a, larger_scale(a, b))
            + at_scale(b, larger_scale(a, b)),
{
    let x = Decimal::from_i128_with_scale(a.mantissa, a.scale);
    let y = Decimal::from_i128_with_scale(b.mantissa, b.scale);
    match x.checked_add(y) {
        Some(d) => Some(Amount { mantissa: d.mantissa(), scale: d.scale() }),
        None => None,
    }
}

/// Calls `Decimal::checked_sub`. The contract claims that the result depends
/// on the two operands alone and is within the representation limits, and,
/// as for the sum, that where the exact difference fits in 96 bits at the
/// larger scale the result is that difference; otherwise it may be rounded,
/// and nothing is claimed of its value.
#[verifier::external_body]
pub(crate) fn checked_sub(a: Amount, b: Amount) -> (r: Option<Amount>)
    requires
        a.wf(),
        b.wf(),
    ensures
        r == lift(decimal_difference(a.mantissa as int, a.scale as int, b.mantissa as int, b.scale as int)),
        r matches Some(x) ==> x.wf(),
        difference_fits(a, b) ==> r is Some,
        r matches Some(x) ==> difference_fits(a, b) ==> x.scale <= larger_scale(a, b),
        r matches Some(x) ==> difference_fits(a, b) ==> at_scale(x, larger_scale(a, b)) == at_scale(
            a,
            larger_scale(a, b),
        ) - at_scale(b, larger_scale(a, b)),
{
    let x = Decimal::from_i128_with_scale(a.mantissa, a.scale);
    let y = Decimal::from_i128_with_scale(b.mantissa, b.scale);
    match x.checked_sub(y) {
        Some(d) => Some(Amount { mantissa: d.mantissa(), scale: d.scale() }),
        None => None,
    }
}

/// Calls `Decimal::checked_mul`. The contract claims that the result depends
/// on the two operands alone and is within the representation limits, and
/// that where the product of the mantissas fits in 96 bits and the sum of the
/// scales is at most 28, the result is that product at that scale (zero is
/// returned at scale zero). Otherwise the product is rounded, and nothing is
/// claimed of its value.
#[verifier::external_body]
pub(crate) fn checked_mul(a: Amount, b: Amount) -> (r: Option<Amount>)
    requires
        a.wf(),
        b.wf(),
    ensures
        r == lift(decimal_product(a.mantissa as int, a.scale as int, b.mantissa as int, b.scale as int)),
        r matches Some(x) ==> x.wf(),
        product_fits(a, b) ==> r is Some,
        r matches Some(x) ==> product_fits(a, b) ==> x.scale <= a.scale + b.scale,
        r matches Some(x) ==> product_fits(a, b) ==> at_scale(x, a.scale + b.scale) == a.mantissa * b.mantissa,
{
    let x = Decimal::from_i128_with_scale(a.mantissa, a.scale);
    let y = Decimal::from_i128_with_scale(b.mantissa, b.scale);
    match x.checked_mul(y) {
        Some(d) => Some(Amount { mantissa: d.mantissa(), scale: d.scale() }),
        None => None,
    }
}

/// Calls `Decimal::checked_div`. The contract claims that the result depends
/// on the two operands alone and is within the representation limits, and
/// that where the divisor is not zero, its scale is at most the dividend's
/// and its mantissa divides the dividend's, the result is the quotient of
/// the mantissas at the difference of the scales (zero at scale zero). Other
/// quotients are rounded, and nothing is claimed of their value.
#[verifier::external_body]
pub(crate) fn checked_div(a: Amount, b: Amount) -> (r: Option<Amount>)
    requires
        a.wf(),
        b.wf(),
    ensures
        r == lift(decimal_quotient(a.mantissa as int, a.scale as int, b.mantissa as int, b.scale as int)),
        r matches Some(x) ==> x.wf(),
        divides_evenly(a, b) ==> r is Some,
        r matches Some(x) ==> divides_evenly(a, b) ==> x.scale <= a.scale - b.scale,
        r matches Some(x) ==> divides_evenly(a, b) ==> at_scale(x, a.scale - b.scale) == (a.mantissa as int) / (
        b.mantissa as int),
{
    let x = Decimal::from_i128_with_scale(a.mantissa, a.scale);
    let y = Decimal::from_i128_with_scale(b.mantissa, b.scale);
    match x.checked_div(y) {
        Some(d) => Some(Amount { mantissa: d.mantissa(), scale: d.scale() }),
        None => None,
    }
}

/// Calls `Decimal::from_str`. The contract claims that the result depends on
/// the text alone and is within the representation limits; which texts are
/// read, and as what, is left to `rust_decimal`.
#[verifier::external_body]
fn parse_decimal(text: &str) -> (r: Option<Amount>)
    ensures
        r == lift(decimal_parse(text@)),
        r matches Some(x) ==> x.wf(),
{
    match Decimal::from_str(text) {
        Ok(d) => Some(Amount { mantissa: d.mantissa(), scale: d.scale() }),
        Err(_) => None,
    }
}

} // verus!

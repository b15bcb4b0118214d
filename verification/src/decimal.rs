//! Decimal numbers for the quantities that are not whole: a volatility, a
//! ratio of prices, a loss.
//!
//! A `Decimal` is a signed mantissa of at most 96 bits and a scale of at most
//! 28: the number `mantissa / 10^scale`. Sign tests, whole numbers and the
//! square root are handled here; sums, products, quotients and rounding are
//! done by the `rust_decimal` crate, whose results this module can name but
//! not derive.

use crate::wide::{integer_sqrt, lemma_square_order, pow2_256, sqrt_floor, wide_product, Wide};
use vstd::prelude::*;

verus! {

/// The number `mantissa / 10^scale`.
#[derive(Clone, Copy, Debug, PartialEq, Eq, Structural)]
pub struct Decimal {
    pub mantissa: i128,
    pub scale: u32,
}

/// The largest mantissa: 2^96 - 1.
pub open spec fn max_mantissa() -> int {
    0xffff_ffff_ffff_ffff_ffff_ffff
}

/// 10^n.
pub open spec fn pow10(n: nat) -> nat
    decreases n,
{
    if n == 0 {
        1
    } else {
        10 * pow10((n - 1) as nat)
    }
}

/// `mantissa / 10^scale` rounded to the nearest whole number, a tie going to
/// the even one.
pub open spec fn round_half_even(mantissa: int, scale: nat) -> int {
    let unit = pow10(scale) as int;
    let size = if mantissa < 0 {
        -mantissa
    } else {
        mantissa
    };
    let whole = size / unit;
    let part = size % unit;
    let up = 2 * part > unit || (2 * part == unit && whole % 2 == 1);
    let rounded = if up {
        whole + 1
    } else {
        whole
    };
    if mantissa < 0 {
        -rounded
    } else {
        rounded
    }
}

/// Every power of ten is positive.
pub proof fn lemma_pow10_positive(n: nat)
    ensures
        pow10(n) >= 1,
    decreases n,
{
    if n > 0 {
        lemma_pow10_positive((n - 1) as nat);
    }
}

/// Rounding moves a number by less than one: the result is no further from
/// zero than the mantissa and one more.
pub proof fn lemma_round_bounded(mantissa: int, scale: nat)
    ensures
        mantissa >= 0 ==> 0 <= round_half_even(mantissa, scale) <= mantissa + 1,
        mantissa < 0 ==> mantissa - 1 <= round_half_even(mantissa, scale) <= 0,
{
    lemma_pow10_positive(scale);
    let unit = pow10(scale) as int;
    let size = if mantissa < 0 {
        -mantissa
    } else {
        mantissa
    };
    vstd::arithmetic::div_mod::lemma_div_pos_is_pos(size, unit);
    vstd::arithmetic::div_mod::lemma_div_nonincreasing(size, unit);
}

impl Decimal {
    /// The mantissa fits in 96 bits and the scale is at most 28.
    pub open spec fn wf(&self) -> bool {
        &&& -max_mantissa() <= self.mantissa <= max_mantissa()
        &&& self.scale <= 28
    }

    /// A whole number.
    pub fn from_int(value: i64) -> (d: Decimal)
        ensures
            d.mantissa == value,
            d.scale == 0,
            d.wf(),
    {
        Decimal { mantissa: value as i128, scale: 0 }
    }

    /// The number `mantissa / 10^scale`; none where the mantissa has more than
    /// 96 bits or the scale is above 28.
    pub fn new(mantissa: i128, scale: u32) -> (d: Option<Decimal>)
        ensures
            d == (if (Decimal { mantissa, scale }).wf() {
                Some(Decimal { mantissa, scale })
            } else {
                None
            }),
    {
        if scale <= 28 && mantissa >= -0xffff_ffff_ffff_ffff_ffff_ffff && mantissa
            <= 0xffff_ffff_ffff_ffff_ffff_ffff {
            Some(Decimal { mantissa, scale })
        } else {
            None
        }
    }

    /// Whether the number is below zero.
    pub fn is_negative(&self) -> (r: bool)
        ensures
            r == (self.mantissa < 0),
    {
        self.mantissa < 0
    }

    /// Whether the number is zero.
    pub fn is_zero(&self) -> (r: bool)
        ensures
            r == (self.mantissa == 0),
    {
        self.mantissa == 0
    }

    /// Whether the number is above zero.
    pub fn is_positive(&self) -> (r: bool)
        ensures
            r == (self.mantissa > 0),
    {
        self.mantissa > 0
    }
}

/// The powers of ten up to 10^28.
proof fn lemma_pow10_values(n: nat)
    requires
        n <= 28,
    ensures
        1 <= pow10(n) <= 10000000000000000000000000000,
        n < 28 ==> pow10(n) <= 1000000000000000000000000000,
    decreases 28 - n,
{
    reveal_with_fuel(pow10, 2);
    if n < 28 {
        lemma_pow10_values(n + 1);
        assert(pow10(n + 1) == 10 * pow10(n));
    } else {
        lemma_pow10_positive(n);
        lemma_pow10_28();
    }
}

proof fn lemma_pow10_28()
    ensures
        pow10(28) == 10000000000000000000000000000,
{
    reveal_with_fuel(pow10, 8);
    assert(pow10(7) == 10000000);
    assert(pow10(14) == 100000000000000);
    assert(pow10(21) == 1000000000000000000000);
    assert(pow10(28) == 10000000000000000000000000000);
}

/// 10^n for `n` up to 28.
fn power_of_ten(n: u32) -> (r: u128)
    requires
        n <= 28,
    ensures
        r == pow10(n as nat),
{
    let mut r: u128 = 1;
    let mut i: u32 = 0;
    while i < n
        invariant
            i <= n <= 28,
            r == pow10(i as nat),
        decreases n - i,
    {
        proof {
            lemma_pow10_values(i as nat);
        }
        r = r * 10;
        i = i + 1;
    }
    r
}

/// The mantissa of the square root of `mantissa / 10^scale` at scale 14: the
/// square root of `mantissa * 10^(28 - scale)`, rounded down.
pub open spec fn root_mantissa(mantissa: int, scale: nat) -> nat {
    sqrt_floor((mantissa * pow10((28 - scale) as nat)) as nat)
}

/// The square root of a decimal that is not negative, to 14 decimal places and
/// rounded down; none for a negative number and for what is no decimal.
pub open spec fn decimal_root(d: Decimal) -> Option<Decimal> {
    if d.wf() && d.mantissa >= 0 {
        Some(Decimal { mantissa: root_mantissa(d.mantissa as int, d.scale as nat) as i128, scale: 14 })
    } else {
        None
    }
}

/// The square root of a decimal, to 14 decimal places and rounded down.
pub fn square_root(d: Decimal) -> (r: Option<Decimal>)
    ensures
        r == decimal_root(d),
        r is Some ==> r->Some_0.wf() && r->Some_0.mantissa >= 0,
{
    if d.scale > 28 || d.mantissa < 0 || d.mantissa > 0xffff_ffff_ffff_ffff_ffff_ffff {
        return None;
    }
    let unit: u128 = power_of_ten(28 - d.scale);
    let scaled = wide_product(d.mantissa as u128, unit);
    let root: u128 = integer_sqrt(&scaled);
    proof {
        // the root has fewer than 96 bits: its square is below 2^96 * 10^28
        lemma_pow10_values((28 - d.scale) as nat);
        let m = d.mantissa as int;
        let u = unit as int;
        assert(m * u <= 0xffff_ffff_ffff_ffff_ffff_ffff * 10000000000000000000000000000)
            by (nonlinear_arith)
            requires
                0 <= m <= 0xffff_ffff_ffff_ffff_ffff_ffff,
                0 <= u <= 10000000000000000000000000000,
        ;
        if root > 0xffff_ffff_ffff_ffff_ffff_ffff {
            lemma_square_order(0x1_0000_0000_0000_0000_0000_0000, root as nat);
            assert(0x1_0000_0000_0000_0000_0000_0000nat * 0x1_0000_0000_0000_0000_0000_0000nat
                > 0xffff_ffff_ffff_ffff_ffff_ffff * 10000000000000000000000000000) by (nonlinear_arith);
        }
    }
    Some(Decimal { mantissa: root as i128, scale: 14 })
}

/// The first decimal is the smaller number.
pub open spec fn decimal_below(a: Decimal, b: Decimal) -> bool {
    a.mantissa * pow10(b.scale as nat) < b.mantissa * pow10(a.scale as nat)
}

/// Whether the decimal is well formed.
pub fn is_well_formed(d: Decimal) -> (r: bool)
    ensures
        r == d.wf(),
{
    d.scale <= 28 && d.mantissa >= -0xffff_ffff_ffff_ffff_ffff_ffff && d.mantissa
        <= 0xffff_ffff_ffff_ffff_ffff_ffff
}

/// The size of a well-formed mantissa.
fn magnitude(mantissa: i128) -> (r: u128)
    requires
        -max_mantissa() <= mantissa <= max_mantissa(),
    ensures
        r == (if mantissa < 0 {
            -mantissa
        } else {
            mantissa as int
        }),
{
    if mantissa < 0 {
        (-mantissa) as u128
    } else {
        mantissa as u128
    }
}

/// Whether `a` is a smaller number than `b`, whatever their scales.
pub fn less_than(a: Decimal, b: Decimal) -> (r: bool)
    requires
        a.wf(),
        b.wf(),
    ensures
        r == decimal_below(a, b),
{
    let unit_a: u128 = power_of_ten(a.scale);
    let unit_b: u128 = power_of_ten(b.scale);
    let left = wide_product(magnitude(a.mantissa), unit_b);
    let right = wide_product(magnitude(b.mantissa), unit_a);
    proof {
        lemma_pow10_positive(a.scale as nat);
        lemma_pow10_positive(b.scale as nat);
        let (m, n) = (a.mantissa as int, b.mantissa as int);
        let (u, w) = (unit_a as int, unit_b as int);
        assert((-m) * w == -(m * w)) by (nonlinear_arith);
        assert((-n) * u == -(n * u)) by (nonlinear_arith);
        if m < 0 {
            assert(m * w < 0) by (nonlinear_arith)
                requires
                    m < 0,
                    w > 0,
            ;
        } else {
            assert(m * w >= 0) by (nonlinear_arith)
                requires
                    m >= 0,
                    w > 0,
            ;
        }
        if n < 0 {
            assert(n * u < 0) by (nonlinear_arith)
                requires
                    n < 0,
                    u > 0,
            ;
        } else {
            assert(n * u >= 0) by (nonlinear_arith)
                requires
                    n >= 0,
                    u > 0,
            ;
        }
    }
    if a.mantissa < 0 {
        if b.mantissa < 0 {
            right.less_than(&left)
        } else {
            true
        }
    } else {
        if b.mantissa < 0 {
            false
        } else {
            left.less_than(&right)
        }
    }
}

/// What `rust_decimal` gives as the sum of two decimals.
pub uninterp spec fn decimal_sum(a: Decimal, b: Decimal) -> Option<Decimal>;

/// What `rust_decimal` gives as the difference of two decimals.
pub uninterp spec fn decimal_difference(a: Decimal, b: Decimal) -> Option<Decimal>;

/// What `rust_decimal` gives as the product of two decimals.
pub uninterp spec fn decimal_product(a: Decimal, b: Decimal) -> Option<Decimal>;

/// What `rust_decimal` gives as the quotient of two decimals.
pub uninterp spec fn decimal_quotient(a: Decimal, b: Decimal) -> Option<Decimal>;

/// `rust_decimal::Decimal::checked_add` on two decimals that are built with
/// `try_from_i128_with_scale` and read back with `mantissa` and `scale`.
///
/// Assumed, not proved: the result depends on the two arguments alone. `None`
/// stands for an overflow and for an argument that is no decimal.
#[verifier::external_body]
pub(crate) fn checked_sum(a: Decimal, b: Decimal) -> (r: Option<Decimal>)
    ensures
        r == decimal_sum(a, b),
{
    let x = rust_decimal::Decimal::try_from_i128_with_scale(a.mantissa, a.scale).ok()?;
    let y = rust_decimal::Decimal::try_from_i128_with_scale(b.mantissa, b.scale).ok()?;
    let z = x.checked_add(y)?;
    Some(Decimal { mantissa: z.mantissa(), scale: z.scale() })
}

/// `rust_decimal::Decimal::checked_sub`, as `checked_sum` is for `checked_add`.
///
/// Assumed, not proved: the result depends on the two arguments alone.
#[verifier::external_body]
pub(crate) fn checked_difference(a: Decimal, b: Decimal) -> (r: Option<Decimal>)
    ensures
        r == decimal_difference(a, b),
{
    let x = rust_decimal::Decimal::try_from_i128_with_scale(a.mantissa, a.scale).ok()?;
    let y = rust_decimal::Decimal::try_from_i128_with_scale(b.mantissa, b.scale).ok()?;
    let z = x.checked_sub(y)?;
    Some(Decimal { mantissa: z.mantissa(), scale: z.scale() })
}

/// `rust_decimal::Decimal::checked_mul`, as `checked_sum` is for `checked_add`.
///
/// Assumed, not proved: the result depends on the two arguments alone.
#[verifier::external_body]
pub(crate) fn checked_product(a: Decimal, b: Decimal) -> (r: Option<Decimal>)
    ensures
        r == decimal_product(a, b),
{
    let x = rust_decimal::Decimal::try_from_i128_with_scale(a.mantissa, a.scale).ok()?;
    let y = rust_decimal::Decimal::try_from_i128_with_scale(b.mantissa, b.scale).ok()?;
    let z = x.checked_mul(y)?;
    Some(Decimal { mantissa: z.mantissa(), scale: z.scale() })
}

/// `rust_decimal::Decimal::checked_div`, as `checked_sum` is for `checked_add`.
///
/// Assumed, not proved: the result depends on the two arguments alone. `None`
/// stands for a division by zero as well.
#[verifier::external_body]
pub(crate) fn checked_quotient(a: Decimal, b: Decimal) -> (r: Option<Decimal>)
    ensures
        r == decimal_quotient(a, b),
{
    let x = rust_decimal::Decimal::try_from_i128_with_scale(a.mantissa, a.scale).ok()?;
    let y = rust_decimal::Decimal::try_from_i128_with_scale(b.mantissa, b.scale).ok()?;
    let z = x.checked_div(y)?;
    Some(Decimal { mantissa: z.mantissa(), scale: z.scale() })
}

/// `rust_decimal::Decimal::round`: the nearest whole number, a tie going to
/// the even one.
///
/// Assumed, not proved: for a well-formed decimal the result has scale zero
/// and the mantissa that `round_half_even` gives; for any other argument
/// there is no result.
#[verifier::external_body]
pub(crate) fn rounded(a: Decimal) -> (r: Option<Decimal>)
    ensures
        a.wf() ==> r == Some(
            Decimal { mantissa: round_half_even(a.mantissa as int, a.scale as nat) as i128, scale: 0 },
        ),
        !a.wf() ==> r is None,
{
    let x = rust_decimal::Decimal::try_from_i128_with_scale(a.mantissa, a.scale).ok()?;
    let z = x.round();
    Some(Decimal { mantissa: z.mantissa(), scale: z.scale() })
}

} // verus!

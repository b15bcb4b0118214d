//! Constant-product pricing.
//!
//! A pool holds reserves `x` and `y` of two assets and prices a trade so that
//! the product `x * y` does not fall. For an input `dx` of the first asset and
//! a fee of `fee_bps` basis points the output of the second asset is
//!
//! ```text
//! effective_in = dx * (1 - fee_bps / 10000)
//! out          = y - x * y / (x + effective_in)
//! ```
//!
//! which is the fraction `y * dx * (10000 - fee_bps)` over
//! `10000 * x + dx * (10000 - fee_bps)`. The functions here compute that
//! fraction exactly, whole part and remainder, for every 128-bit input.
//!
//! The same price is offered on decimal reserves, in the arithmetic of
//! decimals, where every step is rounded to what a decimal holds. The laws of
//! the pricing, that the output grows with the input and that a swap does not
//! lower the product of the reserves, hold of the exact price.
//!
//! Two more policies stand beside the pricing: a fee that follows volatility
//! and volume, and the loss of a liquidity provider against holding. Both work
//! on decimals. The volatility fee is a policy of its own: a pool's swaps use
//! the fee by trade size that the pool module defines, not this one.

use crate::decimal::{
    checked_difference, checked_product, checked_quotient, checked_sum, decimal_difference,
    decimal_product, decimal_quotient, decimal_root, decimal_sum, lemma_round_bounded,
    round_half_even, rounded, square_root, Decimal,
};
use crate::wide::{
    mul_div, pow2_128, pow2_254, pow2_256, product_less_than, wide_product, wide_times, Wide,
};
use vstd::prelude::*;

verus! {

/// Why a price could not be computed.
#[derive(Clone, Copy, Debug, PartialEq, Eq, Structural)]
pub enum MathError {
    /// The computed output is not positive.
    InsufficientLiquidity,
    /// A reserve, an amount or a price is not positive.
    InvalidInput,
    /// A decimal intermediate result is out of the representable range.
    Overflow,
}

impl MathError {
    /// The error in words.
    pub fn message(&self) -> (s: &'static str)
        ensures
            s@ == match *self {
                MathError::InsufficientLiquidity => "insufficient liquidity"@,
                MathError::InvalidInput => "invalid input"@,
                MathError::Overflow => "overflow"@,
            },
    {
        match self {
            MathError::InsufficientLiquidity => "insufficient liquidity",
            MathError::InvalidInput => "invalid input",
            MathError::Overflow => "overflow",
        }
    }
}

/// A non-negative amount that need not be whole: `whole + remainder / divisor`.
#[derive(Clone, Copy, Debug, PartialEq, Eq, Structural)]
pub struct ExactAmount {
    pub whole: u128,
    pub remainder: Wide,
    pub divisor: Wide,
}

impl ExactAmount {
    /// The fractional part is a proper fraction.
    pub open spec fn wf(&self) -> bool {
        &&& self.divisor@ > 0
        &&& self.remainder@ < self.divisor@
    }

    /// The amount as the numerator of a fraction over `divisor`.
    pub open spec fn numerator(&self) -> nat {
        self.whole as nat * self.divisor@ + self.remainder@
    }

    /// Whether the fractional part is a proper fraction.
    pub fn is_well_formed(&self) -> (r: bool)
        ensures
            r == self.wf(),
    {
        !self.divisor.is_zero() && self.remainder.less_than(&self.divisor)
    }

    /// This amount is the smaller one: as fractions, `self` is below `other`.
    pub open spec fn below(&self, other: &ExactAmount) -> bool {
        self.numerator() * other.divisor@ < other.numerator() * self.divisor@
    }

    /// Whether this amount is below `other`, fractional parts included.
    pub fn less_than(&self, other: &ExactAmount) -> (r: bool)
        requires
            self.wf(),
            other.wf(),
        ensures
            r == self.below(other),
    {
        proof {
            let (w1, r1, d1) = (self.whole as int, self.remainder@ as int, self.divisor@ as int);
            let (w2, r2, d2) = (other.whole as int, other.remainder@ as int, other.divisor@ as int);
            let dd = d1 * d2;
            assert((w1 * d1 + r1) * d2 == w1 * dd + r1 * d2) by (nonlinear_arith)
                requires
                    dd == d1 * d2,
            ;
            assert((w2 * d2 + r2) * d1 == w2 * dd + r2 * d1) by (nonlinear_arith)
                requires
                    dd == d1 * d2,
            ;
            assert(0 <= r1 * d2 < dd) by (nonlinear_arith)
                requires
                    0 <= r1 < d1,
                    d2 > 0,
                    dd == d1 * d2,
            ;
            assert(0 <= r2 * d1 < dd) by (nonlinear_arith)
                requires
                    0 <= r2 < d2,
                    d1 > 0,
                    dd == d1 * d2,
            ;
            if w1 < w2 {
                assert(w2 * dd >= w1 * dd + dd) by (nonlinear_arith)
                    requires
                        w2 >= w1 + 1,
                        dd >= 0,
                ;
            }
            if w2 < w1 {
                assert(w1 * dd >= w2 * dd + dd) by (nonlinear_arith)
                    requires
                        w1 >= w2 + 1,
                        dd >= 0,
                ;
            }
        }
        if self.whole != other.whole {
            return self.whole < other.whole;
        }
        let first = wide_times(&self.remainder, &other.divisor);
        let second = wide_times(&other.remainder, &self.divisor);
        product_less_than(&first, &second)
    }

    /// The amount with its fractional part cut off.
    pub fn truncated(&self) -> (r: u128)
        ensures
            r == self.whole,
    {
        self.whole
    }

    /// Whether the amount is above zero.
    pub fn is_positive(&self) -> (r: bool)
        ensures
            r == (self.numerator() > 0),
    {
        proof {
            let w = self.whole as int;
            let d = self.divisor@ as int;
            if w > 0 && d > 0 {
                assert(w * d >= d) by (nonlinear_arith)
                    requires
                        w >= 1,
                        d > 0,
                ;
            }
            if w == 0 {
                assert(w * d == 0) by (nonlinear_arith)
                    requires
                        w == 0,
                ;
            }
            if d == 0 {
                assert(w * d == 0) by (nonlinear_arith)
                    requires
                        d == 0,
                ;
            }
        }
        (self.whole > 0 && !self.divisor.is_zero()) || !self.remainder.is_zero()
    }
}

/// What is left of each 10000 parts of the input after the fee.
pub open spec fn fee_complement(fee_bps: i64) -> int {
    10000 - fee_bps
}

/// The numerator of the output fraction: `y * dx * (10000 - fee_bps)`.
pub open spec fn cpmm_numerator(y: nat, dx: nat, fee_bps: i64) -> int {
    y * (dx * fee_complement(fee_bps))
}

/// The denominator of the output fraction: `10000 * x + dx * (10000 - fee_bps)`.
pub open spec fn cpmm_denominator(x: nat, dx: nat, fee_bps: i64) -> int {
    10000 * x + dx * fee_complement(fee_bps)
}

/// The output with its fractional part cut off.
pub open spec fn cpmm_whole_output(x: nat, y: nat, dx: nat, fee_bps: i64) -> int {
    cpmm_numerator(y, dx, fee_bps) / cpmm_denominator(x, dx, fee_bps)
}

/// The output fraction is the pricing formula: with `effective_in` as
/// `dx * (10000 - fee_bps) / 10000` and `k` as `x * y`, the output times
/// `x + effective_in` is `y * (x + effective_in) - k` (here with both sides
/// times 10000).
pub proof fn lemma_cpmm_formula(x: nat, y: nat, dx: nat, fee_bps: i64)
    ensures
        cpmm_numerator(y, dx, fee_bps) == y * cpmm_denominator(x, dx, fee_bps) - 10000 * (x * y),
{
    let t = fee_complement(fee_bps);
    assert(y * (10000 * x + dx * t) - 10000 * (x * y) == y * (dx * t)) by (nonlinear_arith);
}

/// The output of a constant-product pool for an input of `dx`, exactly.
///
/// `InvalidInput` where a reserve or the input is zero; `InsufficientLiquidity`
/// where the fee takes the whole input (10000 basis points or more), so that
/// the output is not positive. A negative fee is a rebate and is priced by the
/// same formula.
pub fn cpmm_out_given_in(x_reserve: u128, y_reserve: u128, dx: u128, fee_bps: i64) -> (r: Result<
    ExactAmount,
    MathError,
>)
    ensures
        (x_reserve == 0 || y_reserve == 0 || dx == 0) ==> r == Err::<ExactAmount, MathError>(
            MathError::InvalidInput,
        ),
        (x_reserve > 0 && y_reserve > 0 && dx > 0 && fee_bps >= 10000) ==> r == Err::<
            ExactAmount,
            MathError,
        >(MathError::InsufficientLiquidity),
        (x_reserve > 0 && y_reserve > 0 && dx > 0 && fee_bps < 10000) ==> {
            &&& r is Ok
            &&& r->Ok_0.wf()
            &&& r->Ok_0.divisor@ == cpmm_denominator(x_reserve as nat, dx as nat, fee_bps)
            &&& r->Ok_0.numerator() == cpmm_numerator(y_reserve as nat, dx as nat, fee_bps)
            &&& r->Ok_0.whole == cpmm_whole_output(
                x_reserve as nat,
                y_reserve as nat,
                dx as nat,
                fee_bps,
            )
            &&& r->Ok_0.numerator() > 0
            &&& r->Ok_0.whole < y_reserve
        },
{
    if x_reserve == 0 || y_reserve == 0 || dx == 0 {
        return Err(MathError::InvalidInput);
    }
    if fee_bps >= 10000 {
        return Err(MathError::InsufficientLiquidity);
    }
    let kept: u128 = (10000 - (fee_bps as i128)) as u128;
    let input = wide_product(dx, kept);
    let base = wide_product(x_reserve, 10000);
    proof {
        let t = kept as int;
        let p = pow2_128() as int;
        assert(t == fee_complement(fee_bps));
        assert(dx as int * t <= (p - 1) * 0x8000_0000_0000_2710) by (nonlinear_arith)
            requires
                0 <= dx as int <= p - 1,
                0 < t <= 0x8000_0000_0000_2710,
        ;
        assert(x_reserve as int * 10000 <= (p - 1) * 10000) by (nonlinear_arith)
            requires
                0 <= x_reserve as int <= p - 1,
        ;
        assert(x_reserve as int * 10000 >= 10000) by (nonlinear_arith)
            requires
                x_reserve as int >= 1,
        ;
        assert(dx as int * t >= 1) by (nonlinear_arith)
            requires
                dx as int >= 1,
                t >= 1,
        ;
        assert((p - 1) * 0x8000_0000_0000_2710 + (p - 1) * 10000 < pow2_254()) by (nonlinear_arith)
            requires
                p == 0x1_0000_0000_0000_0000_0000_0000_0000_0000int,
        ;
        assert(pow2_254() < pow2_256());
        assert(x_reserve as nat * 10000 == 10000 * x_reserve as nat) by (nonlinear_arith);
    }
    let divisor = input.plus(&base);
    let (whole, remainder) = mul_div(y_reserve, &input, &divisor);
    proof {
        let n = y_reserve as nat * input@;
        let d = divisor@;
        vstd::arithmetic::div_mod::lemma_fundamental_div_mod(n as int, d as int);
        assert(d * (n / d) == (n / d) * d) by (nonlinear_arith);
        assert(n >= 1) by (nonlinear_arith)
            requires
                n == y_reserve as nat * input@,
                y_reserve >= 1,
                input@ >= 1,
        ;
        // the output stays below the reserve: y * input < y * divisor
        assert(y_reserve as nat * input@ < y_reserve as nat * d) by (nonlinear_arith)
            requires
                input@ < d,
                y_reserve >= 1,
        ;
        if whole >= y_reserve {
            assert(whole as nat * d >= y_reserve as nat * d) by (nonlinear_arith)
                requires
                    whole >= y_reserve,
            ;
        }
    }
    Ok(ExactAmount { whole, remainder, divisor })
}

/// The output is positive and strictly increasing in the input: for reserves
/// above zero, a fee below 10000 basis points and inputs `0 < dx1 < dx2`, both
/// outputs are above zero and the output for `dx2` is the larger fraction.
pub proof fn lemma_cpmm_strictly_increasing(x: nat, y: nat, dx1: nat, dx2: nat, fee_bps: i64)
    requires
        x > 0,
        y > 0,
        0 < dx1 < dx2,
        fee_bps < 10000,
    ensures
        cpmm_denominator(x, dx1, fee_bps) > 0,
        cpmm_denominator(x, dx2, fee_bps) > 0,
        cpmm_numerator(y, dx1, fee_bps) > 0,
        cpmm_numerator(y, dx2, fee_bps) > 0,
        cpmm_numerator(y, dx1, fee_bps) * cpmm_denominator(x, dx2, fee_bps) < cpmm_numerator(
            y,
            dx2,
            fee_bps,
        ) * cpmm_denominator(x, dx1, fee_bps),
{
    let t = fee_complement(fee_bps);
    let a1 = dx1 * t;
    let a2 = dx2 * t;
    let b = 10000 * x;
    assert(a1 >= 1) by (nonlinear_arith)
        requires
            a1 == dx1 * t,
            dx1 >= 1,
            t >= 1,
    ;
    assert(a1 < a2) by (nonlinear_arith)
        requires
            a1 == dx1 * t,
            a2 == dx2 * t,
            dx1 < dx2,
            t >= 1,
    ;
    assert(y * a1 >= 1) by (nonlinear_arith)
        requires
            y >= 1,
            a1 >= 1,
    ;
    assert(y * a2 >= 1) by (nonlinear_arith)
        requires
            y >= 1,
            a2 >= 1,
    ;
    // (y a1)(b + a2) < (y a2)(b + a1)  <==>  y b a1 < y b a2
    assert((y * a1) * (b + a2) < (y * a2) * (b + a1)) by (nonlinear_arith)
        requires
            y >= 1,
            b >= 1,
            0 <= a1 < a2,
    ;
}

/// The whole output never falls when the input grows.
pub proof fn lemma_cpmm_whole_monotonic(x: nat, y: nat, dx1: nat, dx2: nat, fee_bps: i64)
    requires
        x > 0,
        y > 0,
        0 < dx1 <= dx2,
        fee_bps < 10000,
    ensures
        cpmm_whole_output(x, y, dx1, fee_bps) <= cpmm_whole_output(x, y, dx2, fee_bps),
{
    if dx1 < dx2 {
        lemma_cpmm_strictly_increasing(x, y, dx1, dx2, fee_bps);
        let n1 = cpmm_numerator(y, dx1, fee_bps);
        let n2 = cpmm_numerator(y, dx2, fee_bps);
        let d1 = cpmm_denominator(x, dx1, fee_bps);
        let d2 = cpmm_denominator(x, dx2, fee_bps);
        lemma_fraction_order(n1, d1, n2, d2);
    }
}

/// `n1 / d1 <= n2 / d2` as whole quotients where `n1 * d2 <= n2 * d1`.
pub proof fn lemma_fraction_order(n1: int, d1: int, n2: int, d2: int)
    requires
        n1 >= 0,
        n2 >= 0,
        d1 > 0,
        d2 > 0,
        n1 * d2 <= n2 * d1,
    ensures
        n1 / d1 <= n2 / d2,
{
    let q1 = n1 / d1;
    let q2 = n2 / d2;
    vstd::arithmetic::div_mod::lemma_fundamental_div_mod(n1, d1);
    vstd::arithmetic::div_mod::lemma_fundamental_div_mod(n2, d2);
    vstd::arithmetic::div_mod::lemma_mod_bound(n1, d1);
    vstd::arithmetic::div_mod::lemma_mod_bound(n2, d2);
    if q1 > q2 {
        // n1 >= q1 d1 >= (q2 + 1) d1, and n2 < (q2 + 1) d2
        assert(d1 * q1 >= d1 * (q2 + 1)) by (nonlinear_arith)
            requires
                q1 >= q2 + 1,
                d1 > 0,
        ;
        assert(d2 * q2 + d2 == d2 * (q2 + 1)) by (nonlinear_arith);
        let m = q2 + 1;
        assert(n1 >= d1 * m);
        assert(n2 < d2 * m);
        vstd::arithmetic::div_mod::lemma_div_pos_is_pos(n2, d2);
        assert(n1 * d2 >= (d1 * m) * d2) by (nonlinear_arith)
            requires
                n1 >= d1 * m,
                d2 > 0,
        ;
        assert(n2 * d1 < (d2 * m) * d1) by (nonlinear_arith)
            requires
                n2 < d2 * m,
                d1 > 0,
        ;
        assert((d1 * m) * d2 == (d2 * m) * d1) by (nonlinear_arith);
    }
}


/// The whole number `value` as a decimal.
pub open spec fn whole(value: int) -> Decimal {
    Decimal { mantissa: value as i128, scale: 0 }
}

/// The raw fee adjustment: `volatility * 1000 + (volume_24h / liquidity) * 50`,
/// in the arithmetic of decimals; none where a step is out of range.
pub open spec fn fee_score(volatility: Decimal, volume_24h: Decimal, liquidity: Decimal) -> Option<
    Decimal,
> {
    match decimal_product(volatility, whole(1000)) {
        None => None,
        Some(by_volatility) => match decimal_quotient(volume_24h, liquidity) {
            None => None,
            Some(turnover) => match decimal_product(turnover, whole(50)) {
                None => None,
                Some(by_volume) => decimal_sum(by_volatility, by_volume),
            },
        },
    }
}

/// The fee for a rounded adjustment: the base fee plus the adjustment, which
/// counts for no less than 0 and no more than 50; the sum is held between 1
/// and 100 basis points.
pub open spec fn fee_with_adjustment(base_fee: u16, adjustment: int) -> u16 {
    let counted = if adjustment < 0 {
        0
    } else if adjustment > 50 {
        50
    } else {
        adjustment
    };
    let sum = base_fee + counted;
    if sum > 100 {
        100
    } else if sum < 1 {
        1
    } else {
        sum as u16
    }
}

/// The fee in basis points for a base fee and a rounded adjustment.
pub fn adjusted_fee(base_fee: u16, adjustment: i128) -> (fee: u16)
    ensures
        fee == fee_with_adjustment(base_fee, adjustment as int),
        1 <= fee <= 100,
{
    let counted: u16 = if adjustment < 0 {
        0
    } else if adjustment > 50 {
        50
    } else {
        adjustment as u16
    };
    let sum: u16 = base_fee.saturating_add(counted);
    if sum > 100 {
        100
    } else if sum < 1 {
        1
    } else {
        sum
    }
}

/// What `calculate_dynamic_fee` returns.
pub open spec fn dynamic_fee_outcome(
    base_fee: u16,
    volatility: Decimal,
    volume_24h: Decimal,
    liquidity: Decimal,
) -> Result<u16, MathError> {
    if volatility.mantissa < 0 || volume_24h.mantissa < 0 || liquidity.mantissa <= 0 {
        Err(MathError::InvalidInput)
    } else {
        match fee_score(volatility, volume_24h, liquidity) {
            None => Err(MathError::Overflow),
            Some(score) => if score.wf() {
                Ok(
                    fee_with_adjustment(
                        base_fee,
                        round_half_even(score.mantissa as int, score.scale as nat),
                    ),
                )
            } else {
                Err(MathError::Overflow)
            },
        }
    }
}

/// The fee in basis points under the volatility policy: the base fee plus
/// `min(50, round(volatility * 1000 + (volume_24h / liquidity) * 50))`, held
/// between 1 and 100.
///
/// `InvalidInput` where the volatility or the volume is negative or the
/// liquidity is not positive; `Overflow` where the decimal arithmetic leaves its
/// range.
pub fn calculate_dynamic_fee(
    base_fee: u16,
    price_volatility: Decimal,
    volume_24h: Decimal,
    pool_liquidity: Decimal,
) -> (r: Result<u16, MathError>)
    ensures
        r == dynamic_fee_outcome(base_fee, price_volatility, volume_24h, pool_liquidity),
        r is Ok ==> 1 <= r->Ok_0 <= 100,
{
    if price_volatility.is_negative() || volume_24h.is_negative() || !pool_liquidity.is_positive() {
        return Err(MathError::InvalidInput);
    }
    let by_volatility = match checked_product(price_volatility, Decimal::from_int(1000)) {
        Some(d) => d,
        None => {
            return Err(MathError::Overflow);
        },
    };
    let turnover = match checked_quotient(volume_24h, pool_liquidity) {
        Some(d) => d,
        None => {
            return Err(MathError::Overflow);
        },
    };
    let by_volume = match checked_product(turnover, Decimal::from_int(50)) {
        Some(d) => d,
        None => {
            return Err(MathError::Overflow);
        },
    };
    let score = match checked_sum(by_volatility, by_volume) {
        Some(d) => d,
        None => {
            return Err(MathError::Overflow);
        },
    };
    proof {
        lemma_round_bounded(score.mantissa as int, score.scale as nat);
    }
    match rounded(score) {
        Some(whole_score) => Ok(adjusted_fee(base_fee, whole_score.mantissa)),
        None => Err(MathError::Overflow),
    }
}

/// What `price_ratio` returns.
pub open spec fn price_ratio_outcome(initial_price: Decimal, current_price: Decimal) -> Result<
    Decimal,
    MathError,
> {
    if initial_price.mantissa <= 0 || current_price.mantissa <= 0 {
        Err(MathError::InvalidInput)
    } else {
        match decimal_quotient(current_price, initial_price) {
            Some(ratio) => Ok(ratio),
            None => Err(MathError::Overflow),
        }
    }
}

/// The ratio `current_price / initial_price` that the impermanent loss is a
/// function of.
///
/// `InvalidInput` where a price is not positive; `Overflow` where the ratio is
/// out of range.
pub fn price_ratio(initial_price: Decimal, current_price: Decimal) -> (r: Result<Decimal, MathError>)
    ensures
        r == price_ratio_outcome(initial_price, current_price),
{
    if !initial_price.is_positive() || !current_price.is_positive() {
        return Err(MathError::InvalidInput);
    }
    match checked_quotient(current_price, initial_price) {
        Some(ratio) => Ok(ratio),
        None => Err(MathError::Overflow),
    }
}

/// What `impermanent_loss_from_root` returns.
pub open spec fn loss_outcome(ratio: Decimal, root: Decimal) -> Result<Decimal, MathError> {
    match decimal_product(whole(2), root) {
        None => Err(MathError::Overflow),
        Some(numerator) => match decimal_sum(whole(1), ratio) {
            None => Err(MathError::Overflow),
            Some(denominator) => if denominator.mantissa == 0 {
                Err(MathError::InvalidInput)
            } else {
                match decimal_quotient(numerator, denominator) {
                    None => Err(MathError::Overflow),
                    Some(share) => match decimal_difference(share, whole(1)) {
                        None => Err(MathError::Overflow),
                        Some(loss) => Ok(loss),
                    },
                }
            },
        },
    }
}

/// The impermanent loss `2 * root / (1 + ratio) - 1` for a price ratio and its
/// square root. A negative result is a loss.
///
/// `InvalidInput` where `1 + ratio` is zero; `Overflow` where a step is out of
/// range.
pub fn impermanent_loss_from_root(ratio: Decimal, root: Decimal) -> (r: Result<Decimal, MathError>)
    ensures
        r == loss_outcome(ratio, root),
{
    let numerator = match checked_product(Decimal::from_int(2), root) {
        Some(d) => d,
        None => {
            return Err(MathError::Overflow);
        },
    };
    let denominator = match checked_sum(Decimal::from_int(1), ratio) {
        Some(d) => d,
        None => {
            return Err(MathError::Overflow);
        },
    };
    if denominator.is_zero() {
        return Err(MathError::InvalidInput);
    }
    let share = match checked_quotient(numerator, denominator) {
        Some(d) => d,
        None => {
            return Err(MathError::Overflow);
        },
    };
    match checked_difference(share, Decimal::from_int(1)) {
        Some(loss) => Ok(loss),
        None => Err(MathError::Overflow),
    }
}


/// What `cpmm_out_given_in_decimal` returns: the pricing formula, step by
/// step, in the arithmetic of decimals.
pub open spec fn cpmm_decimal_outcome(x: Decimal, y: Decimal, dx: Decimal, fee_bps: i64) -> Result<
    Decimal,
    MathError,
> {
    if x.mantissa <= 0 || y.mantissa <= 0 || dx.mantissa <= 0 {
        Err(MathError::InvalidInput)
    } else if fee_bps >= 10000 {
        Err(MathError::InsufficientLiquidity)
    } else {
        match effective_input(dx, fee_bps) {
            None => Err(MathError::Overflow),
            Some(effective_in) => match (decimal_product(x, y), decimal_sum(x, effective_in)) {
                (Some(k), Some(new_x)) => match decimal_quotient(k, new_x) {
                    None => Err(MathError::Overflow),
                    Some(new_y) => match decimal_difference(y, new_y) {
                        None => Err(MathError::Overflow),
                        Some(out) => if out.mantissa <= 0 {
                            Err(MathError::InsufficientLiquidity)
                        } else {
                            Ok(out)
                        },
                    },
                },
                _ => Err(MathError::Overflow),
            },
        }
    }
}

/// `dx * (1 - fee_bps / 10000)` in the arithmetic of decimals.
pub open spec fn effective_input(dx: Decimal, fee_bps: i64) -> Option<Decimal> {
    match decimal_quotient(whole(fee_bps as int), whole(10000)) {
        None => None,
        Some(fee) => match decimal_difference(whole(1), fee) {
            None => None,
            Some(kept) => decimal_product(dx, kept),
        },
    }
}

/// The output of a constant-product pool on decimal reserves, in the
/// arithmetic of decimals: every step is rounded to what a decimal holds. For
/// whole reserves `cpmm_out_given_in` gives the exact price.
///
/// `InvalidInput` where a reserve or the input is not positive;
/// `InsufficientLiquidity` where the fee is 10000 basis points or more or the
/// computed output is not positive; `Overflow` where a step leaves the range of
/// decimals.
pub fn cpmm_out_given_in_decimal(x_reserve: Decimal, y_reserve: Decimal, dx: Decimal, fee_bps: i64) -> (r:
    Result<Decimal, MathError>)
    ensures
        r == cpmm_decimal_outcome(x_reserve, y_reserve, dx, fee_bps),
        r is Ok ==> r->Ok_0.mantissa > 0,
{
    if !x_reserve.is_positive() || !y_reserve.is_positive() || !dx.is_positive() {
        return Err(MathError::InvalidInput);
    }
    if fee_bps >= 10000 {
        return Err(MathError::InsufficientLiquidity);
    }
    let fee = match checked_quotient(Decimal::from_int(fee_bps), Decimal::from_int(10000)) {
        Some(d) => d,
        None => {
            return Err(MathError::Overflow);
        },
    };
    let kept = match checked_difference(Decimal::from_int(1), fee) {
        Some(d) => d,
        None => {
            return Err(MathError::Overflow);
        },
    };
    let effective_in = match checked_product(dx, kept) {
        Some(d) => d,
        None => {
            return Err(MathError::Overflow);
        },
    };
    let k = match checked_product(x_reserve, y_reserve) {
        Some(d) => d,
        None => {
            return Err(MathError::Overflow);
        },
    };
    let new_x = match checked_sum(x_reserve, effective_in) {
        Some(d) => d,
        None => {
            return Err(MathError::Overflow);
        },
    };
    let new_y = match checked_quotient(k, new_x) {
        Some(d) => d,
        None => {
            return Err(MathError::Overflow);
        },
    };
    let out = match checked_difference(y_reserve, new_y) {
        Some(d) => d,
        None => {
            return Err(MathError::Overflow);
        },
    };
    if !out.is_positive() {
        return Err(MathError::InsufficientLiquidity);
    }
    Ok(out)
}

/// What `calculate_impermanent_loss` returns.
pub open spec fn impermanent_loss_outcome(initial_price: Decimal, current_price: Decimal) -> Result<
    Decimal,
    MathError,
> {
    match price_ratio_outcome(initial_price, current_price) {
        Err(e) => Err(e),
        Ok(ratio) => match decimal_root(ratio) {
            None => Err(MathError::InvalidInput),
            Some(root) => loss_outcome(ratio, root),
        },
    }
}

/// The impermanent loss of a liquidity provider against holding, for a price
/// that went from `initial_price` to `current_price`: with `P` as their ratio,
/// `2 * sqrt(P) / (1 + P) - 1`. A negative result is a loss.
///
/// The square root is taken to 14 decimal places, rounded down.
///
/// `InvalidInput` where a price is not positive; `Overflow` where the decimal
/// arithmetic leaves its range.
pub fn calculate_impermanent_loss(initial_price: Decimal, current_price: Decimal) -> (r: Result<
    Decimal,
    MathError,
>)
    ensures
        r == impermanent_loss_outcome(initial_price, current_price),
        (initial_price.mantissa <= 0 || current_price.mantissa <= 0) ==> r == Err::<
            Decimal,
            MathError,
        >(MathError::InvalidInput),
{
    let ratio = match price_ratio(initial_price, current_price) {
        Ok(ratio) => ratio,
        Err(e) => {
            return Err(e);
        },
    };
    let root = match square_root(ratio) {
        Some(root) => root,
        None => {
            return Err(MathError::InvalidInput);
        },
    };
    impermanent_loss_from_root(ratio, root)
}

} // verus!

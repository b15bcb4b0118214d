//! One constant-product pool: its reserves, its fee policy, and the state
//! transitions that provide liquidity and swap one asset for the other.
//!
//! Every operation is one transition on a `Pool` that the caller owns. An
//! operation that fails leaves the pool as it was.
//!
//! Deposits raise the raw reserves only: no share of the pool is recorded for
//! the depositor.

use crate::math::{
    cpmm_denominator, cpmm_numerator, cpmm_out_given_in, cpmm_whole_output, fee_complement,
    MathError,
};
use crate::wide::{mul_div, Wide};
use vstd::prelude::*;

verus! {

/// The state of a pool.
#[derive(Clone, Debug, PartialEq, Eq)]
pub struct Pool {
    pub token_x: String,
    pub token_y: String,
    /// Base fee in basis points.
    pub fee_bps: u16,
    pub x_reserve: u128,
    pub y_reserve: u128,
    /// Sum of all swap inputs so far.
    pub total_volume: u128,
}

/// What a new pool is made from.
#[derive(Clone, Debug, PartialEq, Eq)]
pub struct InstantiateMsg {
    pub token_x: String,
    pub token_y: String,
    pub fee_bps: u16,
}

/// The operations that change a pool.
#[derive(Clone, Copy, Debug, PartialEq, Eq, Structural)]
pub enum ExecuteMsg {
    ProvideLiquidity { x: u128, y: u128 },
    SwapXForY { dx: u128, min_dy: u128 },
    SwapYForX { dy: u128, min_dx: u128 },
}

/// The questions a pool answers.
#[derive(Clone, Copy, Debug, PartialEq, Eq, Structural)]
pub enum QueryMsg {
    Pool {  },
}

/// An amount of one asset, as sent along with an operation.
#[derive(Clone, Debug, PartialEq, Eq)]
pub struct Coin {
    pub denom: String,
    pub amount: u128,
}

/// Why an operation on a pool failed.
#[derive(Clone, Copy, Debug, PartialEq, Eq, Structural)]
pub enum PoolError {
    /// A reserve or the input amount is zero.
    InvalidInput,
    /// The computed output is not positive.
    InsufficientLiquidity,
    /// The output is below the caller's minimum.
    SlippageExceeded,
    /// Less was sent than is to be deposited.
    InsufficientFunds,
    /// A reserve or the volume would exceed 128 bits.
    Overflow,
    /// A reserve would fall below zero.
    Underflow,
}

impl PoolError {
    /// The error in words.
    pub fn message(&self) -> (s: &'static str)
        ensures
            s@ == match *self {
                PoolError::InvalidInput => "invalid input"@,
                PoolError::InsufficientLiquidity => "insufficient liquidity"@,
                PoolError::SlippageExceeded => "slippage"@,
                PoolError::InsufficientFunds => "insufficient funds sent"@,
                PoolError::Overflow => "overflow"@,
                PoolError::Underflow => "underflow"@,
            },
    {
        match self {
            PoolError::InvalidInput => "invalid input",
            PoolError::InsufficientLiquidity => "insufficient liquidity",
            PoolError::SlippageExceeded => "slippage",
            PoolError::InsufficientFunds => "insufficient funds sent",
            PoolError::Overflow => "overflow",
            PoolError::Underflow => "underflow",
        }
    }
}

/// An asset transfer that a successful swap asks for.
#[derive(Clone, Debug, PartialEq, Eq)]
pub struct Transfer {
    pub to_address: String,
    pub denom: String,
    pub amount: u128,
}

/// What an operation did.
#[derive(Clone, Copy, Debug, PartialEq, Eq, Structural)]
pub enum Action {
    Provide { x: u128, y: u128 },
    SwapXForY { amount_out: u128 },
    SwapYForX { amount_out: u128 },
}

/// The result of a successful operation: what was done, and the transfer to
/// carry out, if any.
#[derive(Clone, Debug, PartialEq, Eq)]
pub struct Response {
    pub action: Action,
    pub transfer: Option<Transfer>,
}

/// The larger of the two reserves.
pub open spec fn larger_reserve(x_reserve: u128, y_reserve: u128) -> u128 {
    if x_reserve >= y_reserve {
        x_reserve
    } else {
        y_reserve
    }
}

/// The size of a trade in hundredths of the larger reserve, rounded down.
pub open spec fn trade_ratio(amount: u128, reserve: u128) -> nat {
    (amount as nat * 100) / (reserve as nat)
}

/// The fee for a trade of `amount`: the base fee, and for a trade of two
/// hundredths of the larger reserve or more a surcharge of one basis point per
/// hundredth, at most ten. The sum stops at the largest 16-bit value.
pub open spec fn dynamic_fee(base_fee: u16, x_reserve: u128, y_reserve: u128, amount: u128) -> u16 {
    let reserve = larger_reserve(x_reserve, y_reserve);
    if reserve == 0 || amount == 0 {
        base_fee
    } else {
        let ratio = trade_ratio(amount, reserve);
        if ratio > 1 {
            let increase = if ratio < 10 {
                ratio
            } else {
                10
            };
            if base_fee + increase > u16::MAX {
                u16::MAX
            } else {
                (base_fee + increase) as u16
            }
        } else {
            base_fee
        }
    }
}

/// What a swap of `amount_in` does, given the reserve of the asset that comes
/// in, the reserve of the asset that goes out, the volume so far and the base
/// fee: the amount that goes out, or the reason for which nothing happens.
pub open spec fn swap_outcome(
    reserve_in: u128,
    reserve_out: u128,
    volume: u128,
    base_fee: u16,
    amount_in: u128,
    min_out: u128,
) -> Result<u128, PoolError> {
    let fee = dynamic_fee(base_fee, reserve_in, reserve_out, amount_in);
    let out = cpmm_whole_output(reserve_in as nat, reserve_out as nat, amount_in as nat, fee as i64);
    if reserve_in == 0 || reserve_out == 0 || amount_in == 0 {
        Err(PoolError::InvalidInput)
    } else if fee >= 10000 {
        Err(PoolError::InsufficientLiquidity)
    } else if out < min_out {
        Err(PoolError::SlippageExceeded)
    } else if reserve_in + amount_in > u128::MAX || volume + amount_in > u128::MAX {
        Err(PoolError::Overflow)
    } else {
        Ok(out as u128)
    }
}

/// The amount of the first coin of `denom` among `funds`, or zero.
pub open spec fn funds_of(funds: Seq<Coin>, denom: Seq<char>) -> u128
    decreases funds.len(),
{
    if funds.len() == 0 {
        0
    } else if funds[0].denom@ == denom {
        funds[0].amount
    } else {
        funds_of(funds.skip(1), denom)
    }
}

/// What a deposit of `(x, y)` does, given what was sent of each asset.
pub open spec fn provide_outcome(pool: Pool, sent_x: u128, sent_y: u128, x: u128, y: u128) -> Result<
    (u128, u128),
    PoolError,
> {
    if sent_x < x || sent_y < y {
        Err(PoolError::InsufficientFunds)
    } else if pool.x_reserve + x > u128::MAX || pool.y_reserve + y > u128::MAX {
        Err(PoolError::Overflow)
    } else {
        Ok(((pool.x_reserve + x) as u128, (pool.y_reserve + y) as u128))
    }
}

/// A swap never lowers the product of the reserves: the whole input, fee
/// included, stays in the pool, and the output is rounded down.
pub proof fn lemma_swap_keeps_product(x: nat, y: nat, dx: nat, fee_bps: i64)
    requires
        x > 0,
        y > 0,
        dx > 0,
        0 <= fee_bps < 10000,
    ensures
        0 <= cpmm_whole_output(x, y, dx, fee_bps) < y,
        (x + dx) * (y - cpmm_whole_output(x, y, dx, fee_bps)) >= x * y,
{
    let t = fee_complement(fee_bps);
    let a = dx * t;
    let n = cpmm_numerator(y, dx, fee_bps);
    let d = cpmm_denominator(x, dx, fee_bps);
    let q = n / d;
    assert(a >= 1) by (nonlinear_arith)
        requires
            a == dx * t,
            dx >= 1,
            t >= 1,
    ;
    assert(d == 10000 * x + a);
    assert(n == y * a);
    assert(n >= 0) by (nonlinear_arith)
        requires
            n == y * a,
            y >= 0,
            a >= 0,
    ;
    vstd::arithmetic::div_mod::lemma_fundamental_div_mod(n, d);
    vstd::arithmetic::div_mod::lemma_mod_bound(n, d);
    vstd::arithmetic::div_mod::lemma_div_pos_is_pos(n, d);
    assert(q * d <= n) by {
        assert(d * q == q * d) by (nonlinear_arith);
    }
    // q < y, since n < y * d
    assert(n < y * d) by (nonlinear_arith)
        requires
            n == y * a,
            d == 10000 * x + a,
            x >= 1,
            y >= 1,
    ;
    if q >= y {
        assert(q * d >= y * d) by (nonlinear_arith)
            requires
                q >= y,
                d > 0,
        ;
    }
    // (x + dx) * n <= (dx * y) * d, since x * t <= 10000 * x
    let s = x + dx;
    assert(s * n <= (dx * y) * d) by (nonlinear_arith)
        requires
            s == x + dx,
            n == y * a,
            a == dx * t,
            d == 10000 * x + a,
            0 < t <= 10000,
            x >= 0,
            y >= 0,
            dx >= 0,
    ;
    assert(s * (q * d) <= s * n) by (nonlinear_arith)
        requires
            q * d <= n,
            s >= 0,
    ;
    assert((s * q) * d == s * (q * d)) by (nonlinear_arith);
    if s * q > dx * y {
        assert((s * q) * d > (dx * y) * d) by (nonlinear_arith)
            requires
                s * q > dx * y,
                d > 0,
        ;
    }
    assert(s * (y - q) == x * y + dx * y - s * q) by (nonlinear_arith)
        requires
            s == x + dx,
    ;
}

/// A trader who swaps `dx` for the other asset and at once swaps all of the
/// proceeds back gets no more than `dx`, whatever the two fees.
pub proof fn lemma_round_trip_no_gain(x: nat, y: nat, dx: nat, fee_out: i64, fee_back: i64)
    requires
        x > 0,
        y > 0,
        dx > 0,
        0 <= fee_out < 10000,
        0 <= fee_back < 10000,
        cpmm_whole_output(x, y, dx, fee_out) > 0,
    ensures
        ({
            let dy = cpmm_whole_output(x, y, dx, fee_out) as nat;
            cpmm_whole_output((y - dy) as nat, x + dx, dy, fee_back) <= dx
        }),
{
    lemma_swap_keeps_product(x, y, dx, fee_out);
    let dy = cpmm_whole_output(x, y, dx, fee_out) as nat;
    let y1 = (y - dy) as nat;
    let x1 = x + dx;
    lemma_swap_keeps_product(y1, x1, dy, fee_back);
    let back = cpmm_whole_output(y1, x1, dy, fee_back);
    // (y1 + dy) * (x1 - back) >= y1 * x1 >= x * y, and y1 + dy == y
    assert(x1 * y1 == y1 * x1) by (nonlinear_arith);
    assert(y * (x1 - back) >= y * x) by {
        assert(x * y == y * x) by (nonlinear_arith);
    }
    if back > dx {
        assert(y * (x1 - back) < y * x) by (nonlinear_arith)
            requires
                x1 - back < x,
                y > 0,
        ;
    }
}

/// A new pool for the two assets, with empty reserves.
pub fn instantiate(msg: InstantiateMsg) -> (pool: Pool)
    ensures
        pool.token_x == msg.token_x,
        pool.token_y == msg.token_y,
        pool.fee_bps == msg.fee_bps,
        pool.x_reserve == 0,
        pool.y_reserve == 0,
        pool.total_volume == 0,
{
    Pool {
        token_x: msg.token_x,
        token_y: msg.token_y,
        fee_bps: msg.fee_bps,
        x_reserve: 0,
        y_reserve: 0,
        total_volume: 0,
    }
}

/// The fee in basis points for a trade of `trade_amount` against `pool`.
pub fn calculate_dynamic_fee(pool: &Pool, trade_amount: u128) -> (fee: u16)
    ensures
        fee == dynamic_fee(pool.fee_bps, pool.x_reserve, pool.y_reserve, trade_amount),
        pool.fee_bps <= fee <= pool.fee_bps + 10,
{
    let base_fee: u16 = pool.fee_bps;
    let reserve: u128 = if pool.x_reserve >= pool.y_reserve {
        pool.x_reserve
    } else {
        pool.y_reserve
    };
    if reserve == 0 || trade_amount == 0 {
        return base_fee;
    }
    let increase: u16 = if trade_amount >= reserve {
        proof {
            // the ratio is 100 or more
            let n = trade_amount as int * 100;
            let d = reserve as int;
            assert(n >= 100 * d) by (nonlinear_arith)
                requires
                    n == trade_amount as int * 100,
                    trade_amount as int >= d,
            ;
            vstd::arithmetic::div_mod::lemma_div_is_ordered(100 * d, n, d);
            vstd::arithmetic::div_mod::lemma_div_multiples_vanish(100, d);
            assert(100 * d == d * 100) by (nonlinear_arith);
        }
        10
    } else {
        let (ratio, _rest) = mul_div(100, &Wide::from_u128(trade_amount), &Wide::from_u128(reserve));
        proof {
            assert(100 * (trade_amount as nat) == trade_amount as nat * 100) by (nonlinear_arith);
        }
        if ratio <= 1 {
            0
        } else if ratio < 10 {
            ratio as u16
        } else {
            10
        }
    };
    base_fee.saturating_add(increase)
}

/// The amount of the first coin of `denom` among `funds`, or zero.
pub fn find_funds(funds: &Vec<Coin>, denom: &String) -> (amount: u128)
    ensures
        amount == funds_of(funds@, denom@),
{
    let mut i: usize = 0;
    proof {
        assert(funds@.skip(0) =~= funds@);
    }
    while i < funds.len()
        invariant
            i <= funds.len(),
            funds_of(funds@, denom@) == funds_of(funds@.skip(i as int), denom@),
        decreases funds.len() - i,
    {
        proof {
            let rest = funds@.skip(i as int);
            assert(rest[0] == funds@[i as int]);
            assert(rest.skip(1) =~= funds@.skip(i as int + 1));
        }
        if funds[i].denom == *denom {
            return funds[i].amount;
        }
        i = i + 1;
    }
    0
}

/// Adds `(x, y)` to the reserves, where at least as much was sent.
///
/// `InsufficientFunds` where less of either asset was sent than is to be
/// deposited; `Overflow` where a reserve would exceed 128 bits.
pub fn execute_provide_liquidity(pool: &mut Pool, funds: &Vec<Coin>, x: u128, y: u128) -> (r:
    Result<Response, PoolError>)
    ensures
        final(pool).token_x == old(pool).token_x,
        final(pool).token_y == old(pool).token_y,
        final(pool).fee_bps == old(pool).fee_bps,
        final(pool).total_volume == old(pool).total_volume,
        match provide_outcome(
            *old(pool),
            funds_of(funds@, old(pool).token_x@),
            funds_of(funds@, old(pool).token_y@),
            x,
            y,
        ) {
            Ok((new_x, new_y)) => {
                &&& r is Ok
                &&& r->Ok_0.action == (Action::Provide { x, y })
                &&& r->Ok_0.transfer is None
                &&& final(pool).x_reserve == new_x
                &&& final(pool).y_reserve == new_y
            },
            Err(e) => {
                &&& r is Err
                &&& r->Err_0 == e
                &&& *final(pool) == *old(pool)
            },
        },
{
    let sent_x: u128 = find_funds(funds, &pool.token_x);
    let sent_y: u128 = find_funds(funds, &pool.token_y);
    if sent_x < x || sent_y < y {
        return Err(PoolError::InsufficientFunds);
    }
    let new_x: u128 = match pool.x_reserve.checked_add(x) {
        Some(v) => v,
        None => {
            return Err(PoolError::Overflow);
        },
    };
    let new_y: u128 = match pool.y_reserve.checked_add(y) {
        Some(v) => v,
        None => {
            return Err(PoolError::Overflow);
        },
    };
    pool.x_reserve = new_x;
    pool.y_reserve = new_y;
    Ok(Response { action: Action::Provide { x, y }, transfer: None })
}

/// The error of the pool for an error of the pricing function.
pub fn pool_error_of(e: MathError) -> (r: PoolError)
    ensures
        r == match e {
            MathError::InsufficientLiquidity => PoolError::InsufficientLiquidity,
            MathError::InvalidInput => PoolError::InvalidInput,
            MathError::Overflow => PoolError::Overflow,
        },
{
    match e {
        MathError::InsufficientLiquidity => PoolError::InsufficientLiquidity,
        MathError::InvalidInput => PoolError::InvalidInput,
        MathError::Overflow => PoolError::Overflow,
    }
}

/// Prices a swap of `amount_in` against the given reserves without changing
/// anything: the output, rounded down, and the two sums that the pool would
/// hold afterwards.
fn quote_swap(
    reserve_in: u128,
    reserve_out: u128,
    volume: u128,
    fee: u16,
    amount_in: u128,
    min_out: u128,
) -> (r: Result<(u128, u128, u128, u128), PoolError>)
    ensures
        ({
            let out = cpmm_whole_output(
                reserve_in as nat,
                reserve_out as nat,
                amount_in as nat,
                fee as i64,
            );
            if reserve_in == 0 || reserve_out == 0 || amount_in == 0 {
                r == Err::<(u128, u128, u128, u128), PoolError>(PoolError::InvalidInput)
            } else if fee >= 10000 {
                r == Err::<(u128, u128, u128, u128), PoolError>(PoolError::InsufficientLiquidity)
            } else if out < min_out {
                r == Err::<(u128, u128, u128, u128), PoolError>(PoolError::SlippageExceeded)
            } else if reserve_in + amount_in > u128::MAX || volume + amount_in > u128::MAX {
                r == Err::<(u128, u128, u128, u128), PoolError>(PoolError::Overflow)
            } else {
                &&& r is Ok
                &&& r->Ok_0.0 == out
                &&& r->Ok_0.1 == reserve_in + amount_in
                &&& r->Ok_0.2 == reserve_out - out
                &&& r->Ok_0.3 == volume + amount_in
                &&& 0 <= out < reserve_out
                &&& r->Ok_0.1 * r->Ok_0.2 >= reserve_in * reserve_out
            }
        }),
{
    let amount_out: u128 = match cpmm_out_given_in(reserve_in, reserve_out, amount_in, fee as i64) {
        Ok(exact) => exact.truncated(),
        Err(e) => {
            return Err(pool_error_of(e));
        },
    };
    if amount_out < min_out {
        return Err(PoolError::SlippageExceeded);
    }
    let new_in: u128 = match reserve_in.checked_add(amount_in) {
        Some(v) => v,
        None => {
            return Err(PoolError::Overflow);
        },
    };
    // the output is below the reserve, so this never fails; it is checked all the same
    let new_out: u128 = match reserve_out.checked_sub(amount_out) {
        Some(v) => v,
        None => {
            return Err(PoolError::Underflow);
        },
    };
    let new_volume: u128 = match volume.checked_add(amount_in) {
        Some(v) => v,
        None => {
            return Err(PoolError::Overflow);
        },
    };
    proof {
        lemma_swap_keeps_product(reserve_in as nat, reserve_out as nat, amount_in as nat, fee as i64);
    }
    Ok((amount_out, new_in, new_out, new_volume))
}

/// Swaps `dx` of the first asset for the second.
///
/// The fee is the dynamic fee for `dx`; the output is the constant-product
/// output for that fee, rounded down. On success the first reserve and the
/// volume grow by `dx`, the second reserve shrinks by the output, and the
/// output is to be sent to `sender`. The product of the reserves does not fall.
pub fn execute_swap_x_for_y(pool: &mut Pool, sender: String, dx: u128, min_dy: u128) -> (r: Result<
    Response,
    PoolError,
>)
    ensures
        final(pool).token_x == old(pool).token_x,
        final(pool).token_y == old(pool).token_y,
        final(pool).fee_bps == old(pool).fee_bps,
        match swap_outcome(
            old(pool).x_reserve,
            old(pool).y_reserve,
            old(pool).total_volume,
            old(pool).fee_bps,
            dx,
            min_dy,
        ) {
            Ok(dy) => {
                &&& r is Ok
                &&& r->Ok_0.action == (Action::SwapXForY { amount_out: dy })
                &&& r->Ok_0.transfer == Some(
                    Transfer { to_address: sender, denom: old(pool).token_y, amount: dy },
                )
                &&& final(pool).x_reserve == old(pool).x_reserve + dx
                &&& final(pool).y_reserve == old(pool).y_reserve - dy
                &&& final(pool).total_volume == old(pool).total_volume + dx
                &&& final(pool).x_reserve * final(pool).y_reserve >= old(pool).x_reserve * old(
                    pool,
                ).y_reserve
            },
            Err(e) => {
                &&& r is Err
                &&& r->Err_0 == e
                &&& *final(pool) == *old(pool)
            },
        },
{
    let fee: u16 = calculate_dynamic_fee(pool, dx);
    let (dy, new_x, new_y, new_volume) = match quote_swap(
        pool.x_reserve,
        pool.y_reserve,
        pool.total_volume,
        fee,
        dx,
        min_dy,
    ) {
        Ok(q) => q,
        Err(e) => {
            return Err(e);
        },
    };
    pool.x_reserve = new_x;
    pool.y_reserve = new_y;
    pool.total_volume = new_volume;
    let transfer = Transfer { to_address: sender, denom: pool.token_y.clone(), amount: dy };
    Ok(Response { action: Action::SwapXForY { amount_out: dy }, transfer: Some(transfer) })
}

/// Swaps `dy` of the second asset for the first: `execute_swap_x_for_y` with
/// the two reserves in each other's place.
pub fn execute_swap_y_for_x(pool: &mut Pool, sender: String, dy: u128, min_dx: u128) -> (r: Result<
    Response,
    PoolError,
>)
    ensures
        final(pool).token_x == old(pool).token_x,
        final(pool).token_y == old(pool).token_y,
        final(pool).fee_bps == old(pool).fee_bps,
        match swap_outcome(
            old(pool).y_reserve,
            old(pool).x_reserve,
            old(pool).total_volume,
            old(pool).fee_bps,
            dy,
            min_dx,
        ) {
            Ok(dx) => {
                &&& r is Ok
                &&& r->Ok_0.action == (Action::SwapYForX { amount_out: dx })
                &&& r->Ok_0.transfer == Some(
                    Transfer { to_address: sender, denom: old(pool).token_x, amount: dx },
                )
                &&& final(pool).y_reserve == old(pool).y_reserve + dy
                &&& final(pool).x_reserve == old(pool).x_reserve - dx
                &&& final(pool).total_volume == old(pool).total_volume + dy
                &&& final(pool).x_reserve * final(pool).y_reserve >= old(pool).x_reserve * old(
                    pool,
                ).y_reserve
            },
            Err(e) => {
                &&& r is Err
                &&& r->Err_0 == e
                &&& *final(pool) == *old(pool)
            },
        },
{
    let fee: u16 = calculate_dynamic_fee(pool, dy);
    let (dx, new_y, new_x, new_volume) = match quote_swap(
        pool.y_reserve,
        pool.x_reserve,
        pool.total_volume,
        fee,
        dy,
        min_dx,
    ) {
        Ok(q) => q,
        Err(e) => {
            return Err(e);
        },
    };
    proof {
        assert(new_y * new_x == new_x * new_y) by (nonlinear_arith);
        assert(pool.y_reserve * pool.x_reserve == pool.x_reserve * pool.y_reserve)
            by (nonlinear_arith);
    }
    pool.x_reserve = new_x;
    pool.y_reserve = new_y;
    pool.total_volume = new_volume;
    let transfer = Transfer { to_address: sender, denom: pool.token_x.clone(), amount: dx };
    Ok(Response { action: Action::SwapYForX { amount_out: dx }, transfer: Some(transfer) })
}

/// Carries out one operation on the pool for `sender`, who sent `funds`. A
/// swap does not lower the product of the reserves.
pub fn execute(pool: &mut Pool, sender: String, funds: &Vec<Coin>, msg: ExecuteMsg) -> (r: Result<
    Response,
    PoolError,
>)
    ensures
        final(pool).token_x == old(pool).token_x,
        final(pool).token_y == old(pool).token_y,
        final(pool).fee_bps == old(pool).fee_bps,
        r is Err ==> *final(pool) == *old(pool),
        match msg {
            ExecuteMsg::ProvideLiquidity { x, y } => match provide_outcome(
                *old(pool),
                funds_of(funds@, old(pool).token_x@),
                funds_of(funds@, old(pool).token_y@),
                x,
                y,
            ) {
                Ok((new_x, new_y)) => {
                    &&& r is Ok
                    &&& r->Ok_0.action == (Action::Provide { x, y })
                    &&& r->Ok_0.transfer is None
                    &&& final(pool).x_reserve == new_x
                    &&& final(pool).y_reserve == new_y
                    &&& final(pool).total_volume == old(pool).total_volume
                },
                Err(e) => r is Err && r->Err_0 == e,
            },
            ExecuteMsg::SwapXForY { dx, min_dy } => match swap_outcome(
                old(pool).x_reserve,
                old(pool).y_reserve,
                old(pool).total_volume,
                old(pool).fee_bps,
                dx,
                min_dy,
            ) {
                Ok(dy) => {
                    &&& r is Ok
                    &&& r->Ok_0.action == (Action::SwapXForY { amount_out: dy })
                    &&& r->Ok_0.transfer == Some(
                        Transfer { to_address: sender, denom: old(pool).token_y, amount: dy },
                    )
                    &&& final(pool).x_reserve == old(pool).x_reserve + dx
                    &&& final(pool).y_reserve == old(pool).y_reserve - dy
                    &&& final(pool).total_volume == old(pool).total_volume + dx
                    &&& final(pool).x_reserve * final(pool).y_reserve >= old(pool).x_reserve * old(
                        pool,
                    ).y_reserve
                },
                Err(e) => r is Err && r->Err_0 == e,
            },
            ExecuteMsg::SwapYForX { dy, min_dx } => match swap_outcome(
                old(pool).y_reserve,
                old(pool).x_reserve,
                old(pool).total_volume,
                old(pool).fee_bps,
                dy,
                min_dx,
            ) {
                Ok(dx) => {
                    &&& r is Ok
                    &&& r->Ok_0.action == (Action::SwapYForX { amount_out: dx })
                    &&& r->Ok_0.transfer == Some(
                        Transfer { to_address: sender, denom: old(pool).token_x, amount: dx },
                    )
                    &&& final(pool).y_reserve == old(pool).y_reserve + dy
                    &&& final(pool).x_reserve == old(pool).x_reserve - dx
                    &&& final(pool).total_volume == old(pool).total_volume + dy
                    &&& final(pool).x_reserve * final(pool).y_reserve >= old(pool).x_reserve * old(
                        pool,
                    ).y_reserve
                },
                Err(e) => r is Err && r->Err_0 == e,
            },
        },
{
    match msg {
        ExecuteMsg::ProvideLiquidity { x, y } => execute_provide_liquidity(pool, funds, x, y),
        ExecuteMsg::SwapXForY { dx, min_dy } => execute_swap_x_for_y(pool, sender, dx, min_dy),
        ExecuteMsg::SwapYForX { dy, min_dx } => execute_swap_y_for_x(pool, sender, dy, min_dx),
    }
}

/// The state of the pool.
pub fn query(pool: &Pool, msg: QueryMsg) -> (r: Pool)
    ensures
        r == *pool,
{
    match msg {
        QueryMsg::Pool {  } => Pool {
            token_x: pool.token_x.clone(),
            token_y: pool.token_y.clone(),
            fee_bps: pool.fee_bps,
            x_reserve: pool.x_reserve,
            y_reserve: pool.y_reserve,
            total_volume: pool.total_volume,
        },
    }
}

} // verus!

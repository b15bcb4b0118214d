//! Price oracles over a sliding window of observations: time-weighted and
//! volume-weighted average price, median, and simple moving average.
//!
//! Every oracle keeps its observations in the order in which they came.
//! Adding one appends it and then drops observations from the front: those
//! that are older than the time window, counted from the new observation, and
//! then as many as stand above the capacity. An empty window has no price:
//! every aggregate is then `None`.
//!
//! All averages are exact: sums and products are formed without overflow, and
//! each result is the true quotient rounded down.

use crate::wide::{
    lemma_quotient_unique, lemma_wide_bound, mul_div, pow2_256, product_less_than, wide_product,
    wide_times, Wide,
};
use std::collections::VecDeque;
use vstd::prelude::*;
use vstd::relations::{sorted_by, total_ordering};
use vstd::seq_lib::{lemma_sorted_unique, to_multiset_build, to_multiset_insert};

verus! {

/// One observation of a price.
#[derive(Clone, Copy, Debug, PartialEq, Eq, Structural)]
pub struct PriceObservation {
    pub price: u64,
    pub volume: u64,
    pub timestamp: u64,
}

/// The observation is older than the window allows, seen from `now`.
pub open spec fn expired(o: PriceObservation, now: u64, window: u64) -> bool {
    now - o.timestamp > window
}

/// How many observations at the front are expired.
pub open spec fn leading_expired(s: Seq<PriceObservation>, now: u64, window: u64) -> nat
    decreases s.len(),
{
    if s.len() > 0 && expired(s[0], now, window) {
        1 + leading_expired(s.skip(1), now, window)
    } else {
        0
    }
}

/// The last `max` of the sequence, or all of it where it has no more.
pub open spec fn keep_last<T>(s: Seq<T>, max: nat) -> Seq<T> {
    if s.len() > max {
        s.skip(s.len() - max)
    } else {
        s
    }
}

/// The window after an observation at `now` was appended: without the expired
/// observations at its front, and without what then stands above the capacity.
pub open spec fn window_after(s: Seq<PriceObservation>, now: u64, window: u64, max: nat) -> Seq<
    PriceObservation,
> {
    keep_last(s.skip(leading_expired(s, now, window) as int), max)
}

/// The count of leading expired observations is within the sequence, all of
/// them are expired, and the one after them is not.
pub proof fn lemma_leading_expired(s: Seq<PriceObservation>, now: u64, window: u64)
    ensures
        leading_expired(s, now, window) <= s.len(),
        forall|j: int| 0 <= j < leading_expired(s, now, window) ==> expired(#[trigger] s[j], now, window),
        leading_expired(s, now, window) < s.len() ==> !expired(
            s[leading_expired(s, now, window) as int],
            now,
            window,
        ),
    decreases s.len(),
{
    if s.len() > 0 && expired(s[0], now, window) {
        let rest = s.skip(1);
        lemma_leading_expired(rest, now, window);
        let k = leading_expired(rest, now, window);
        assert forall|j: int| 0 <= j < k + 1 implies expired(#[trigger] s[j], now, window) by {
            if j > 0 {
                assert(s[j] == rest[j - 1]);
            }
        }
        if k < rest.len() {
            assert(rest[k as int] == s[k as int + 1]);
        }
    }
}

/// The sum of `values[i] * weights[i]`.
pub open spec fn weighted_sum(values: Seq<u64>, weights: Seq<u64>) -> nat
    decreases values.len(),
{
    if values.len() == 0 || weights.len() != values.len() {
        0
    } else {
        weighted_sum(values.drop_last(), weights.drop_last()) + values.last() as nat
            * weights.last() as nat
    }
}

/// The sum of the values.
pub open spec fn total(values: Seq<u64>) -> nat
    decreases values.len(),
{
    if values.len() == 0 {
        0
    } else {
        total(values.drop_last()) + values.last() as nat
    }
}

/// The weighted mean of the values, rounded down; none where the weights sum
/// to zero.
pub open spec fn weighted_mean(values: Seq<u64>, weights: Seq<u64>) -> Option<u64> {
    if total(weights) == 0 {
        None
    } else {
        Some((weighted_sum(values, weights) / total(weights)) as u64)
    }
}

/// A sum of `n` values is at most `n` times the largest 64-bit value, and at
/// least each of its parts.
proof fn lemma_total_bounds(values: Seq<u64>, k: int)
    requires
        0 <= k <= values.len(),
    ensures
        total(values.take(k)) <= total(values),
        total(values) <= values.len() * 0xffff_ffff_ffff_ffff,
        k < values.len() ==> total(values.take(k + 1)) == total(values.take(k)) + values[k],
    decreases values.len(),
{
    if values.len() == 0 {
        assert(values.take(k) =~= values);
    } else {
        let rest = values.drop_last();
        assert(values.len() * 0xffff_ffff_ffff_ffff == rest.len() * 0xffff_ffff_ffff_ffff
            + 0xffff_ffff_ffff_ffff) by (nonlinear_arith)
            requires
                values.len() == rest.len() + 1,
        ;
        if k == values.len() {
            assert(values.take(k) =~= values);
            lemma_total_bounds(rest, k - 1);
        } else {
            lemma_total_bounds(rest, k);
            assert(rest.take(k) =~= values.take(k));
            let longer = values.take(k + 1);
            assert(longer.drop_last() =~= values.take(k));
            assert(longer.last() == values[k]);
            if k + 1 < values.len() {
                lemma_total_bounds(rest, k + 1);
                assert(rest.take(k + 1) =~= values.take(k + 1));
            } else {
                assert(values.take(k + 1) =~= values);
            }
        }
    }
}

/// A weighted sum is at most the largest 64-bit value times the weights.
proof fn lemma_weighted_sum_bound(values: Seq<u64>, weights: Seq<u64>)
    requires
        values.len() == weights.len(),
    ensures
        weighted_sum(values, weights) <= 0xffff_ffff_ffff_ffff * total(weights),
    decreases values.len(),
{
    if values.len() > 0 {
        lemma_weighted_sum_bound(values.drop_last(), weights.drop_last());
        let v = values.last() as int;
        let w = weights.last() as int;
        let t = total(weights.drop_last()) as int;
        assert(v * w <= 0xffff_ffff_ffff_ffff * w) by (nonlinear_arith)
            requires
                0 <= v <= 0xffff_ffff_ffff_ffff,
                w >= 0,
        ;
        assert(0xffff_ffff_ffff_ffff * (t + w) == 0xffff_ffff_ffff_ffff * t + 0xffff_ffff_ffff_ffff
            * w) by (nonlinear_arith);
    }
}

/// One more term of a weighted sum.
proof fn lemma_weighted_sum_step(values: Seq<u64>, weights: Seq<u64>, k: int)
    requires
        values.len() == weights.len(),
        0 <= k < values.len(),
    ensures
        weighted_sum(values.take(k + 1), weights.take(k + 1)) == weighted_sum(
            values.take(k),
            weights.take(k),
        ) + values[k] as nat * weights[k] as nat,
{
    assert(values.take(k + 1).drop_last() =~= values.take(k));
    assert(weights.take(k + 1).drop_last() =~= weights.take(k));
}

/// The mean of `values` weighted by `weights`, rounded down.
fn weighted_floor_mean(values: &Vec<u64>, weights: &Vec<u64>) -> (r: Option<u64>)
    requires
        values.len() == weights.len(),
    ensures
        r == weighted_mean(values@, weights@),
{
    let mut sum: u128 = 0;
    let mut i: usize = 0;
    proof {
        assert(weights@.take(0) =~= Seq::<u64>::empty());
    }
    while i < weights.len()
        invariant
            i <= weights.len(),
            sum == total(weights@.take(i as int)),
        decreases weights.len() - i,
    {
        proof {
            lemma_total_bounds(weights@, i as int);
            lemma_total_bounds(weights@.take(i as int + 1), i as int + 1);
            assert((i + 1) * 0xffff_ffff_ffff_ffff <= 0xffff_ffff_ffff_ffff * 0xffff_ffff_ffff_ffff)
                by (nonlinear_arith)
                requires
                    i + 1 <= 0xffff_ffff_ffff_ffff,
            ;
        }
        sum = sum + weights[i] as u128;
        i = i + 1;
    }
    proof {
        assert(weights@.take(weights.len() as int) =~= weights@);
    }
    if sum == 0 {
        return None;
    }
    let divisor = Wide::from_u128(sum);
    let mut whole: u128 = 0;
    let mut left: u128 = 0;
    let mut k: usize = 0;
    proof {
        assert(values@.take(0) =~= Seq::<u64>::empty());
        assert(0 * sum == 0) by (nonlinear_arith);
    }
    while k < values.len()
        invariant
            k <= values.len(),
            values.len() == weights.len(),
            sum == total(weights@),
            sum > 0,
            divisor@ == sum,
            left < sum,
            whole <= 0xffff_ffff_ffff_ffff,
            whole * sum + left == weighted_sum(values@.take(k as int), weights@.take(k as int)),
        decreases values.len() - k,
    {
        proof {
            lemma_total_bounds(weights@, k as int);
            lemma_total_bounds(weights@, k as int + 1);
            lemma_weighted_sum_step(values@, weights@, k as int);
            lemma_weighted_sum_bound(values@.take(k as int + 1), weights@.take(k as int + 1));
        }
        let (q, r) = mul_div(values[k] as u128, &Wide::from_u128(weights[k] as u128), &divisor);
        let part: u128 = r.low();
        let carry: bool = left >= sum - part;
        let ghost before = whole * sum + left;
        let ghost term = values@[k as int] as nat * weights@[k as int] as nat;
        proof {
            let d = sum as int;
            vstd::arithmetic::div_mod::lemma_fundamental_div_mod(term as int, d);
            assert(term == q * d + part) by {
                assert(d * (q as int) == q * d) by (nonlinear_arith);
            }
            let e: int = if carry {
                1
            } else {
                0
            };
            let nq = whole + q + e;
            let nl = left + part - e * d;
            assert(nq * d + nl == before + term) by (nonlinear_arith)
                requires
                    nq == whole + q + e,
                    nl == left + part - e * d,
                    before == whole * d + left,
                    term == q * d + part,
            ;
            // the quotient stays within 64 bits
            assert(before + term <= 0xffff_ffff_ffff_ffff * d) by {
                assert(0xffff_ffff_ffff_ffff * total(weights@.take(k as int + 1))
                    <= 0xffff_ffff_ffff_ffff * d) by (nonlinear_arith)
                    requires
                        total(weights@.take(k as int + 1)) <= d,
                ;
            }
            if nq > 0xffff_ffff_ffff_ffff {
                assert(nq * d >= 0x1_0000_0000_0000_0000 * d) by (nonlinear_arith)
                    requires
                        nq >= 0x1_0000_0000_0000_0000,
                        d > 0,
                ;
                assert(0x1_0000_0000_0000_0000 * d == 0xffff_ffff_ffff_ffff * d + d)
                    by (nonlinear_arith);
            }
        }
        if carry {
            left = left - (sum - part);
            whole = whole + q + 1;
        } else {
            left = left + part;
            whole = whole + q;
        }
        k = k + 1;
    }
    proof {
        assert(values@.take(values.len() as int) =~= values@);
        assert(weights@.take(weights.len() as int) =~= weights@);
        lemma_quotient_unique(
            weighted_sum(values@, weights@) as int,
            sum as int,
            whole as int,
            left as int,
        );
    }
    Some(whole as u64)
}

/// The mean of two prices, rounded down.
pub open spec fn average_price(a: PriceObservation, b: PriceObservation) -> u64 {
    ((a.price + b.price) / 2) as u64
}

/// The time from `a` to `b`; zero where `b` is not the later one.
pub open spec fn time_gap(a: PriceObservation, b: PriceObservation) -> u64 {
    if b.timestamp > a.timestamp {
        (b.timestamp - a.timestamp) as u64
    } else {
        0
    }
}

/// The mean price of each pair of neighbours.
pub open spec fn pair_averages(s: Seq<PriceObservation>) -> Seq<u64> {
    Seq::new((s.len() - 1) as nat, |i: int| average_price(s[i], s[i + 1]))
}

/// The time between each pair of neighbours.
pub open spec fn pair_gaps(s: Seq<PriceObservation>) -> Seq<u64> {
    Seq::new((s.len() - 1) as nat, |i: int| time_gap(s[i], s[i + 1]))
}

/// The time-weighted average price: for each pair of neighbours their mean
/// price weighted by the time between them. The last price where no time
/// passes between any two observations; none for an empty window.
pub open spec fn twap_of(s: Seq<PriceObservation>) -> Option<u64> {
    if s.len() == 0 {
        None
    } else {
        match weighted_mean(pair_averages(s), pair_gaps(s)) {
            Some(v) => Some(v),
            None => Some(s.last().price),
        }
    }
}

/// The prices of the observations.
pub open spec fn prices_of(s: Seq<PriceObservation>) -> Seq<u64> {
    Seq::new(s.len(), |i: int| s[i].price)
}

/// The volumes of the observations.
pub open spec fn volumes_of(s: Seq<PriceObservation>) -> Seq<u64> {
    Seq::new(s.len(), |i: int| s[i].volume)
}

/// The volume-weighted average price; none where no volume was observed.
pub open spec fn vwap_of(s: Seq<PriceObservation>) -> Option<u64> {
    weighted_mean(prices_of(s), volumes_of(s))
}

/// The order of prices.
pub open spec fn price_leq() -> spec_fn(u64, u64) -> bool {
    |a: u64, b: u64| a <= b
}

/// The median: the middle price of the sorted window, or the mean of the two
/// middle prices, rounded down; none for an empty window.
pub open spec fn median_of(s: Seq<u64>) -> Option<u64> {
    if s.len() == 0 {
        None
    } else {
        let t = s.sort_by(price_leq());
        let n = s.len() as int;
        if n % 2 == 0 {
            Some(((t[n / 2 - 1] + t[n / 2]) / 2) as u64)
        } else {
            Some(t[n / 2])
        }
    }
}

/// The prices at the places that `kept` marks.
pub open spec fn kept_values(s: Seq<u64>, kept: Seq<bool>) -> Seq<u64>
    decreases s.len(),
{
    if s.len() == 0 {
        Seq::empty()
    } else {
        let rest = kept_values(s.drop_last(), kept);
        if s.len() - 1 < kept.len() && kept[s.len() - 1] {
            rest.push(s.last())
        } else {
            rest
        }
    }
}

/// The median of the kept prices, or of all prices where none is kept.
pub open spec fn filtered_median_of(s: Seq<u64>, kept: Seq<bool>) -> Option<u64> {
    if kept_values(s, kept).len() == 0 {
        median_of(s)
    } else {
        median_of(kept_values(s, kept))
    }
}

/// The sum of the squares of the values.
pub open spec fn sum_of_squares(s: Seq<u64>) -> nat
    decreases s.len(),
{
    if s.len() == 0 {
        0
    } else {
        sum_of_squares(s.drop_last()) + s.last() as nat * s.last() as nat
    }
}

/// The variance of the values times the square of their number:
/// `n * sum(p^2) - sum(p)^2`.
pub open spec fn spread(s: Seq<u64>) -> int {
    s.len() * sum_of_squares(s) - total(s) * total(s)
}

/// The price lies within `num / den` standard deviations of the mean of the
/// values. With `gap` as `n * (price - mean)` and `spread` as `n^2` times the
/// variance this is `den^2 * gap^2 <= num^2 * spread`, in whole numbers.
pub open spec fn within_deviations(s: Seq<u64>, price: u64, num: u64, den: u64) -> bool {
    let gap = s.len() * price - total(s);
    (den * den) * (gap * gap) <= (num * num) * spread(s)
}

/// For each price of the window whether it lies within `num / den` standard
/// deviations of the mean.
pub open spec fn deviation_verdicts(s: Seq<u64>, num: u64, den: u64) -> Seq<bool> {
    Seq::new(s.len(), |i: int| within_deviations(s, s[i], num, den))
}

/// The sum of the squared distances of the values from `p`.
spec fn squared_distance(s: Seq<u64>, p: int) -> int
    decreases s.len(),
{
    if s.len() == 0 {
        0
    } else {
        squared_distance(s.drop_last(), p) + (s.last() - p) * (s.last() - p)
    }
}

/// The squared distances from `p` sum to `sum(v^2) - 2 p sum(v) + n p^2`,
/// which is therefore not negative.
proof fn lemma_squared_distance(s: Seq<u64>, p: int)
    ensures
        squared_distance(s, p) == sum_of_squares(s) - 2 * p * total(s) + s.len() * (p * p),
        squared_distance(s, p) >= 0,
    decreases s.len(),
{
    if s.len() > 0 {
        let rest = s.drop_last();
        lemma_squared_distance(rest, p);
        let v = s.last() as int;
        let t = total(rest) as int;
        let n = rest.len() as int;
        let twice = 2 * p;
        assert((v - p) * (v - p) == v * v - twice * v + p * p) by (nonlinear_arith)
            requires
                twice == 2 * p,
        ;
        assert((v - p) * (v - p) >= 0) by (nonlinear_arith);
        assert(twice * (t + v) == twice * t + twice * v) by (nonlinear_arith);
        assert((n + 1) * (p * p) == n * (p * p) + p * p) by (nonlinear_arith);
        assert(total(s) == t + v);
        assert(s.len() == n + 1);
    } else {
        assert((2 * p) * 0 == 0) by (nonlinear_arith);
        assert(0 * (p * p) == 0) by (nonlinear_arith);
    }
}

/// The spread is never negative.
pub proof fn lemma_spread_not_negative(s: Seq<u64>)
    ensures
        spread(s) >= 0,
    decreases s.len(),
{
    if s.len() > 0 {
        let rest = s.drop_last();
        lemma_spread_not_negative(rest);
        let p = s.last() as int;
        lemma_squared_distance(rest, p);
        let n = rest.len() as int;
        let q = sum_of_squares(rest) as int;
        let t = total(rest) as int;
        // (n + 1) (q + p^2) - (t + p)^2 == (n q - t^2) + (q - 2 p t + n p^2)
        assert((n + 1) * (q + p * p) - (t + p) * (t + p) == (n * q - t * t) + (q - 2 * p * t + n
            * (p * p))) by (nonlinear_arith);
    }
}

/// A sum of `n` squares is at most `n` times the largest square.
proof fn lemma_sum_of_squares_bound(s: Seq<u64>, k: int)
    requires
        0 <= k < s.len(),
    ensures
        sum_of_squares(s) <= s.len() * (0xffff_ffff_ffff_ffff * 0xffff_ffff_ffff_ffff),
        sum_of_squares(s.take(k + 1)) == sum_of_squares(s.take(k)) + s[k] as nat * s[k] as nat,
        sum_of_squares(s.take(k + 1)) <= (k + 1) * (0xffff_ffff_ffff_ffff * 0xffff_ffff_ffff_ffff),
{
    lemma_squares_bound(s);
    lemma_squares_bound(s.take(k + 1));
    assert(s.take(k + 1).drop_last() =~= s.take(k));
}

proof fn lemma_squares_bound(s: Seq<u64>)
    ensures
        sum_of_squares(s) <= s.len() * (0xffff_ffff_ffff_ffff * 0xffff_ffff_ffff_ffff),
    decreases s.len(),
{
    let m = 0xffff_ffff_ffff_ffffint;
    if s.len() > 0 {
        lemma_squares_bound(s.drop_last());
        let v = s.last() as int;
        let n = s.drop_last().len() as int;
        assert(v * v <= m * m) by (nonlinear_arith)
            requires
                0 <= v <= m,
        ;
        assert((n + 1) * (m * m) == n * (m * m) + m * m) by (nonlinear_arith);
    } else {
        assert(0 * (m * m) == 0) by (nonlinear_arith);
    }
}

/// The simple moving average: the mean of the prices, rounded down.
pub open spec fn sma_of(s: Seq<u64>) -> Option<u64> {
    if s.len() == 0 {
        None
    } else {
        Some((total(s) / s.len()) as u64)
    }
}

/// Drops observations from the front until no more than `max` are left.
fn trim_to<T>(queue: &mut VecDeque<T>, max: usize)
    ensures
        final(queue)@ == keep_last(old(queue)@, max as nat),
        final(queue)@.len() <= max,
{
    let ghost all = queue@;
    let ghost mut dropped: int = 0;
    proof {
        assert(all.skip(0) =~= all);
    }
    while queue.len() > max
        invariant
            0 <= dropped <= all.len(),
            queue@ == all.skip(dropped),
            all.len() - dropped >= max || dropped == 0,
        decreases queue.len(),
    {
        let _gone = queue.pop_front();
        proof {
            assert(all.skip(dropped).subrange(1, all.len() - dropped) =~= all.skip(dropped + 1));
            dropped = dropped + 1;
        }
    }
}

/// Drops the expired observations from the front.
fn drop_expired(queue: &mut VecDeque<PriceObservation>, now: u64, window: u64)
    ensures
        final(queue)@ == old(queue)@.skip(leading_expired(old(queue)@, now, window) as int),
{
    let ghost all = queue@;
    let ghost mut dropped: int = 0;
    proof {
        assert(all.skip(0) =~= all);
    }
    while queue.len() > 0 && now > queue[0].timestamp && now - queue[0].timestamp > window
        invariant
            0 <= dropped <= all.len(),
            queue@ == all.skip(dropped),
            leading_expired(all, now, window) == dropped + leading_expired(
                all.skip(dropped),
                now,
                window,
            ),
        decreases queue.len(),
    {
        let _gone = queue.pop_front();
        proof {
            assert(all.skip(dropped).skip(1) =~= all.skip(dropped + 1));
            assert(all.skip(dropped).subrange(1, all.len() - dropped) =~= all.skip(dropped + 1));
            dropped = dropped + 1;
        }
    }
}

/// A price oracle that weights each price by the time for which it held.
#[derive(Clone, Debug)]
pub struct TwapOracle {
    observations: VecDeque<PriceObservation>,
    max_observations: usize,
    time_window: u64,
}

impl TwapOracle {
    /// The window, oldest observation first.
    pub closed spec fn observations(&self) -> Seq<PriceObservation> {
        self.observations@
    }

    /// The capacity of the window.
    pub closed spec fn max_observations(&self) -> usize {
        self.max_observations
    }

    /// The age beyond which an observation is dropped.
    pub closed spec fn time_window(&self) -> u64 {
        self.time_window
    }

    /// An oracle with an empty window.
    pub fn new(max_observations: usize, time_window: u64) -> (oracle: TwapOracle)
        ensures
            oracle.observations().len() == 0,
            oracle.max_observations() == max_observations,
            oracle.time_window() == time_window,
    {
        TwapOracle { observations: VecDeque::new(), max_observations, time_window }
    }

    /// The number of observations in the window.
    pub fn len(&self) -> (n: usize)
        ensures
            n == self.observations().len(),
    {
        self.observations.len()
    }

    /// Appends an observation, then drops from the front what is older than
    /// the time window and what stands above the capacity.
    pub fn add_observation(&mut self, price: u64, volume: u64, timestamp: u64)
        ensures
            final(self).max_observations() == old(self).max_observations(),
            final(self).time_window() == old(self).time_window(),
            final(self).observations() == window_after(
                old(self).observations().push(PriceObservation { price, volume, timestamp }),
                timestamp,
                old(self).time_window(),
                old(self).max_observations() as nat,
            ),
            final(self).observations().len() <= old(self).max_observations(),
    {
        self.observations.push_back(PriceObservation { price, volume, timestamp });
        drop_expired(&mut self.observations, timestamp, self.time_window);
        trim_to(&mut self.observations, self.max_observations);
    }

    /// The time-weighted average price of the window.
    pub fn calculate_twap(&self) -> (r: Option<u64>)
        ensures
            r == twap_of(self.observations()),
    {
        let n: usize = self.observations.len();
        if n == 0 {
            return None;
        }
        let mut averages: Vec<u64> = Vec::new();
        let mut gaps: Vec<u64> = Vec::new();
        let mut i: usize = 0;
        while i + 1 < n
            invariant
                n == self.observations@.len(),
                n > 0,
                i + 1 <= n,
                averages@.len() == i,
                gaps@.len() == i,
                forall|j: int|
                    0 <= j < i ==> #[trigger] averages@[j] == average_price(
                        self.observations@[j],
                        self.observations@[j + 1],
                    ),
                forall|j: int|
                    0 <= j < i ==> #[trigger] gaps@[j] == time_gap(
                        self.observations@[j],
                        self.observations@[j + 1],
                    ),
            decreases n - i,
        {
            let a: PriceObservation = self.observations[i];
            let b: PriceObservation = self.observations[i + 1];
            let mean: u64 = ((a.price as u128 + b.price as u128) / 2) as u64;
            let gap: u64 = if b.timestamp > a.timestamp {
                b.timestamp - a.timestamp
            } else {
                0
            };
            averages.push(mean);
            gaps.push(gap);
            i = i + 1;
        }
        proof {
            assert(averages@ =~= pair_averages(self.observations@));
            assert(gaps@ =~= pair_gaps(self.observations@));
        }
        match weighted_floor_mean(&averages, &gaps) {
            Some(v) => Some(v),
            None => Some(self.observations[n - 1].price),
        }
    }
}

/// A price oracle that weights each price by the volume traded at it.
#[derive(Clone, Debug)]
pub struct VwapOracle {
    observations: VecDeque<PriceObservation>,
    max_observations: usize,
    time_window: u64,
}

impl VwapOracle {
    /// The window, oldest observation first.
    pub closed spec fn observations(&self) -> Seq<PriceObservation> {
        self.observations@
    }

    /// The capacity of the window.
    pub closed spec fn max_observations(&self) -> usize {
        self.max_observations
    }

    /// The age beyond which an observation is dropped.
    pub closed spec fn time_window(&self) -> u64 {
        self.time_window
    }

    /// An oracle with an empty window.
    pub fn new(max_observations: usize, time_window: u64) -> (oracle: VwapOracle)
        ensures
            oracle.observations().len() == 0,
            oracle.max_observations() == max_observations,
            oracle.time_window() == time_window,
    {
        VwapOracle { observations: VecDeque::new(), max_observations, time_window }
    }

    /// The number of observations in the window.
    pub fn len(&self) -> (n: usize)
        ensures
            n == self.observations().len(),
    {
        self.observations.len()
    }

    /// Appends an observation, then drops from the front what is older than
    /// the time window and what stands above the capacity.
    pub fn add_observation(&mut self, price: u64, volume: u64, timestamp: u64)
        ensures
            final(self).max_observations() == old(self).max_observations(),
            final(self).time_window() == old(self).time_window(),
            final(self).observations() == window_after(
                old(self).observations().push(PriceObservation { price, volume, timestamp }),
                timestamp,
                old(self).time_window(),
                old(self).max_observations() as nat,
            ),
            final(self).observations().len() <= old(self).max_observations(),
    {
        self.observations.push_back(PriceObservation { price, volume, timestamp });
        drop_expired(&mut self.observations, timestamp, self.time_window);
        trim_to(&mut self.observations, self.max_observations);
    }

    /// The volume-weighted average price of the window.
    pub fn calculate_vwap(&self) -> (r: Option<u64>)
        ensures
            r == vwap_of(self.observations()),
            self.observations().len() == 0 ==> r is None,
    {
        let n: usize = self.observations.len();
        let mut prices: Vec<u64> = Vec::new();
        let mut volumes: Vec<u64> = Vec::new();
        let mut i: usize = 0;
        while i < n
            invariant
                n == self.observations@.len(),
                i <= n,
                prices@.len() == i,
                volumes@.len() == i,
                forall|j: int| 0 <= j < i ==> #[trigger] prices@[j] == self.observations@[j].price,
                forall|j: int| 0 <= j < i ==> #[trigger] volumes@[j] == self.observations@[j].volume,
            decreases n - i,
        {
            let o: PriceObservation = self.observations[i];
            prices.push(o.price);
            volumes.push(o.volume);
            i = i + 1;
        }
        proof {
            assert(prices@ =~= prices_of(self.observations@));
            assert(volumes@ =~= volumes_of(self.observations@));
        }
        weighted_floor_mean(&prices, &volumes)
    }
}

/// The values in the order of prices.
fn sorted_copy(values: &Vec<u64>) -> (r: Vec<u64>)
    ensures
        r@ == values@.sort_by(price_leq()),
        r@.len() == values@.len(),
{
    let ghost leq = price_leq();
    let mut out: Vec<u64> = Vec::new();
    let mut i: usize = 0;
    proof {
        assert(values@.take(0) =~= Seq::<u64>::empty());
        assert(total_ordering(leq)) by {
            crate::oracle::lemma_price_order();
        }
    }
    while i < values.len()
        invariant
            i <= values.len(),
            leq == price_leq(),
            out@.len() == i,
            sorted_by(out@, leq),
            out@.to_multiset() == values@.take(i as int).to_multiset(),
        decreases values.len() - i,
    {
        let x: u64 = values[i];
        let mut at: usize = 0;
        while at < out.len() && out[at] <= x
            invariant
                at <= out.len(),
                forall|j: int| 0 <= j < at ==> #[trigger] out@[j] <= x,
            decreases out.len() - at,
        {
            at = at + 1;
        }
        let ghost before = out@;
        out.insert(at, x);
        proof {
            to_multiset_insert(before, at as int, x);
            assert(values@.take(i as int + 1) =~= values@.take(i as int).push(x));
            to_multiset_build(values@.take(i as int), x);
            assert forall|a: int, b: int| 0 <= a < b < out@.len() implies #[trigger] leq(
                out@[a],
                out@[b],
            ) by {
                let p = at as int;
                if a < p && b < p {
                    assert(leq(before[a], before[b]));
                } else if a < p && b == p {
                } else if a < p && b > p {
                    assert(leq(before[a], before[b - 1]));
                } else if a == p {
                    // what follows the new value is larger than it
                    assert(leq(before[p], before[b - 1]) || p == b - 1);
                } else {
                    assert(leq(before[a - 1], before[b - 1]));
                }
            }
        }
        i = i + 1;
    }
    proof {
        assert(values@.take(values.len() as int) =~= values@);
        values@.lemma_sort_by_ensures(leq);
        lemma_sorted_unique(out@, values@.sort_by(leq), leq);
    }
    out
}

/// The order of prices is a total order.
pub proof fn lemma_price_order()
    ensures
        total_ordering(price_leq()),
{
    let leq = price_leq();
    assert(vstd::relations::reflexive(leq));
    assert(vstd::relations::antisymmetric(leq));
    assert(vstd::relations::transitive(leq));
    assert(vstd::relations::strongly_connected(leq));
}

/// The median of the values.
pub fn median(values: &Vec<u64>) -> (r: Option<u64>)
    ensures
        r == median_of(values@),
{
    if values.len() == 0 {
        return None;
    }
    let sorted = sorted_copy(values);
    let n: usize = sorted.len();
    if n % 2 == 0 {
        let low: u64 = sorted[n / 2 - 1];
        let high: u64 = sorted[n / 2];
        Some(((low as u128 + high as u128) / 2) as u64)
    } else {
        Some(sorted[n / 2])
    }
}

/// A copy of the window as a vector.
fn window_copy(queue: &VecDeque<u64>) -> (r: Vec<u64>)
    ensures
        r@ == queue@,
{
    let mut r: Vec<u64> = Vec::new();
    let mut i: usize = 0;
    while i < queue.len()
        invariant
            i <= queue.len(),
            r@ == queue@.take(i as int),
        decreases queue.len() - i,
    {
        r.push(queue[i]);
        proof {
            assert(queue@.take(i as int + 1) =~= queue@.take(i as int).push(queue@[i as int]));
        }
        i = i + 1;
    }
    proof {
        assert(queue@.take(queue.len() as int) =~= queue@);
    }
    r
}

/// For each value whether it lies within `num / den` standard deviations of
/// the mean of all of them.
pub fn deviation_marks(values: &Vec<u64>, num: u64, den: u64) -> (marks: Vec<bool>)
    ensures
        marks@ == deviation_verdicts(values@, num, den),
{
    let n: usize = values.len();
    let mut sum: u128 = 0;
    let mut squares: Wide = Wide::zero();
    let mut i: usize = 0;
    proof {
        assert(values@.take(0) =~= Seq::<u64>::empty());
    }
    while i < n
        invariant
            n == values@.len(),
            i <= n,
            sum == total(values@.take(i as int)),
            squares@ == sum_of_squares(values@.take(i as int)),
        decreases n - i,
    {
        proof {
            lemma_total_bounds(values@, i as int);
            lemma_total_bounds(values@.take(i as int + 1), i as int + 1);
            lemma_sum_of_squares_bound(values@, i as int);
            let m = 0xffff_ffff_ffff_ffffint;
            assert((i + 1) * m <= m * m) by (nonlinear_arith)
                requires
                    i + 1 <= m,
                    m > 0,
            ;
            assert((i + 1) * (m * m) <= m * (m * m)) by (nonlinear_arith)
                requires
                    i + 1 <= m,
                    m > 0,
            ;
            assert(m * (m * m) < pow2_256()) by (nonlinear_arith)
                requires
                    m == 0xffff_ffff_ffff_ffffint,
            ;
        }
        let p: u64 = values[i];
        sum = sum + p as u128;
        let square = wide_product(p as u128, p as u128);
        squares = squares.plus(&square);
        i = i + 1;
    }
    proof {
        assert(values@.take(n as int) =~= values@);
        lemma_spread_not_negative(values@);
        lemma_squares_bound(values@);
        let m = 0xffff_ffff_ffff_ffffint;
        let q = sum_of_squares(values@) as int;
        assert(n * q <= m * (m * (m * m))) by (nonlinear_arith)
            requires
                0 <= n <= m,
                0 <= q <= n * (m * m),
        ;
        assert(m * (m * (m * m)) < pow2_256()) by (nonlinear_arith)
            requires
                m == 0xffff_ffff_ffff_ffffint,
        ;
    }
    // n * sum(p^2), which fits in 256 bits
    let scaled = wide_times(&Wide::from_u128(n as u128), &squares);
    proof {
        lemma_wide_bound(scaled.1);
        let h = scaled.0@ as int;
        let w = pow2_256() as int;
        if h > 0 {
            assert(h * w >= w) by (nonlinear_arith)
                requires
                    h >= 1,
                    w > 0,
            ;
        }
        assert(0 * w == 0) by (nonlinear_arith);
    }
    let sum_squared = wide_product(sum, sum);
    let spread_of_all = scaled.1.minus(&sum_squared);
    proof {
        let m = 0xffff_ffff_ffff_ffffint;
        assert(num * num <= m * m && den * den <= m * m) by (nonlinear_arith)
            requires
                0 <= num <= m,
                0 <= den <= m,
        ;
    }
    let num_squared: u128 = (num as u128) * (num as u128);
    let den_squared: u128 = (den as u128) * (den as u128);
    let allowed = wide_times(&Wide::from_u128(num_squared), &spread_of_all);
    let mut marks: Vec<bool> = Vec::new();
    let mut k: usize = 0;
    while k < n
        invariant
            n == values@.len(),
            k <= n,
            sum == total(values@),
            spread_of_all@ == spread(values@),
            num_squared == num * num,
            den_squared == den * den,
            allowed.0@ * pow2_256() + allowed.1@ == num_squared as nat * spread_of_all@,
            marks@.len() == k,
            forall|j: int|
                0 <= j < k ==> #[trigger] marks@[j] == within_deviations(values@, values@[j], num, den),
        decreases n - k,
    {
        let p: u64 = values[k];
        proof {
            let m = 0xffff_ffff_ffff_ffffint;
            assert(n * p <= m * m) by (nonlinear_arith)
                requires
                    0 <= n <= m,
                    0 <= p <= m,
            ;
        }
        let scaled_price: u128 = (n as u128) * (p as u128);
        let gap: u128 = if scaled_price >= sum {
            scaled_price - sum
        } else {
            sum - scaled_price
        };
        let gap_squared = wide_product(gap, gap);
        let needed = wide_times(&Wide::from_u128(den_squared), &gap_squared);
        let outside: bool = product_less_than(&allowed, &needed);
        proof {
            let g = n * p - sum;
            assert(gap as int * gap as int == g * g) by (nonlinear_arith)
                requires
                    gap as int == g || gap as int == -g,
            ;
        }
        marks.push(!outside);
        k = k + 1;
    }
    proof {
        assert(marks@ =~= deviation_verdicts(values@, num, den));
    }
    marks
}

/// A price oracle that takes the median of the last prices.
#[derive(Clone, Debug)]
pub struct MedianOracle {
    observations: VecDeque<u64>,
    max_observations: usize,
}

impl MedianOracle {
    /// The window, oldest price first.
    pub closed spec fn observations(&self) -> Seq<u64> {
        self.observations@
    }

    /// The capacity of the window.
    pub closed spec fn max_observations(&self) -> usize {
        self.max_observations
    }

    /// An oracle with an empty window.
    pub fn new(max_observations: usize) -> (oracle: MedianOracle)
        ensures
            oracle.observations().len() == 0,
            oracle.max_observations() == max_observations,
    {
        MedianOracle { observations: VecDeque::new(), max_observations }
    }

    /// The number of prices in the window.
    pub fn len(&self) -> (n: usize)
        ensures
            n == self.observations().len(),
    {
        self.observations.len()
    }

    /// The prices in the window, oldest first.
    pub fn prices(&self) -> (r: Vec<u64>)
        ensures
            r@ == self.observations(),
    {
        window_copy(&self.observations)
    }

    /// Appends a price, then drops from the front what stands above the capacity.
    pub fn add_observation(&mut self, price: u64)
        ensures
            final(self).max_observations() == old(self).max_observations(),
            final(self).observations() == keep_last(
                old(self).observations().push(price),
                old(self).max_observations() as nat,
            ),
            final(self).observations().len() <= old(self).max_observations(),
    {
        self.observations.push_back(price);
        trim_to(&mut self.observations, self.max_observations);
    }

    /// The median of the window.
    pub fn calculate_median(&self) -> (r: Option<u64>)
        ensures
            r == median_of(self.observations()),
            r is None == (self.observations().len() == 0),
    {
        let values = window_copy(&self.observations);
        median(&values)
    }

    /// The median without outliers: of the prices that lie within
    /// `threshold_num / threshold_den` standard deviations of the mean of the
    /// window; the median of all prices where none does. The deviation is the
    /// population standard deviation, and the test is exact: no rounding takes
    /// a price in or out. A denominator of zero keeps every price.
    pub fn calculate_filtered_median(&self, threshold_num: u64, threshold_den: u64) -> (r: Option<
        u64,
    >)
        ensures
            r == filtered_median_of(
                self.observations(),
                deviation_verdicts(self.observations(), threshold_num, threshold_den),
            ),
            r is None == (self.observations().len() == 0),
    {
        let values = window_copy(&self.observations);
        let verdicts = deviation_marks(&values, threshold_num, threshold_den);
        self.calculate_kept_median(&verdicts)
    }

    /// The median of the prices that `kept` marks, place by place; the median
    /// of all prices where it marks none. A price without a mark is not kept.
    pub fn calculate_kept_median(&self, kept: &Vec<bool>) -> (r: Option<u64>)
        ensures
            r == filtered_median_of(self.observations(), kept@),
            r is None == (self.observations().len() == 0),
    {
        let values = window_copy(&self.observations);
        let mut chosen: Vec<u64> = Vec::new();
        let mut i: usize = 0;
        proof {
            assert(values@.take(0) =~= Seq::<u64>::empty());
        }
        while i < values.len()
            invariant
                i <= values.len(),
                chosen@ == kept_values(values@.take(i as int), kept@),
            decreases values.len() - i,
        {
            proof {
                let upto = values@.take(i as int + 1);
                assert(upto.drop_last() =~= values@.take(i as int));
                assert(upto.last() == values@[i as int]);
            }
            if i < kept.len() && kept[i] {
                chosen.push(values[i]);
            }
            i = i + 1;
        }
        proof {
            assert(values@.take(values.len() as int) =~= values@);
        }
        if chosen.len() == 0 {
            median(&values)
        } else {
            median(&chosen)
        }
    }
}

/// A price oracle that takes the mean of the last prices.
#[derive(Clone, Debug)]
pub struct SmaOracle {
    observations: VecDeque<u64>,
    max_observations: usize,
}

impl SmaOracle {
    /// The window, oldest price first.
    pub closed spec fn observations(&self) -> Seq<u64> {
        self.observations@
    }

    /// The capacity of the window.
    pub closed spec fn max_observations(&self) -> usize {
        self.max_observations
    }

    /// An oracle with an empty window.
    pub fn new(max_observations: usize) -> (oracle: SmaOracle)
        ensures
            oracle.observations().len() == 0,
            oracle.max_observations() == max_observations,
    {
        SmaOracle { observations: VecDeque::new(), max_observations }
    }

    /// The number of prices in the window.
    pub fn len(&self) -> (n: usize)
        ensures
            n == self.observations().len(),
    {
        self.observations.len()
    }

    /// Appends a price, then drops from the front what stands above the capacity.
    pub fn add_observation(&mut self, price: u64)
        ensures
            final(self).max_observations() == old(self).max_observations(),
            final(self).observations() == keep_last(
                old(self).observations().push(price),
                old(self).max_observations() as nat,
            ),
            final(self).observations().len() <= old(self).max_observations(),
    {
        self.observations.push_back(price);
        trim_to(&mut self.observations, self.max_observations);
    }

    /// The mean of the window, rounded down.
    pub fn calculate_sma(&self) -> (r: Option<u64>)
        ensures
            r == sma_of(self.observations()),
    {
        let n: usize = self.observations.len();
        if n == 0 {
            return None;
        }
        let mut sum: u128 = 0;
        let mut i: usize = 0;
        proof {
            assert(self.observations@.take(0) =~= Seq::<u64>::empty());
        }
        while i < n
            invariant
                n == self.observations@.len(),
                i <= n,
                sum == total(self.observations@.take(i as int)),
            decreases n - i,
        {
            proof {
                lemma_total_bounds(self.observations@, i as int);
                lemma_total_bounds(self.observations@.take(i as int + 1), i as int + 1);
                assert((i + 1) * 0xffff_ffff_ffff_ffff <= 0xffff_ffff_ffff_ffff
                    * 0xffff_ffff_ffff_ffff) by (nonlinear_arith)
                    requires
                        i + 1 <= 0xffff_ffff_ffff_ffff,
                ;
            }
            sum = sum + self.observations[i] as u128;
            i = i + 1;
        }
        proof {
            assert(self.observations@.take(n as int) =~= self.observations@);
            lemma_total_bounds(self.observations@, 0);
            // the mean is no more than the largest 64-bit value
            let t = sum as int;
            let d = n as int;
            vstd::arithmetic::div_mod::lemma_fundamental_div_mod(t, d);
            vstd::arithmetic::div_mod::lemma_mod_bound(t, d);
            let q = t / d;
            if q > 0xffff_ffff_ffff_ffff {
                assert(d * q >= d * 0x1_0000_0000_0000_0000) by (nonlinear_arith)
                    requires
                        q >= 0x1_0000_0000_0000_0000,
                        d > 0,
                ;
            }
        }
        Some((sum / (n as u128)) as u64)
    }
}

} // verus!

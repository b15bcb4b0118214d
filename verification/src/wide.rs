//! Unsigned 256-bit integers, and the exact `floor(y * a / d)` that the
//! pricing and averaging formulas are built on.
//!
//! Reserves, amounts, prices and volumes are 64- or 128-bit integers, and the
//! formulas multiply two or three of them before dividing. `Wide` holds such
//! products without loss; `mul_div` divides one without ever forming a value
//! wider than 256 bits.

use vstd::prelude::*;

verus! {

/// 2^64.
pub open spec fn pow2_64() -> nat {
    0x1_0000_0000_0000_0000
}

/// 2^128.
pub open spec fn pow2_128() -> nat {
    0x1_0000_0000_0000_0000_0000_0000_0000_0000nat
}

/// 2^254: the divisors of `mul_div` stay below it.
pub open spec fn pow2_254() -> nat {
    0x4000_0000_0000_0000_0000_0000_0000_0000_0000_0000_0000_0000_0000_0000_0000_0000nat
}

/// 2^256: every `Wide` is below it.
pub open spec fn pow2_256() -> nat {
    0x1_0000_0000_0000_0000_0000_0000_0000_0000_0000_0000_0000_0000_0000_0000_0000_0000nat
}

/// An unsigned 256-bit integer, as two 128-bit halves.
#[derive(Clone, Copy, Debug, PartialEq, Eq, Structural)]
pub struct Wide {
    pub hi: u128,
    pub lo: u128,
}

impl View for Wide {
    type V = nat;

    /// The number that the two halves stand for.
    open spec fn view(&self) -> nat {
        self.hi as nat * pow2_128() + self.lo as nat
    }
}

/// Every `Wide` is below 2^256.
pub proof fn lemma_wide_bound(a: Wide)
    ensures
        a@ < pow2_256(),
{
    let p = pow2_128() as int;
    let h = a.hi as int;
    assert(h * p <= (p - 1) * p) by (nonlinear_arith)
        requires
            0 <= h <= p - 1,
            p > 0,
    ;
    assert((p - 1) * p + p == p * p) by (nonlinear_arith);
    assert(p * p == pow2_256()) by (nonlinear_arith)
        requires
            p == 0x1_0000_0000_0000_0000_0000_0000_0000_0000int,
    ;
}

impl Wide {
    /// Zero.
    pub fn zero() -> (r: Wide)
        ensures
            r@ == 0,
    {
        Wide { hi: 0, lo: 0 }
    }

    /// A 128-bit value, widened.
    pub fn from_u128(v: u128) -> (r: Wide)
        ensures
            r@ == v,
    {
        Wide { hi: 0, lo: v }
    }

    /// Whether the value is zero.
    pub fn is_zero(&self) -> (r: bool)
        ensures
            r == (self@ == 0),
    {
        proof {
            let p = pow2_128() as int;
            let h = self.hi as int;
            if h > 0 {
                assert(h * p >= p) by (nonlinear_arith)
                    requires
                        h >= 1,
                        p > 0,
                ;
            }
        }
        self.hi == 0 && self.lo == 0
    }

    /// The value as 128 bits, where it fits.
    pub fn to_u128(&self) -> (r: Option<u128>)
        ensures
            r == (if self@ <= u128::MAX {
                Some(self@ as u128)
            } else {
                None
            }),
    {
        proof {
            let p = pow2_128() as int;
            let h = self.hi as int;
            if h > 0 {
                assert(h * p >= p) by (nonlinear_arith)
                    requires
                        h >= 1,
                        p > 0,
                ;
            }
        }
        if self.hi == 0 {
            Some(self.lo)
        } else {
            None
        }
    }

    /// `self < other`.
    pub fn less_than(&self, other: &Wide) -> (r: bool)
        ensures
            r == (self@ < other@),
    {
        proof {
            let p = pow2_128() as int;
            let a = self.hi as int;
            let b = other.hi as int;
            if a < b {
                assert(b * p - a * p >= p) by (nonlinear_arith)
                    requires
                        b - a >= 1,
                        p > 0,
                ;
            } else if b < a {
                assert(a * p - b * p >= p) by (nonlinear_arith)
                    requires
                        a - b >= 1,
                        p > 0,
                ;
            }
        }
        self.hi < other.hi || (self.hi == other.hi && self.lo < other.lo)
    }

    /// `self >= other`.
    pub fn at_least(&self, other: &Wide) -> (r: bool)
        ensures
            r == (self@ >= other@),
    {
        !self.less_than(other)
    }

    /// The sum, or `None` where it does not fit in 256 bits.
    pub fn checked_plus(&self, other: &Wide) -> (r: Option<Wide>)
        ensures
            match r {
                Some(s) => s@ == self@ + other@,
                None => self@ + other@ >= pow2_256(),
            },
    {
        let fits: bool = self.lo <= u128::MAX - other.lo;
        let lo: u128 = if fits {
            self.lo + other.lo
        } else {
            self.lo - (u128::MAX - other.lo) - 1
        };
        let carry: u128 = if fits {
            0
        } else {
            1
        };
        proof {
            let p = pow2_128() as int;
            let a = self.hi as int;
            let b = other.hi as int;
            assert((a + b + carry) * p == a * p + b * p + carry * p) by (nonlinear_arith);
            assert(self@ + other@ == (a + b + carry) * p + lo);
            assert(p * p == pow2_256()) by (nonlinear_arith)
                requires
                    p == 0x1_0000_0000_0000_0000_0000_0000_0000_0000int,
            ;
            if a + b + carry >= p {
                assert((a + b + carry) * p >= p * p) by (nonlinear_arith)
                    requires
                        a + b + carry >= p,
                        p > 0,
                ;
            }
        }
        match self.hi.checked_add(other.hi) {
            None => None,
            Some(h) => match h.checked_add(carry) {
                None => None,
                Some(hi) => Some(Wide { hi, lo }),
            },
        }
    }

    /// The sum, where it fits in 256 bits.
    pub fn plus(&self, other: &Wide) -> (r: Wide)
        requires
            self@ + other@ < pow2_256(),
        ensures
            r@ == self@ + other@,
    {
        match self.checked_plus(other) {
            Some(sum) => sum,
            None => *self,
        }
    }

    /// The value as 128 bits, where it has no more.
    pub fn low(&self) -> (r: u128)
        requires
            self@ <= u128::MAX,
        ensures
            r == self@,
    {
        proof {
            let p = pow2_128() as int;
            let h = self.hi as int;
            if h > 0 {
                assert(h * p >= p) by (nonlinear_arith)
                    requires
                        h >= 1,
                        p > 0,
                ;
            }
        }
        self.lo
    }

    /// The difference `self - other`.
    pub fn minus(&self, other: &Wide) -> (r: Wide)
        requires
            self@ >= other@,
        ensures
            r@ == self@ - other@,
    {
        proof {
            let p = pow2_128() as int;
            let a = self.hi as int;
            let b = other.hi as int;
            if a < b {
                assert(b * p - a * p >= p) by (nonlinear_arith)
                    requires
                        b - a >= 1,
                        p > 0,
                ;
            }
            assert((a - b) * p == a * p - b * p) by (nonlinear_arith);
            assert((a - b - 1) * p == a * p - b * p - p) by (nonlinear_arith);
        }
        if self.lo >= other.lo {
            Wide { hi: self.hi - other.hi, lo: self.lo - other.lo }
        } else {
            Wide { hi: self.hi - other.hi - 1, lo: u128::MAX - other.lo + self.lo + 1 }
        }
    }
}

/// `v * 2^64` for a 128-bit `v`.
fn shifted_64(v: u128) -> (r: Wide)
    ensures
        r@ == v as nat * pow2_64(),
{
    let base: u128 = 0x1_0000_0000_0000_0000;
    let top: u128 = v / base;
    let low: u128 = v % base;
    proof {
        let b = base as int;
        let t = top as int;
        let l = low as int;
        assert(v == t * b + l) by {
            vstd::arithmetic::div_mod::lemma_fundamental_div_mod(v as int, b);
            assert(b * t == t * b) by (nonlinear_arith);
        }
        assert(b * b == pow2_128()) by (nonlinear_arith)
            requires
                b == 0x1_0000_0000_0000_0000int,
        ;
        assert((t * b + l) * b == t * (b * b) + l * b) by (nonlinear_arith);
        assert(l * b <= (b - 1) * b) by (nonlinear_arith)
            requires
                0 <= l <= b - 1,
                b > 0,
        ;
        assert((b - 1) * b < b * b) by (nonlinear_arith)
            requires
                b > 0,
        ;
    }
    Wide { hi: top, lo: low * base }
}

/// The full product of two 128-bit values.
pub fn wide_product(a: u128, b: u128) -> (r: Wide)
    ensures
        r@ == a as nat * b as nat,
{
    let base: u128 = 0x1_0000_0000_0000_0000;
    let a1: u128 = a / base;
    let a0: u128 = a % base;
    let b1: u128 = b / base;
    let b0: u128 = b % base;
    proof {
        let s = base as int;
        assert(a1 < s && a0 < s && b1 < s && b0 < s);
        assert(a1 * b1 <= (s - 1) * (s - 1)) by (nonlinear_arith)
            requires
                0 <= a1 <= s - 1,
                0 <= b1 <= s - 1,
        ;
        assert(a1 * b0 <= (s - 1) * (s - 1)) by (nonlinear_arith)
            requires
                0 <= a1 <= s - 1,
                0 <= b0 <= s - 1,
        ;
        assert(a0 * b1 <= (s - 1) * (s - 1)) by (nonlinear_arith)
            requires
                0 <= a0 <= s - 1,
                0 <= b1 <= s - 1,
        ;
        assert(a0 * b0 <= (s - 1) * (s - 1)) by (nonlinear_arith)
            requires
                0 <= a0 <= s - 1,
                0 <= b0 <= s - 1,
        ;
        assert((s - 1) * (s - 1) < 0x1_0000_0000_0000_0000_0000_0000_0000_0000int)
            by (nonlinear_arith)
            requires
                s == 0x1_0000_0000_0000_0000int,
        ;
    }
    let high: u128 = a1 * b1;
    let mid_a: u128 = a1 * b0;
    let mid_b: u128 = a0 * b1;
    let low: u128 = a0 * b0;
    let ends = Wide { hi: high, lo: low };
    let part_a = shifted_64(mid_a);
    let part_b = shifted_64(mid_b);
    proof {
        let s = base as int;
        let x1 = a1 as int;
        let x0 = a0 as int;
        let y1 = b1 as int;
        let y0 = b0 as int;
        assert(a == x1 * s + x0) by {
            vstd::arithmetic::div_mod::lemma_fundamental_div_mod(a as int, s);
            assert(s * x1 == x1 * s) by (nonlinear_arith);
        }
        assert(b == y1 * s + y0) by {
            vstd::arithmetic::div_mod::lemma_fundamental_div_mod(b as int, s);
            assert(s * y1 == y1 * s) by (nonlinear_arith);
        }
        assert(s * s == pow2_128()) by (nonlinear_arith)
            requires
                s == 0x1_0000_0000_0000_0000int,
        ;
        let xa = x1 * s;
        let yb = y1 * s;
        assert((xa + x0) * (yb + y0) == xa * yb + xa * y0 + x0 * yb + x0 * y0)
            by (nonlinear_arith);
        assert(xa * yb == (x1 * y1) * (s * s)) by (nonlinear_arith)
            requires
                xa == x1 * s,
                yb == y1 * s,
        ;
        assert(xa * y0 == (x1 * y0) * s) by (nonlinear_arith)
            requires
                xa == x1 * s,
        ;
        assert(x0 * yb == (x0 * y1) * s) by (nonlinear_arith)
            requires
                yb == y1 * s,
        ;
        assert(ends@ + part_a@ + part_b@ == a as nat * b as nat);
        lemma_wide_bound(ends);
        let p = pow2_128() as int;
        assert(a as int * b as int <= (p - 1) * (p - 1)) by (nonlinear_arith)
            requires
                0 <= a as int <= p - 1,
                0 <= b as int <= p - 1,
        ;
        assert((p - 1) * (p - 1) < pow2_256()) by (nonlinear_arith)
            requires
                p == 0x1_0000_0000_0000_0000_0000_0000_0000_0000int,
        ;
    }
    ends.plus(&part_a).plus(&part_b)
}

/// The sum of three 128-bit values as a carry of at most 2 and 128 bits.
fn sum_of_three(x: u128, y: u128, z: u128) -> (r: (u128, u128))
    ensures
        r.0 <= 2,
        r.0 as nat * pow2_128() + r.1 as nat == x as nat + y as nat + z as nat,
{
    let first_fits: bool = x <= u128::MAX - y;
    let first: u128 = if first_fits {
        x + y
    } else {
        x - (u128::MAX - y) - 1
    };
    let second_fits: bool = first <= u128::MAX - z;
    let second: u128 = if second_fits {
        first + z
    } else {
        first - (u128::MAX - z) - 1
    };
    let carry: u128 = if first_fits {
        if second_fits {
            0
        } else {
            1
        }
    } else {
        if second_fits {
            1
        } else {
            2
        }
    };
    proof {
        let p = pow2_128() as int;
        assert(carry * p == if carry == 0 {
            0
        } else if carry == 1 {
            p
        } else {
            2 * p
        }) by (nonlinear_arith)
            requires
                0 <= carry <= 2,
        ;
    }
    (carry, second)
}

/// The full product of two 256-bit values: `r.0 * 2^256 + r.1`.
pub fn wide_times(a: &Wide, b: &Wide) -> (r: (Wide, Wide))
    ensures
        r.0@ * pow2_256() + r.1@ == a@ * b@,
{
    let ll = wide_product(a.lo, b.lo);
    let lh = wide_product(a.lo, b.hi);
    let hl = wide_product(a.hi, b.lo);
    let hh = wide_product(a.hi, b.hi);
    let (carry, middle) = sum_of_three(lh.lo, hl.lo, ll.hi);
    let low = Wide { hi: middle, lo: ll.lo };
    proof {
        let p = pow2_128() as int;
        let (ah, al, bh, bl) = (a.hi as int, a.lo as int, b.hi as int, b.lo as int);
        let top = hh@ as int + lh.hi as int + hl.hi as int + carry as int;
        assert(p * p == pow2_256()) by (nonlinear_arith)
            requires
                p == 0x1_0000_0000_0000_0000_0000_0000_0000_0000int,
        ;
        // the product, by halves
        let x = ah * p;
        let y = bh * p;
        assert((x + al) * (y + bl) == x * y + x * bl + al * y + al * bl) by (nonlinear_arith);
        assert(x * y == (ah * bh) * (p * p)) by (nonlinear_arith)
            requires
                x == ah * p,
                y == bh * p,
        ;
        assert(x * bl == (ah * bl) * p) by (nonlinear_arith)
            requires
                x == ah * p,
        ;
        assert(al * y == (al * bh) * p) by (nonlinear_arith)
            requires
                y == bh * p,
        ;
        // the three middle parts, by halves
        let (m1, m0) = (lh.hi as int, lh.lo as int);
        let (n1, n0) = (hl.hi as int, hl.lo as int);
        let (k1, k0) = (ll.hi as int, ll.lo as int);
        assert((m1 * p + m0) * p == m1 * (p * p) + m0 * p) by (nonlinear_arith);
        assert((n1 * p + n0) * p == n1 * (p * p) + n0 * p) by (nonlinear_arith);
        assert((carry * p + middle) * p == carry * (p * p) + middle * p) by (nonlinear_arith);
        assert((m0 + n0 + k1) * p == m0 * p + n0 * p + k1 * p) by (nonlinear_arith);
        assert(top * (p * p) == hh@ * (p * p) + m1 * (p * p) + n1 * (p * p) + carry * (p * p))
            by (nonlinear_arith)
            requires
                top == hh@ as int + m1 + n1 + carry as int,
        ;
        assert(top * (p * p) + low@ == a@ * b@);
        // the high part fits: the product is below 2^512
        lemma_wide_bound(*a);
        lemma_wide_bound(*b);
        lemma_wide_bound(low);
        let q = pow2_256() as int;
        assert(a@ * b@ < q * q) by (nonlinear_arith)
            requires
                0 <= a@ < q,
                0 <= b@ < q,
        ;
        if top >= q {
            assert(top * q >= q * q) by (nonlinear_arith)
                requires
                    top >= q,
                    q > 0,
            ;
        }
    }
    let high = hh.plus(&Wide::from_u128(lh.hi)).plus(&Wide::from_u128(hl.hi)).plus(
        &Wide::from_u128(carry),
    );
    (high, low)
}

/// Whether `high1 * 2^256 + low1` is below `high2 * 2^256 + low2`.
pub fn product_less_than(first: &(Wide, Wide), second: &(Wide, Wide)) -> (r: bool)
    ensures
        r == (first.0@ * pow2_256() + first.1@ < second.0@ * pow2_256() + second.1@),
{
    proof {
        lemma_wide_bound(first.1);
        lemma_wide_bound(second.1);
        let q = pow2_256() as int;
        let (h1, h2) = (first.0@ as int, second.0@ as int);
        if h1 < h2 {
            assert(h2 * q >= h1 * q + q) by (nonlinear_arith)
                requires
                    h2 >= h1 + 1,
                    q > 0,
            ;
        }
        if h2 < h1 {
            assert(h1 * q >= h2 * q + q) by (nonlinear_arith)
                requires
                    h1 >= h2 + 1,
                    q > 0,
            ;
        }
    }
    if first.0.less_than(&second.0) {
        true
    } else if second.0.less_than(&first.0) {
        false
    } else {
        first.1.less_than(&second.1)
    }
}

/// `r` is the square root of `v`, rounded down.
pub open spec fn is_sqrt_floor(v: nat, r: nat) -> bool {
    r * r <= v < (r + 1) * (r + 1)
}

/// The square root of `v`, rounded down.
pub open spec fn sqrt_floor(v: nat) -> nat {
    choose|r: nat| is_sqrt_floor(v, r)
}

/// Squares keep the order of what is squared.
pub proof fn lemma_square_order(a: nat, b: nat)
    requires
        a <= b,
    ensures
        a * a <= b * b,
{
    assert(a * a <= b * b) by (nonlinear_arith)
        requires
            a <= b,
    ;
}

/// A number has one rounded-down square root.
pub proof fn lemma_sqrt_floor_unique(v: nat, r: nat)
    requires
        is_sqrt_floor(v, r),
    ensures
        sqrt_floor(v) == r,
{
    let other = sqrt_floor(v);
    if other < r {
        lemma_square_order(other + 1, r);
    } else if r < other {
        lemma_square_order(r + 1, other);
    }
}

/// The square root of a 256-bit value, rounded down.
pub fn integer_sqrt(v: &Wide) -> (r: u128)
    ensures
        is_sqrt_floor(v@, r as nat),
        r == sqrt_floor(v@),
{
    let mut low: u128 = 0;
    let mut high: u128 = u128::MAX;
    proof {
        lemma_wide_bound(*v);
        let p = pow2_128() as int;
        assert(p * p == pow2_256()) by (nonlinear_arith)
            requires
                p == 0x1_0000_0000_0000_0000_0000_0000_0000_0000int,
        ;
        assert((0nat) * (0nat) == 0) by (nonlinear_arith);
    }
    while low < high
        invariant
            low <= high,
            low as nat * low as nat <= v@,
            v@ < (high as nat + 1) * (high as nat + 1),
        decreases high - low,
    {
        let span: u128 = high - low;
        let middle: u128 = low + span / 2 + span % 2;
        let square = wide_product(middle, middle);
        if v.less_than(&square) {
            proof {
                assert((middle - 1) as nat + 1 == middle as nat);
            }
            high = middle - 1;
        } else {
            low = middle;
        }
    }
    proof {
        lemma_sqrt_floor_unique(v@, low as nat);
    }
    low
}

/// What `mul_div` returns: the quotient and the remainder of `y * a` by `d`.
pub open spec fn mul_div_quotient(y: nat, a: nat, d: nat) -> nat {
    (y * a) / d
}

pub open spec fn mul_div_remainder(y: nat, a: nat, d: nat) -> nat {
    (y * a) % d
}

/// `q * d + r == n` with `0 <= r < d` gives `q` and `r` as `n / d` and `n % d`.
pub proof fn lemma_quotient_unique(n: int, d: int, q: int, r: int)
    requires
        d > 0,
        0 <= r < d,
        q * d + r == n,
    ensures
        q == n / d,
        r == n % d,
{
    vstd::arithmetic::div_mod::lemma_fundamental_div_mod_converse(n, d, q, r);
}

/// One step of the accumulation in `mul_div`: adds `(q2, r2)` to `(q1, r1)`,
/// both remainders below `d`, and carries a whole `d` into the quotient.
fn carry_sum(q1: u128, r1: &Wide, q2: u128, r2: &Wide, d: &Wide, Ghost(n1): Ghost<nat>, Ghost(
    n2,
): Ghost<nat>, Ghost(limit): Ghost<nat>) -> (out: (u128, Wide))
    requires
        0 < d@ < pow2_254(),
        r1@ < d@,
        r2@ < d@,
        q1 as nat * d@ + r1@ == n1,
        q2 as nat * d@ + r2@ == n2,
        n1 + n2 <= limit * d@,
        limit <= u128::MAX,
    ensures
        out.1@ < d@,
        out.0 as nat * d@ + out.1@ == n1 + n2,
        out.0 <= limit,
{
    proof {
        lemma_wide_bound(*d);
    }
    let sum = r1.plus(r2);
    let over: bool = sum.at_least(d);
    let rem = if over {
        sum.minus(d)
    } else {
        sum
    };
    let extra: u128 = if over {
        1
    } else {
        0
    };
    proof {
        let dd = d@ as int;
        let a = q1 as int;
        let b = q2 as int;
        let e = extra as int;
        assert((a + b + e) * dd == a * dd + b * dd + e * dd) by (nonlinear_arith);
        assert((a + b + e) * dd + rem@ == n1 + n2);
        if a + b + e > limit {
            assert((a + b + e) * dd >= (limit + 1) * dd) by (nonlinear_arith)
                requires
                    a + b + e >= limit + 1,
                    dd > 0,
            ;
            assert((limit + 1) * dd == limit * dd + dd) by (nonlinear_arith);
        }
    }
    (q1 + q2 + extra, rem)
}

/// `floor(y * a / d)` and the remainder, exactly, for `a <= d`.
///
/// The product `y * a` may be wider than 256 bits and is never formed: the bits
/// of `y` are taken from the lowest up, and for each one that is set the
/// quotient and remainder of `2^i * a` by `d` are added in.
pub fn mul_div(y: u128, a: &Wide, d: &Wide) -> (out: (u128, Wide))
    requires
        a@ <= d@,
        0 < d@ < pow2_254(),
    ensures
        out.0 == mul_div_quotient(y as nat, a@, d@),
        out.1@ == mul_div_remainder(y as nat, a@, d@),
        out.0 <= y,
        out.1@ < d@,
{
    // (step_q, step_r): quotient and remainder of `weight * a` by `d`.
    let whole: bool = a.at_least(d);
    let mut step_q: u128 = if whole {
        1
    } else {
        0
    };
    let mut step_r: Wide = if whole {
        Wide::zero()
    } else {
        *a
    };
    // (acc_q, acc_r): quotient and remainder of `done * a` by `d`.
    let mut acc_q: u128 = 0;
    let mut acc_r: Wide = Wide::zero();
    let mut rest: u128 = y;
    let ghost mut weight: nat = 1;
    let ghost mut done: nat = 0;
    proof {
        assert(1 * d@ == d@) by (nonlinear_arith);
        assert(0 * d@ == 0) by (nonlinear_arith);
        assert(0 * a@ == 0) by (nonlinear_arith);
        assert(1 * a@ == a@) by (nonlinear_arith);
        assert(rest as nat * 1 == rest as nat) by (nonlinear_arith);
    }
    while rest > 0
        invariant
            a@ <= d@,
            0 < d@ < pow2_254(),
            y as nat == rest as nat * weight + done,
            done < weight,
            step_r@ < d@,
            acc_r@ < d@,
            rest > 0 ==> step_q as nat * d@ + step_r@ == weight * a@,
            acc_q as nat * d@ + acc_r@ == done * a@,
            acc_q <= done,
        decreases rest,
    {
        let bit: u128 = rest % 2;
        let half: u128 = rest / 2;
        let ghost w = weight;
        proof {
            assert(rest == 2 * half + bit);
            lemma_split_weight(half as nat, bit as nat, w);
            lemma_weight_bound(y as nat, rest as nat, w, done);
        }
        if bit == 1 {
            proof {
                lemma_scaled_bound(done + w, a@, d@);
                assert((done + w) * a@ == done * a@ + w * a@) by (nonlinear_arith);
            }
            let next = carry_sum(
                acc_q,
                &acc_r,
                step_q,
                &step_r,
                d,
                Ghost(done * a@),
                Ghost(w * a@),
                Ghost(done + w),
            );
            acc_q = next.0;
            acc_r = next.1;
            proof {
                done = done + w;
            }
        }
        if half > 0 {
            proof {
                lemma_scaled_bound(2 * w, a@, d@);
                assert((2 * w) * a@ == w * a@ + w * a@) by (nonlinear_arith);
                assert(2 * w <= y) by (nonlinear_arith)
                    requires
                        y as int >= rest as int * w as int,
                        rest as int >= 2,
                        w as int >= 1,
                ;
            }
            let doubled = carry_sum(
                step_q,
                &step_r,
                step_q,
                &step_r,
                d,
                Ghost(w * a@),
                Ghost(w * a@),
                Ghost(2 * w),
            );
            step_q = doubled.0;
            step_r = doubled.1;
        }
        proof {
            weight = 2 * w;
        }
        rest = half;
    }
    proof {
        assert(rest as nat * weight == 0) by (nonlinear_arith)
            requires
                rest == 0,
        ;
        assert(done == y);
        lemma_quotient_unique(
            (y as nat * a@) as int,
            d@ as int,
            acc_q as int,
            acc_r@ as int,
        );
    }
    (acc_q, acc_r)
}

/// `(2 * half + bit) * w == half * (2 * w) + bit * w`.
proof fn lemma_split_weight(half: nat, bit: nat, w: nat)
    ensures
        (2 * half + bit) * w == half * (2 * w) + bit * w,
        1 * w == w,
        0 * w == 0,
{
    assert((2 * half + bit) * w == half * (2 * w) + bit * w) by (nonlinear_arith);
    assert(1 * w == w) by (nonlinear_arith);
    assert(0 * w == 0) by (nonlinear_arith);
}

/// With `y == rest * w + done` and `rest >= 1`: `w >= 1` gives `done + w <= y`.
proof fn lemma_weight_bound(y: nat, rest: nat, w: nat, done: nat)
    requires
        y == rest * w + done,
        rest >= 1,
        done < w,
    ensures
        w >= 1,
        w <= y,
        done + w <= y,
        y >= rest * w,
{
    assert(rest * w >= w) by (nonlinear_arith)
        requires
            rest >= 1,
    ;
}

/// `a <= d` gives `n * a <= n * d`.
proof fn lemma_scaled_bound(n: nat, a: nat, d: nat)
    requires
        a <= d,
    ensures
        n * a <= n * d,
{
    assert(n * a <= n * d) by (nonlinear_arith)
        requires
            a <= d,
    ;
}

} // verus!

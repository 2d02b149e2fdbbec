//! Arithmetic on doubles: what a sum, and the part of a double that a draw picks,
//! come to, each to the nearest double. A value is told by its count of 2^-1074,
//! as [`Double::scaled`] gives it; `None` is a NaN.

use vstd::arithmetic::div_mod::*;
use vstd::arithmetic::mul::*;
use vstd::arithmetic::power2::*;
use vstd::prelude::*;
use crate::double::{excess_bits, in_53_bits, micros_of, nearest_even, Double, INFINITE, SIGN, UNIT};

verus! {

// ── values ──────────────────────────────────────────────────────────────

/// The power of two after the largest finite value: what an infinity counts as.
pub open spec fn beyond() -> nat {
    pow2(2098)
}

/// `n` / `d`, to the nearest double.
pub open spec fn rounded(n: nat, d: nat) -> nat {
    if in_53_bits(n, d) >= beyond() {
        beyond()
    } else {
        in_53_bits(n, d)
    }
}

/// [`rounded`], on both sides of zero.
pub open spec fn rounded_int(n: int) -> int {
    if n < 0 {
        -rounded((-n) as nat, 1)
    } else {
        rounded(n as nat, 1) as int
    }
}

pub open spec fn infinite(x: int) -> bool {
    x >= beyond() || x <= -beyond()
}

/// `a` + `b`. Two infinities of different signs have no sum.
pub open spec fn sum(a: Option<int>, b: Option<int>) -> Option<int> {
    match (a, b) {
        (Some(x), Some(y)) => if infinite(x) && infinite(y) && x != y {
            None
        } else if infinite(x) {
            a
        } else if infinite(y) {
            b
        } else {
            Some(rounded_int(x + y))
        },
        _ => None,
    }
}

pub open spec fn negated(a: Option<int>) -> Option<int> {
    match a {
        Some(x) => Some(-x),
        None => None,
    }
}

/// `a` where it is above zero, and zero otherwise.
pub open spec fn not_below_zero(a: Option<int>) -> int {
    match a {
        Some(x) => if x > 0 {
            x
        } else {
            0
        },
        None => 0,
    }
}

/// The part of `x` that `draw`, taken as a count of 2^-32, picks. No part of an
/// infinity has no value. For `x` not below zero.
pub open spec fn part(x: int, draw: u32) -> Option<int> {
    if infinite(x) {
        if draw == 0 {
            None
        } else {
            Some(x)
        }
    } else {
        Some(rounded((x * draw) as nat, 0x1_0000_0000) as int)
    }
}

/// `a` milliseconds in microseconds, on both sides of zero. A NaN is none.
pub open spec fn edge_of(a: Option<int>) -> int {
    match a {
        Some(x) => if x < 0 {
            -micros_of(-x)
        } else {
            micros_of(x)
        },
        None => 0,
    }
}

impl Double {
    /// The value, as a count of 2^-1074. A NaN has none.
    pub open spec fn value(self) -> Option<int> {
        if self.is_nan() {
            None
        } else {
            Some(self.scaled())
        }
    }
}

// ── lemmas ──────────────────────────────────────────────────────────────

/// How many bits there are beyond 53 shows in the size.
proof fn lemma_excess_is(n: nat, e: nat)
    requires
        n < pow2(53 + e),
        e > 0 ==> n >= pow2((52 + e) as nat),
    ensures
        excess_bits(n) == e,
    decreases e,
{
    if e > 0 {
        lemma_pow2_unfold((53 + e) as nat);
        lemma_pow2_unfold((52 + e) as nat);
        if e > 1 {
            lemma_pow2_strictly_increases(53, (52 + e) as nat);
        }
        assert(pow2((52 + e) as nat) == 2 * pow2((51 + e) as nat));
        assert((53 + (e - 1)) as nat == (52 + e) as nat);
        assert((52 + (e - 1)) as nat == (51 + e) as nat);
        lemma_excess_is(n / 2, (e - 1) as nat);
    }
}

/// A factor of two more is one bit more.
proof fn lemma_excess_scaled(n: nat, d: nat, k: nat)
    requires
        d > 0,
        n / d >= pow2(52),
    ensures
        excess_bits((n * pow2(k)) / d) == excess_bits(n / d) + k,
        (n * pow2(k)) / d >= pow2(52),
    decreases k,
{
    lemma2_to64();
    lemma2_to64_rest();
    if k == 0 {
        assert(n * pow2(0) == n);
    } else {
        let h = (k - 1) as nat;
        lemma_excess_scaled(n, d, h);
        lemma_pow2_unfold(k);
        let half = n * pow2(h);
        assert(n * pow2(k) == half * 2) by (nonlinear_arith)
            requires
                pow2(k) == 2 * pow2(h),
                half == n * pow2(h),
        ;
        // twice the dividend: its quotient halves to the one before
        let whole = (half * 2) / d;
        lemma_div_denominator((half * 2) as int, d as int, 2);
        lemma_div_denominator((half * 2) as int, 2, d as int);
        lemma_mul_is_commutative(d as int, 2);
        assert(whole / 2 == half / d);
        assert(whole >= pow2(53));
    }
}

proof fn lemma_nearest_scaled(n: nat, d: nat, c: nat)
    requires
        d > 0,
        c > 0,
    ensures
        nearest_even(n * c, d * c) == nearest_even(n, d),
{
    let q = n / d;
    let r = n % d;
    lemma_fundamental_div_mod(n as int, d as int);
    lemma_mod_bound(n as int, d as int);
    assert(n * c == q * (d * c) + r * c) by (nonlinear_arith)
        requires
            n == d * q + r,
    ;
    assert(0 <= r * c < d * c) by (nonlinear_arith)
        requires
            0 <= r < d,
            c > 0,
    ;
    lemma_fundamental_div_mod_converse((n * c) as int, (d * c) as int, q as int, (r * c) as int);
    assert(2 * (r * c) > d * c <==> 2 * r > d) by (nonlinear_arith)
        requires
            c > 0,
    ;
    assert(2 * (r * c) == d * c <==> 2 * r == d) by (nonlinear_arith)
        requires
            c > 0,
    ;
}

/// A factor of two stays outside of the rounding, once there are 53 bits.
pub proof fn lemma_in_53_bits_scaled(n: nat, d: nat, k: nat)
    requires
        d > 0,
        k == 0 || n / d >= pow2(52),
    ensures
        in_53_bits(n * pow2(k), d) == nearest_even(n, d * pow2(excess_bits(n / d))) * pow2(excess_bits(n / d) + k),
{
    let e = excess_bits(n / d);
    lemma2_to64();
    lemma_pow2_pos(k);
    lemma_pow2_pos(e);
    lemma_pow2_adds(e, k);
    if k == 0 {
        assert(n * pow2(0) == n);
    } else {
        lemma_excess_scaled(n, d, k);
        lemma_mul_strictly_positive(d as int, pow2(e) as int);
        lemma_nearest_scaled(n, d * pow2(e), pow2(k));
        lemma_mul_is_associative(d as int, pow2(e) as int, pow2(k) as int);
        assert((d * pow2(e)) * pow2(k) == d * pow2(e + k));
    }
}

/// What is far below the last bit of a significand does not change it.
proof fn lemma_far(m: nat, e: nat, x: nat)
    requires
        pow2(52) <= m < pow2(53),
        e >= 2,
        4 * x < pow2(e),
    ensures
        in_53_bits(m * pow2(e) + x, 1) == m * pow2(e),
        in_53_bits((m * pow2(e) - x) as nat, 1) == m * pow2(e),
        m * pow2(e) >= x,
{
    let p = pow2(e);
    lemma_pow2_pos(e);
    lemma2_to64();
    lemma2_to64_rest();
    lemma_pow2_adds(53, e);
    lemma_pow2_adds(52, e);
    let a = m * p;
    assert(a >= pow2(52) * p && a + p <= pow2(53) * p) by (nonlinear_arith)
        requires
            a == m * p,
            pow2(52) <= m,
            m + 1 <= pow2(53),
            p > 0,
    ;
    // above
    let up = a + x;
    assert(up / 1 == up) by {
        lemma_div_basics(up as int);
    }
    lemma_excess_is(up, e);
    lemma_fundamental_div_mod_converse(up as int, p as int, m as int, x as int);
    assert(1 * p == p);
    // below
    assert(a >= p) by (nonlinear_arith)
        requires
            a >= pow2(52) * p,
            pow2(52) >= 1,
            p > 0,
    ;
    let down = (a - x) as nat;
    assert(down / 1 == down) by {
        lemma_div_basics(down as int);
    }
    if x == 0 {
        assert(down == up);
    } else if m > pow2(52) {
        assert(down >= pow2(52) * p) by (nonlinear_arith)
            requires
                down == m * p - x,
                m >= pow2(52) + 1,
                x < p,
                p > 0,
        ;
        lemma_excess_is(down, e);
        assert(down == (m - 1) * p + (p - x)) by (nonlinear_arith)
            requires
                down == m * p - x,
        ;
        lemma_fundamental_div_mod_converse(down as int, p as int, m - 1, p - x);
    } else {
        // one bit fewer
        let h = pow2((e - 1) as nat);
        lemma_pow2_unfold(e);
        lemma_pow2_pos((e - 1) as nat);
        lemma_pow2_adds(53, (e - 1) as nat);
        lemma_pow2_adds(52, (e - 1) as nat);
        assert(pow2((53 + (e - 1)) as nat) == pow2(52) * p);
        assert(down < pow2((53 + (e - 1)) as nat));
        assert(a == 2 * (pow2(52) * h)) by (nonlinear_arith)
            requires
                a == pow2(52) * p,
                p == 2 * h,
        ;
        assert(pow2(52) * h >= x) by (nonlinear_arith)
            requires
                pow2(52) >= 1,
                h >= x,
                h > 0,
        ;
        assert(down >= pow2(52) * h);
        assert(pow2((52 + (e - 1)) as nat) == pow2(52) * h);
        lemma_excess_is(down, (e - 1) as nat);
        assert(down == (pow2(53) - 1) * h + (h - x)) by (nonlinear_arith)
            requires
                down == pow2(52) * p - x,
                p == 2 * h,
                pow2(53) == 2 * pow2(52),
        ;
        lemma_fundamental_div_mod_converse(down as int, h as int, pow2(53) - 1, h - x);
        assert(1 * h == h);
        assert(nearest_even(down, h) == pow2(53));
        assert(pow2(53) * h == m * p) by (nonlinear_arith)
            requires
                m == pow2(52),
                p == 2 * h,
                pow2(53) == 2 * pow2(52),
        ;
    }
}

// ── making doubles ──────────────────────────────────────────────────────

/// 2^`k`.
fn power_of_two(k: u32) -> (r: u128)
    requires
        k <= 120,
    ensures
        r == pow2(k as nat),
        r <= 0x100_0000_0000_0000_0000_0000_0000_0000,
{
    let mut r: u128 = 1;
    let mut i: u32 = 0;
    proof {
        lemma2_to64();
        lemma2_to64_rest();
        lemma_pow2_adds(60, 60);
    }
    while i < k
        invariant
            i <= k <= 120,
            r == pow2(i as nat),
            pow2(120) == 0x100_0000_0000_0000_0000_0000_0000_0000,
            r <= 0x100_0000_0000_0000_0000_0000_0000_0000,
        decreases k - i,
    {
        proof {
            lemma_pow2_unfold((i + 1) as nat);
            if i + 1 < 120 {
                lemma_pow2_strictly_increases((i + 1) as nat, 120);
            }
        }
        r = r * 2;
        i = i + 1;
    }
    r
}

/// The double `m` * 2^`t`, for a significand of 53 bits.
proof fn lemma_made(m: u64, t: nat, bits: u64)
    requires
        UNIT <= m < 0x20_0000_0000_0000,
        t <= 2046,
        bits == (t + 1) * UNIT + (m - UNIT),
    ensures
        (Double { bits }).unsigned_bits() == bits,
        !(Double { bits }).negative(),
        (Double { bits }).scaled() == m * pow2(t),
{
    let r = Double { bits };
    assert(UNIT <= bits < SIGN) by (nonlinear_arith)
        requires
            bits == (t + 1) * UNIT + (m - UNIT),
            0 <= t <= 2046,
            UNIT <= m < 2 * UNIT,
            UNIT == 0x10_0000_0000_0000,
            SIGN == 0x8000_0000_0000_0000,
    ;
    lemma_small_mod(bits as nat, SIGN as nat);
    lemma_fundamental_div_mod_converse(bits as int, UNIT as int, (t + 1) as int, m - UNIT);
    assert(r.significand() == m);
    assert(r.power() == t);
}

/// The double `q` * 2^`s`.
fn made(q: u64, s: u32) -> (r: Double)
    requires
        q <= 0x20_0000_0000_0000,
        s > 0 ==> q >= UNIT,
        s <= 4000,
    ensures
        !r.is_nan(),
        !r.negative(),
        r.scaled() == (if q * pow2(s as nat) >= beyond() {
            beyond() as int
        } else {
            (q * pow2(s as nat)) as int
        }),
{
    proof {
        lemma2_to64();
        lemma2_to64_rest();
        lemma_pow2_adds(52, 2046);
    }
    if q < UNIT {
        let r = Double { bits: q };
        proof {
            lemma_small_mod(q as nat, SIGN as nat);
            assert(r.significand() == q && r.power() == 0);
            assert(q * pow2(0) == q);
            lemma_pow2_strictly_increases(52, 2098);
        }
        return r;
    }
    let (m, t): (u64, u32) = if q == 0x20_0000_0000_0000 {
        (UNIT, s + 1)
    } else {
        (q, s)
    };
    proof {
        lemma_pow2_unfold((s + 1) as nat);
        assert(m * pow2(t as nat) == q * pow2(s as nat)) by (nonlinear_arith)
            requires
                m == q && t == s || q == 2 * m && pow2(t as nat) == 2 * pow2(s as nat),
        ;
    }
    if t >= 2046 {
        proof {
            if t > 2046 {
                lemma_pow2_strictly_increases(2046, t as nat);
            }
            lemma_mul_inequality(pow2(2046) as int, pow2(t as nat) as int, UNIT as int);
            lemma_mul_inequality(UNIT as int, m as int, pow2(t as nat) as int);
            lemma_mul_is_commutative(pow2(t as nat) as int, UNIT as int);
            lemma_mul_is_commutative(pow2(2046) as int, UNIT as int);
            lemma_made(UNIT, 2046, INFINITE);
        }
        return Double { bits: INFINITE };
    }
    proof {
        assert((t + 1) * UNIT + (m - UNIT) < INFINITE) by (nonlinear_arith)
            requires
                0 <= t < 2046,
                UNIT <= m < 2 * UNIT,
                UNIT == 0x10_0000_0000_0000,
                INFINITE == 0x7ff0_0000_0000_0000,
        ;
        assert((t + 1) * UNIT >= 0) by (nonlinear_arith)
            requires
                t >= 0,
        ;
        lemma_pow2_adds(53, t as nat);
        lemma_pow2_pos(t as nat);
        lemma_mul_strict_inequality(m as int, pow2(53) as int, pow2(t as nat) as int);
        if 53 + t < 2098 {
            lemma_pow2_strictly_increases((53 + t) as nat, 2098);
        }
    }
    let bits: u64 = (t as u64 + 1) * UNIT + (m - UNIT);
    proof {
        lemma_made(m, t as nat, bits);
    }
    Double { bits }
}

/// `n` / `d` * 2^`k`, to the nearest double.
fn nearest(n: u128, d: u64, k: u32) -> (r: Double)
    requires
        0 < d <= 0x1_0000_0000,
        n < 0x100_0000_0000_0000_0000_0000_0000_0000,
        k <= 2100,
        k == 0 || n / d as u128 >= UNIT,
    ensures
        !r.is_nan(),
        !r.negative(),
        r.scaled() == rounded(n as nat * pow2(k as nat), d as nat),
{
    proof {
        lemma2_to64();
        lemma2_to64_rest();
        lemma_pow2_adds(60, 60);
        lemma_pow2_adds(53, 67);
    }
    let whole: u128 = n / d as u128;
    let mut top: u128 = whole;
    let mut e: u32 = 0;
    proof {
        assert(whole <= n) by (nonlinear_arith)
            requires
                whole == n / d as u128,
                d > 0,
        ;
        assert(whole * pow2(0) == whole);
    }
    while top >= 0x20_0000_0000_0000
        invariant
            pow2(53) == 0x20_0000_0000_0000,
            whole < pow2(120),
            pow2(120) == pow2(53) * pow2(67),
            e <= 67,
            e + excess_bits(top as nat) == excess_bits(whole as nat),
            top * pow2(e as nat) <= whole,
        decreases top,
    {
        proof {
            let e0 = e as nat;
            lemma_pow2_unfold((e0 + 1) as nat);
            lemma_pow2_pos(e0);
            lemma_mul_is_associative((top / 2) as int, 2, pow2(e0) as int);
            lemma_mul_inequality(((top / 2) * 2) as int, top as int, pow2(e0) as int);
            if e == 67 {
                lemma_mul_inequality(pow2(53) as int, top as int, pow2(67) as int);
                assert(false);
            }
        }
        top = top / 2;
        e = e + 1;
    }
    let p: u128 = power_of_two(e);
    proof {
        Double::lemma_excess_quotient(whole as nat);
        lemma_pow2_pos(e as nat);
        if e < 67 {
            lemma_pow2_strictly_increases(e as nat, 67);
        }
        lemma_div_denominator(n as int, d as int, p as int);
        lemma_pow2_adds(3, 64);
        assert(d * p <= 0x1_0000_0000 * 0x8_0000_0000_0000_0000) by (nonlinear_arith)
            requires
                0 < d <= 0x1_0000_0000,
                0 < p <= 0x8_0000_0000_0000_0000,
        ;
        lemma_mul_strictly_positive(d as int, p as int);
    }
    let unit: u128 = d as u128 * p;
    let rest: u128 = n % unit;
    let quotient: u128 = n / unit;
    let q: u64 = if 2 * rest > unit || (2 * rest == unit && quotient % 2 == 1) {
        (quotient + 1) as u64
    } else {
        quotient as u64
    };
    proof {
        assert(quotient < pow2(53));
        assert(q == nearest_even(n as nat, d as nat * pow2(e as nat)));
        lemma_in_53_bits_scaled(n as nat, d as nat, k as nat);
        if e > 0 {
            assert(whole >= pow2(52));
        }
    }
    made(q, e + k)
}

// ── the operations ──────────────────────────────────────────────────────

impl Double {
    /// What a double is worth, by its parts.
    pub proof fn lemma_value(self)
        ensures
            self.negative() ==> self.scaled() == -(self.significand() * pow2(self.power())),
            !self.negative() ==> self.scaled() == self.significand() * pow2(self.power()),
            self.unsigned_bits() >= INFINITE && !self.is_nan() <==> self.unsigned_bits() == INFINITE,
            !self.is_nan() ==> (infinite(self.scaled()) <==> self.unsigned_bits() == INFINITE),
            self.unsigned_bits() == INFINITE ==> (if self.negative() {
                self.scaled() == -beyond()
            } else {
                self.scaled() == beyond()
            }),
    {
        self.lemma_parts();
        lemma2_to64();
        lemma2_to64_rest();
        lemma_pow2_adds(52, 2046);
        let u = self.unsigned_bits();
        let m = self.significand();
        let t = self.power();
        lemma_pow2_pos(t);
        lemma_pow2_pos(2098);
        if u == INFINITE {
            lemma_fundamental_div_mod_converse(u as int, UNIT as int, 2047, 0);
        } else if u < INFINITE {
            lemma_fundamental_div_mod(u as int, UNIT as int);
            lemma_mod_bound(u as int, UNIT as int);
            assert(u / (UNIT as nat) < 2047) by (nonlinear_arith)
                requires
                    u < 2047 * UNIT,
                    u == UNIT * (u / (UNIT as nat)) + u % (UNIT as nat),
                    0 <= u % (UNIT as nat),
                    UNIT > 0,
            ;
            lemma_pow2_adds(53, t);
            lemma_mul_strict_inequality(m as int, pow2(53) as int, pow2(t) as int);
            if 53 + t < 2098 {
                lemma_pow2_strictly_increases((53 + t) as nat, 2098);
            }
        }
    }

    /// The same on the other side of zero.
    pub fn minus(self) -> (r: Self)
        ensures
            r.value() == negated(self.value()),
            r.unsigned_bits() == self.unsigned_bits(),
    {
        let r = if self.bits >= SIGN {
            Double { bits: self.bits - SIGN }
        } else {
            Double { bits: self.bits + SIGN }
        };
        proof {
            lemma_small_mod((self.bits as nat % SIGN as nat) as nat, SIGN as nat);
            if self.bits >= SIGN {
                lemma_fundamental_div_mod_converse(self.bits as int, SIGN as int, 1, self.bits - SIGN);
                lemma_small_mod(r.bits as nat, SIGN as nat);
            } else {
                lemma_small_mod(self.bits as nat, SIGN as nat);
                lemma_fundamental_div_mod_converse(r.bits as int, SIGN as int, 1, self.bits as int);
            }
            assert(r.unsigned_bits() == self.unsigned_bits());
            self.lemma_value();
            r.lemma_value();
        }
        r
    }

    fn nan(self) -> (r: bool)
        ensures
            r == self.is_nan(),
    {
        self.bits % SIGN > INFINITE
    }

    fn endless(self) -> (r: bool)
        requires
            !self.is_nan(),
        ensures
            r == infinite(self.scaled()),
    {
        proof {
            self.lemma_value();
        }
        self.bits % SIGN == INFINITE
    }

    /// This + `other`.
    pub fn plus(self, other: Double) -> (r: Self)
        ensures
            r.value() == sum(self.value(), other.value()),
    {
        if self.nan() {
            return self;
        }
        if other.nan() {
            return other;
        }
        proof {
            self.lemma_value();
            other.lemma_value();
            lemma_pow2_pos(2098);
        }
        if self.endless() {
            if other.endless() && (self.bits >= SIGN) != (other.bits >= SIGN) {
                let r = Double { bits: INFINITE + 1 };
                proof {
                    lemma_small_mod(r.bits as nat, SIGN as nat);
                }
                return r;
            }
            return self;
        }
        if other.endless() {
            return other;
        }
        if self.exec_power() >= other.exec_power() {
            self.plus_finer(other)
        } else {
            other.plus_finer(self)
        }
    }

    /// This + `other`, where `other` has no higher power.
    fn plus_finer(self, other: Double) -> (r: Self)
        requires
            !self.is_nan(),
            !other.is_nan(),
            !infinite(self.scaled()),
            !infinite(other.scaled()),
            self.power() >= other.power(),
        ensures
            r.value() == Some(rounded_int(self.scaled() + other.scaled())),
    {
        let a: u64 = self.exec_significand();
        let b: u64 = other.exec_significand();
        let e: u32 = self.exec_power();
        let k: u32 = other.exec_power();
        let gap: u32 = e - k;
        proof {
            self.lemma_parts();
            other.lemma_parts();
            self.lemma_value();
            other.lemma_value();
            lemma2_to64();
            lemma2_to64_rest();
        }
        if gap > 60 {
            proof {
                lemma_far_apart(self, other);
            }
            return self;
        }
        let p: u128 = power_of_two(gap);
        proof {
            if gap < 60 {
                lemma_pow2_strictly_increases(gap as nat, 60);
            }
            lemma_pow2_adds(53, 60);
            assert(a * p <= 0x20_0000_0000_0000 * 0x1000_0000_0000_0000) by (nonlinear_arith)
                requires
                    0 <= a <= 0x20_0000_0000_0000,
                    0 <= p <= 0x1000_0000_0000_0000,
            ;
            lemma_mul_nonnegative(a as int, p as int);
            lemma_pow2_adds(gap as nat, k as nat);
            lemma_mul_is_associative(a as int, p as int, pow2(k as nat) as int);
            lemma_mul_is_distributive_add_other_way(pow2(k as nat) as int, (a * p) as int, b as int);
            lemma_mul_is_distributive_sub_other_way(pow2(k as nat) as int, (a * p) as int, b as int);
            lemma_mul_is_distributive_sub_other_way(pow2(k as nat) as int, b as int, (a * p) as int);
            lemma_pow2_pos(k as nat);
        }
        let big: u128 = a as u128 * p;
        let below = self.bits >= SIGN;
        let apart = below != (other.bits >= SIGN);
        let (n, minus): (u128, bool) = if !apart {
            (big + b as u128, below)
        } else if big >= b as u128 {
            (big - b as u128, below)
        } else {
            (b as u128 - big, !below)
        };
        let r = Self::of_product(n, k);
        proof {
            let size = (n * pow2(k as nat)) as int;
            lemma_mul_nonnegative(n as int, pow2(k as nat) as int);
            assert(self.scaled() + other.scaled() == (if minus {
                -size
            } else {
                size
            }));
            if size == 0 {
                lemma_rounded_zero(1);
            }
        }
        if minus {
            r.minus()
        } else {
            r
        }
    }

    /// `n` * 2^`k`, to the nearest double.
    fn of_product(n: u128, k: u32) -> (r: Self)
        requires
            n < 0x100_0000_0000_0000_0000_0000_0000_0000,
            k <= 2100,
        ensures
            !r.is_nan(),
            !r.negative(),
            r.scaled() == rounded(n as nat * pow2(k as nat), 1),
    {
        let mut m: u128 = n;
        let mut j: u32 = k;
        while m < UNIT as u128 && j > 0
            invariant
                m * pow2(j as nat) == n * pow2(k as nat),
                m < 0x100_0000_0000_0000_0000_0000_0000_0000,
                j <= k <= 2100,
            decreases j,
        {
            proof {
                lemma_pow2_unfold(j as nat);
                lemma_mul_is_associative(m as int, 2, pow2((j - 1) as nat) as int);
                lemma_mul_is_commutative(m as int, 2);
            }
            m = m * 2;
            j = j - 1;
        }
        proof {
            lemma_div_basics(m as int);
        }
        nearest(m, 1, j)
    }

    /// The part of this that `draw`, taken as a count of 2^-32, picks. For a
    /// double not below zero.
    pub fn part_at(self, draw: u32) -> (r: Self)
        requires
            !self.is_nan(),
            !self.negative(),
        ensures
            r.value() == part(self.scaled(), draw),
    {
        proof {
            self.lemma_value();
            self.lemma_parts();
            lemma2_to64();
            lemma2_to64_rest();
        }
        if self.endless() {
            if draw == 0 {
                let r = Double { bits: INFINITE + 1 };
                proof {
                    lemma_small_mod(r.bits as nat, SIGN as nat);
                }
                return r;
            }
            return self;
        }
        let m: u64 = self.exec_significand();
        let k: u32 = self.exec_power();
        proof {
            assert(m * draw <= 0x20_0000_0000_0000 * 0xffff_ffff) by (nonlinear_arith)
                requires
                    0 <= m <= 0x20_0000_0000_0000,
                    0 <= draw <= 0xffff_ffff,
            ;
            lemma_mul_nonnegative(m as int, draw as int);
        }
        let n: u128 = m as u128 * (draw as u128);
        if k >= 32 {
            let r = Self::of_product(n, k - 32);
            proof {
                let c = pow2((k - 32) as nat);
                lemma_pow2_adds((k - 32) as nat, 32);
                assert(self.scaled() * draw == (n * c) * pow2(32)) by (nonlinear_arith)
                    requires
                        self.scaled() == m * pow2(k as nat),
                        pow2(k as nat) == c * pow2(32),
                        n == m * draw,
                ;
                lemma_mul_nonnegative(n as int, c as int);
                lemma_whole_quotient((n * c) as nat, 32);
            }
            return r;
        }
        let p: u128 = power_of_two(k);
        proof {
            lemma_pow2_strictly_increases(k as nat, 32);
            assert(n * p <= 0x20_0000_0000_0000 * 0xffff_ffff * 0x1_0000_0000) by (nonlinear_arith)
                requires
                    0 <= n <= 0x20_0000_0000_0000 * 0xffff_ffff,
                    0 <= p <= 0x1_0000_0000,
            ;
            lemma_mul_nonnegative(n as int, p as int);
            assert(self.scaled() * draw == n * p) by (nonlinear_arith)
                requires
                    self.scaled() == m * p,
                    n == m * draw,
            ;
            assert((n * p) * pow2(0) == n * p);
        }
        nearest(n * p, 0x1_0000_0000, 0)
    }
}

proof fn lemma_rounded_zero(d: nat)
    requires
        d > 0,
    ensures
        rounded(0, d) == 0,
{
    lemma2_to64_rest();
    lemma2_to64();
    lemma_pow2_pos(2098);
    assert(excess_bits(0) == 0);
    lemma_div_of0(d as int);
    lemma_mod_self_0(d as int);
    lemma_small_mod(0, d);
    assert(d * pow2(0) == d);
    assert(nearest_even(0, d) == 0);
    assert(in_53_bits(0, d) == 0);
}

/// A divisor that goes in without a rest makes no difference to the rounding.
proof fn lemma_whole_quotient(n: nat, k: nat)
    ensures
        rounded(n * pow2(k), pow2(k)) == rounded(n, 1),
{
    let c = pow2(k);
    lemma_pow2_pos(k);
    lemma_div_multiples_vanish(n as int, c as int);
    lemma_mul_is_commutative(n as int, c as int);
    lemma_div_basics(n as int);
    let e = excess_bits(n);
    lemma_pow2_pos(e);
    lemma_nearest_scaled(n, pow2(e), c);
    lemma_mul_is_commutative(pow2(e) as int, c as int);
}

/// The sum of two doubles far apart is the larger.
proof fn lemma_far_apart(a: Double, b: Double)
    requires
        !a.is_nan(),
        !b.is_nan(),
        !infinite(a.scaled()),
        a.power() > b.power() + 60,
    ensures
        rounded_int(a.scaled() + b.scaled()) == a.scaled(),
{
    a.lemma_parts();
    b.lemma_parts();
    a.lemma_value();
    b.lemma_value();
    let m = a.significand();
    let e = a.power();
    let x = b.significand() * pow2(b.power());
    lemma2_to64();
    lemma2_to64_rest();
    lemma_pow2_pos(b.power());
    lemma_mul_nonnegative(b.significand() as int, pow2(b.power()) as int);
    lemma_mul_strict_inequality(b.significand() as int, pow2(53) as int, pow2(b.power()) as int);
    lemma_pow2_adds(53, b.power());
    lemma_pow2_adds(2, (53 + b.power()) as nat);
    lemma_pow2_strictly_increases((55 + b.power()) as nat, e);
    assert(4 * x < pow2(e));
    lemma_far(m, e, x as nat);
    let size = (m * pow2(e)) as int;
    lemma_pow2_pos(e);
    assert(size >= pow2(e)) by (nonlinear_arith)
        requires
            size == m * pow2(e),
            m >= 1,
            pow2(e) > 0,
    ;
    assert(rounded((size + x) as nat, 1) == size && rounded((size - x) as nat, 1) == size);
    let total = a.scaled() + b.scaled();
    assert(total == size + x || total == size - x || total == -(size + x) || total == -(size - x));
}

/// Adding nothing changes nothing.
pub proof fn law_nothing_added(d: Double)
    ensures
        sum(d.value(), Some(0)) == d.value(),
{
    d.lemma_parts();
    d.lemma_value();
    lemma2_to64();
    lemma2_to64_rest();
    lemma_pow2_pos(2098);
    let m = d.significand();
    let k = d.power();
    lemma_div_basics(m as int);
    lemma_in_53_bits_scaled(m, 1, k);
    assert(excess_bits(m) == 0);
    assert(1 * pow2(0) == 1);
    assert(m % 1 == 0 && m / 1 == m);
    assert(nearest_even(m, 1) == m);
    lemma_mul_nonnegative(m as int, pow2(k) as int);
}

// ── places ──────────────────────────────────────────────────────────────

/// `n`, to the nearest double.
pub open spec fn number(n: nat) -> int {
    rounded(n * pow2(1074), 1) as int
}

/// Half of `n`, to the nearest double.
pub open spec fn half_of(n: nat) -> int {
    rounded(n * pow2(1073), 1) as int
}

/// The whole number at or below `a`. None below zero, and none for a NaN.
pub open spec fn floor_of(a: Option<int>) -> int {
    not_below_zero(a) / (pow2(1074) as int)
}

impl Double {
    /// `n`, to the nearest double.
    pub fn of_number(n: u64) -> (r: Self)
        ensures
            !r.is_nan(),
            !r.negative(),
            r.scaled() == number(n as nat),
    {
        Self::of_product(n as u128, 1074)
    }

    /// Half of `n`, to the nearest double.
    pub fn of_half(n: u64) -> (r: Self)
        ensures
            !r.is_nan(),
            !r.negative(),
            r.scaled() == half_of(n as nat),
    {
        Self::of_product(n as u128, 1073)
    }

    /// The whole number at or below this, or `most` where that is lower.
    pub fn floor_up_to(self, most: u64) -> (r: u64)
        ensures
            r == (if floor_of(self.value()) < most {
                floor_of(self.value())
            } else {
                most as int
            }),
    {
        proof {
            self.lemma_parts();
            self.lemma_value();
            lemma2_to64();
            lemma2_to64_rest();
            lemma_pow2_pos(1074);
        }
        if !self.is_positive() {
            proof {
                lemma_div_of0(pow2(1074) as int);
            }
            return 0;
        }
        let m: u64 = self.exec_significand();
        let k: u32 = self.exec_power();
        if k >= 1074 {
            let t: u32 = k - 1074;
            proof {
                lemma_pow2_adds(t as nat, 1074);
                lemma_mul_is_associative(m as int, pow2(t as nat) as int, pow2(1074) as int);
                lemma_div_multiples_vanish(m * pow2(t as nat), pow2(1074) as int);
                lemma_mul_is_commutative(m * pow2(t as nat), pow2(1074) as int);
            }
            if t >= 12 {
                proof {
                    if t > 12 {
                        lemma_pow2_strictly_increases(12, t as nat);
                    }
                    assert(m * pow2(t as nat) >= 0x10_0000_0000_0000 * 0x1000) by (nonlinear_arith)
                        requires
                            m >= 0x10_0000_0000_0000,
                            pow2(t as nat) >= 0x1000,
                    ;
                }
                return most;
            }
            let p: u128 = power_of_two(t);
            proof {
                lemma_pow2_strictly_increases(t as nat, 12);
                assert(m * p <= 0x20_0000_0000_0000 * 0x1000) by (nonlinear_arith)
                    requires
                        0 <= m <= 0x20_0000_0000_0000,
                        0 <= p <= 0x1000,
                ;
                lemma_mul_nonnegative(m as int, p as int);
            }
            let n: u128 = m as u128 * p;
            return if n < most as u128 {
                n as u64
            } else {
                most
            };
        }
        let j: u32 = 1074 - k;
        proof {
            lemma_pow2_adds(j as nat, k as nat);
            lemma_pow2_pos(k as nat);
            lemma_pow2_pos(j as nat);
            lemma_div_denominator(m * pow2(k as nat), pow2(k as nat) as int, pow2(j as nat) as int);
            lemma_div_multiples_vanish(m as int, pow2(k as nat) as int);
            lemma_mul_is_commutative(m as int, pow2(k as nat) as int);
            lemma_mul_is_commutative(pow2(j as nat) as int, pow2(k as nat) as int);
        }
        if j >= 53 {
            proof {
                if j > 53 {
                    lemma_pow2_strictly_increases(53, j as nat);
                }
                lemma_basic_div(m as int, pow2(j as nat) as int);
            }
            return 0;
        }
        let p: u128 = power_of_two(j);
        let n: u128 = m as u128 / p;
        proof {
            assert(n <= m) by (nonlinear_arith)
                requires
                    n == m as u128 / p,
                    p >= 1,
            ;
        }
        if n < most as u128 {
            n as u64
        } else {
            most
        }
    }
}

/// A floor is not below zero.
pub proof fn lemma_floor_of(a: Option<int>)
    ensures
        floor_of(a) >= 0,
{
    lemma_pow2_pos(1074);
    lemma_div_pos_is_pos(not_below_zero(a), pow2(1074) as int);
}

/// Rounding does not go below a number of 53 bits.
proof fn lemma_rounded_at_least(n: nat, d: nat, m: nat, j: nat)
    requires
        d > 0,
        m <= pow2(53),
        n >= m * pow2(j) * d,
    ensures
        in_53_bits(n, d) >= m * pow2(j),
{
    let whole = n / d;
    let e = excess_bits(whole);
    let p = pow2(e);
    let v = m * pow2(j);
    lemma_pow2_pos(e);
    lemma_pow2_pos(j);
    lemma_mul_nonnegative(m as int, pow2(j) as int);
    lemma2_to64();
    lemma2_to64_rest();
    lemma_div_is_ordered((v * d) as int, n as int, d as int);
    lemma_div_multiples_vanish(v as int, d as int);
    lemma_mul_is_commutative(v as int, d as int);
    assert(whole >= v);
    Double::lemma_excess_quotient(whole);
    lemma_div_denominator(n as int, d as int, p as int);
    lemma_mul_strictly_positive(d as int, p as int);
    let q = nearest_even(n, d * p);
    Double::lemma_nearest(n, d * p, pow2(53));
    assert(q >= whole / p);
    if e <= j {
        let c = pow2((j - e) as nat);
        lemma_pow2_adds((j - e) as nat, e);
        assert(v == (m * c) * p) by (nonlinear_arith)
            requires
                v == m * pow2(j),
                pow2(j) == c * p,
        ;
        lemma_div_is_ordered(v as int, whole as int, p as int);
        lemma_div_multiples_vanish((m * c) as int, p as int);
        lemma_mul_is_commutative((m * c) as int, p as int);
        lemma_mul_inequality((m * c) as int, q as int, p as int);
    } else {
        // here the result has 53 bits from a higher place on
        lemma_pow2_adds((e - j) as nat, j);
        lemma_pow2_unfold((e - j) as nat);
        lemma_pow2_pos((e - j - 1) as nat);
        assert(whole >= pow2(53));
        assert(q >= pow2(52));
        assert(q * p >= v) by (nonlinear_arith)
            requires
                q >= pow2(52),
                p == pow2((e - j) as nat) * pow2(j),
                pow2((e - j) as nat) >= 2,
                pow2(53) == 2 * pow2(52),
                m <= pow2(53),
                v == m * pow2(j),
                pow2(j) > 0,
        ;
    }
}

/// Rounding does not go above a number of 53 bits.
proof fn lemma_rounded_at_most(n: nat, d: nat, m: nat, j: nat)
    requires
        d > 0,
        m <= pow2(53),
        n <= m * pow2(j) * d,
    ensures
        in_53_bits(n, d) <= m * pow2(j),
{
    let whole = n / d;
    let e = excess_bits(whole);
    let p = pow2(e);
    let v = m * pow2(j);
    let unit = d * p;
    lemma_pow2_pos(e);
    lemma_pow2_pos(j);
    lemma_mul_nonnegative(m as int, pow2(j) as int);
    lemma2_to64();
    lemma2_to64_rest();
    lemma_mul_strictly_positive(d as int, p as int);
    let q = n / unit;
    let r = n % unit;
    lemma_fundamental_div_mod(n as int, unit as int);
    lemma_mod_bound(n as int, unit as int);
    lemma_div_pos_is_pos(n as int, unit as int);
    if e <= j {
        let c = pow2((j - e) as nat);
        lemma_pow2_adds((j - e) as nat, e);
        let most = m * c;
        lemma_mul_nonnegative(m as int, c as int);
        assert(v == most * p && n <= most * unit) by (nonlinear_arith)
            requires
                v == m * pow2(j),
                pow2(j) == c * p,
                most == m * c,
                n <= v * d,
                unit == d * p,
        ;
        assert(q <= most && (q == most ==> r == 0)) by (nonlinear_arith)
            requires
                n == unit * q + r,
                0 <= r < unit,
                n <= most * unit,
        ;
        assert(nearest_even(n, unit) <= most);
        lemma_mul_inequality(nearest_even(n, unit) as int, most as int, p as int);
    } else {
        // only the power of two itself is left
        Double::lemma_excess_quotient(whole);
        lemma_pow2_adds((e - j) as nat, j);
        lemma_pow2_unfold((e - j) as nat);
        lemma_pow2_pos((e - j - 1) as nat);
        assert(whole >= pow2(53));
        lemma_div_denominator(n as int, d as int, p as int);
        assert(q >= pow2(52));
        assert(n == pow2(52) * unit && v == pow2(52) * p) by (nonlinear_arith)
            requires
                n == unit * q + r,
                0 <= r,
                q >= pow2(52),
                n <= v * d,
                v == m * pow2(j),
                m <= pow2(53),
                pow2(53) == 2 * pow2(52),
                unit == d * p,
                p == pow2((e - j) as nat) * pow2(j),
                pow2((e - j) as nat) >= 2,
                pow2(j) > 0,
                pow2(52) > 0,
                d > 0,
        ;
        lemma_fundamental_div_mod_converse(n as int, unit as int, pow2(52) as int, 0);
    }
}

/// What is more than half of the last bit above a number of 53 bits does not round
/// down to it.
proof fn lemma_rounded_up(n: nat, d: nat, m: nat, j: nat)
    requires
        d > 0,
        pow2(52) <= m < pow2(53),
        2 * n > (2 * m + 1) * pow2(j) * d,
    ensures
        in_53_bits(n, d) >= (m + 1) * pow2(j),
{
    let p = pow2(j);
    let unit = d * p;
    let whole = n / d;
    lemma_pow2_pos(j);
    lemma2_to64();
    lemma2_to64_rest();
    lemma_mul_strictly_positive(d as int, p as int);
    assert(2 * n > (2 * m + 1) * unit && n >= m * unit && n >= m * p * d) by (nonlinear_arith)
        requires
            2 * n > (2 * m + 1) * p * d,
            unit == d * p,
            d > 0,
            p > 0,
    ;
    lemma_pow2_adds(53, j);
    lemma_pow2_adds(52, j);
    lemma_fundamental_div_mod(n as int, d as int);
    lemma_mod_bound(n as int, d as int);
    if whole >= pow2(53 + j) {
        assert(n >= pow2(53) * p * d) by (nonlinear_arith)
            requires
                n >= d * whole,
                whole >= pow2(53) * p,
                d > 0,
        ;
        lemma_rounded_at_least(n, d, pow2(53), j);
        lemma_mul_inequality((m + 1) as int, pow2(53) as int, p as int);
    } else {
        lemma_div_is_ordered((m * p * d) as int, n as int, d as int);
        lemma_div_multiples_vanish((m * p) as int, d as int);
        lemma_mul_is_commutative((m * p) as int, d as int);
        lemma_mul_nonnegative(m as int, p as int);
        lemma_mul_inequality(pow2(52) as int, m as int, p as int);
        lemma_excess_is(whole, j);
        let q = n / unit;
        let r = n % unit;
        lemma_fundamental_div_mod(n as int, unit as int);
        lemma_mod_bound(n as int, unit as int);
        assert(q >= m && (q == m ==> 2 * r > unit)) by (nonlinear_arith)
            requires
                n == unit * q + r,
                0 <= r < unit,
                n >= m * unit,
                2 * n > (2 * m + 1) * unit,
        ;
        lemma_mul_inequality((m + 1) as int, nearest_even(n, unit) as int, p as int);
    }
}

/// A number of 53 bits is its own nearest double.
proof fn lemma_exact(m: nat, j: nat)
    requires
        m <= pow2(53),
    ensures
        in_53_bits(m * pow2(j), 1) == m * pow2(j),
{
    let n = m * pow2(j);
    let e = excess_bits(n);
    let p = pow2(e);
    lemma_pow2_pos(e);
    lemma_pow2_pos(j);
    lemma_mul_nonnegative(m as int, pow2(j) as int);
    lemma_div_basics(n as int);
    lemma2_to64();
    lemma2_to64_rest();
    assert(1 * p == p);
    if e <= j {
        let c = pow2((j - e) as nat);
        lemma_pow2_adds((j - e) as nat, e);
        assert(n == (m * c) * p) by (nonlinear_arith)
            requires
                n == m * pow2(j),
                pow2(j) == c * p,
        ;
        lemma_mul_nonnegative(m as int, c as int);
        lemma_fundamental_div_mod_converse(n as int, p as int, (m * c) as int, 0);
    } else {
        Double::lemma_excess_quotient(n);
        lemma_pow2_adds((e - j) as nat, j);
        lemma_pow2_unfold((e - j) as nat);
        lemma_pow2_pos((e - j - 1) as nat);
        assert(n >= pow2(53));
        let q = n / p;
        lemma_fundamental_div_mod(n as int, p as int);
        lemma_mod_bound(n as int, p as int);
        assert(n == pow2(52) * p) by (nonlinear_arith)
            requires
                n == p * q + n % p,
                0 <= n % p,
                q >= pow2(52),
                n == m * pow2(j),
                m <= pow2(53),
                pow2(53) == 2 * pow2(52),
                p == pow2((e - j) as nat) * pow2(j),
                pow2((e - j) as nat) >= 2,
                pow2(j) > 0,
                pow2(52) > 0,
        ;
        lemma_fundamental_div_mod_converse(n as int, p as int, pow2(52) as int, 0);
    }
}

/// What is in 53 bits exactly is not rounded.
pub proof fn lemma_not_rounded(n: nat, d: nat, m: nat, j: nat)
    requires
        d > 0,
        m <= pow2(53),
        j <= 1074,
        n == m * pow2(j) * d,
    ensures
        rounded(n, d) == m * pow2(j),
        !infinite((m * pow2(j)) as int),
{
    lemma_pow2_pos(j);
    lemma_pow2_pos(2098);
    lemma_pow2_adds(53, j);
    lemma_pow2_strictly_increases(53 + j, 2098);
    lemma_mul_inequality(m as int, pow2(53) as int, pow2(j) as int);
    lemma_mul_nonnegative(m as int, pow2(j) as int);
    lemma_rounded_at_least(n, d, m, j);
    lemma_rounded_at_most(n, d, m, j);
}

/// A sum that is in 53 bits exactly is not rounded.
pub proof fn lemma_sum_not_rounded(x: nat, y: nat, m: nat, j: nat)
    requires
        m <= pow2(53),
        j <= 1074,
        x + y == m * pow2(j),
    ensures
        sum(Some(x as int), Some(y as int)) == Some((x + y) as int),
        !infinite((x + y) as int),
{
    lemma_pow2_pos(2098);
    assert(m * pow2(j) * 1 == m * pow2(j));
    lemma_not_rounded(x + y, 1, m, j);
    lemma_mul_nonnegative(m as int, pow2(j) as int);
}

/// The place half-way up from the middle: no lower than the middle, where there
/// are no more than 2^53 places.
pub proof fn lemma_back_half(len: nat, draw: u32)
    requires
        len <= pow2(53),
    ensures
        floor_of(sum(Some(half_of(len)), part(half_of(len), draw))) >= len / 2,
{
    let unit = pow2(1073);
    let half = half_of(len);
    lemma2_to64();
    lemma2_to64_rest();
    lemma_pow2_pos(1073);
    lemma_pow2_pos(2098);
    lemma_pow2_unfold(1074);
    lemma_pow2_adds(53, 1073);
    lemma_pow2_strictly_increases(1126, 2097);
    lemma_pow2_strictly_increases(2097, 2098);
    lemma_mul_inequality(len as int, pow2(53) as int, unit as int);
    lemma_exact(len, 1073);
    lemma_mul_nonnegative(len as int, unit as int);
    assert(half == len * unit && !infinite(half));
    let x = half + part(half, draw)->0;
    assert(len * pow2(1073) * 1 == len * pow2(1073));
    lemma_rounded_at_least(x as nat, 1, len, 1073);
    lemma_div_is_ordered((len * unit) as int, rounded(x as nat, 1) as int, pow2(1074) as int);
    if infinite(part(half, draw)->0) {
        lemma_div_is_ordered((len * unit) as int, beyond() as int, pow2(1074) as int);
    }
    assert(len * unit / (2 * unit) == len / 2) by {
        lemma_div_denominator((len * unit) as int, unit as int, 2);
        lemma_div_multiples_vanish(len as int, unit as int);
        lemma_mul_is_commutative(len as int, unit as int);
        lemma_mul_is_commutative(2, unit as int);
    }
}

/// Whole milliseconds are a number of microseconds that a double holds: in eighths of
/// them there are 53 bits.
proof fn lemma_thousands(n: nat)
    requires
        n * 1000 <= 0x100_0000_0000_0000,
    ensures
        n * 125 <= pow2(53),
        (n * 1000) * pow2(1074) == (n * 125) * pow2(1077),
        in_53_bits((n * 1000) * pow2(1074), 1) == (n * 1000) * pow2(1074),
        number(n * 1000) == (n * 1000) * pow2(1074),
        (n * 1000) * pow2(1074) < beyond(),
        n * pow2(1074) < beyond(),
{
    let unit = pow2(1074);
    lemma2_to64();
    lemma2_to64_rest();
    lemma_pow2_pos(1074);
    lemma_pow2_adds(3, 1074);
    lemma_pow2_adds(56, 1074);
    lemma_pow2_strictly_increases(1130, 2098);
    lemma_mul_inequality((n * 1000) as int, pow2(56) as int, unit as int);
    lemma_mul_inequality(n as int, pow2(56) as int, unit as int);
    assert((n * 1000) * unit == (n * 125) * (8 * unit)) by (nonlinear_arith);
    lemma_exact(n * 125, 1077);
}

/// Whole milliseconds are exactly a thousand microseconds each.
pub proof fn law_whole_milliseconds(n: nat)
    requires
        n * 1000 <= 0x100_0000_0000_0000,
    ensures
        micros_of((n * pow2(1074)) as int) == n * 1000,
        edge_of(Some((n * pow2(1074)) as int)) == n * 1000,
{
    lemma2_to64();
    lemma2_to64_rest();
    lemma_pow2_pos(1074);
    if n == 0 {
        assert(n * pow2(1074) == 0);
    } else {
        lemma_mul_strictly_positive(n as int, pow2(1074) as int);
        assert((n * pow2(1074)) * 1000 == (n * 1000) * pow2(1074)) by (nonlinear_arith);
        lemma_thousands(n);
        Double::lemma_whole(n * 1000, 1074);
        assert((n * 1000) * pow2(0) == n * 1000);
    }
}

// ── milliseconds ────────────────────────────────────────────────────────

/// `us` microseconds in milliseconds, as a count of 2^-1074: the number, and its
/// thousandth, each to the nearest double.
pub open spec fn millis_of(us: int) -> int {
    if us < 0 {
        -rounded(number((-us) as nat) as nat, 1000)
    } else {
        rounded(number(us as nat) as nat, 1000) as int
    }
}

/// Whether an instant comes no later than `until` milliseconds. None is known to
/// come before a NaN.
pub open spec fn comes_by(us: i64, until: Option<int>) -> bool {
    until matches Some(t) && millis_of(us as int) <= t
}

impl Double {
    /// `n` microseconds in milliseconds.
    fn of_some_micros(n: u64) -> (r: Self)
        ensures
            !r.is_nan(),
            !r.negative(),
            r.scaled() == rounded(number(n as nat) as nat, 1000),
    {
        proof {
            lemma2_to64();
            lemma2_to64_rest();
            lemma_pow2_pos(1074);
        }
        let whole = Self::of_number(n);
        if n == 0 {
            proof {
                assert(0nat * pow2(1074) == 0);
                lemma_rounded_zero(1);
                lemma_rounded_zero(1000);
            }
            return Self::zero();
        }
        let m: u64 = whole.exec_significand();
        let k: u32 = whole.exec_power();
        proof {
            whole.lemma_parts();
            whole.lemma_value();
            lemma_mul_inequality(1, n as int, pow2(1074) as int);
            assert(n as nat * pow2(1074) >= 1 * pow2(1074) * 1);
            lemma_rounded_at_least(n as nat * pow2(1074), 1, 1, 1074);
            lemma_pow2_strictly_increases(1074, 2098);
            assert(whole.scaled() >= pow2(1074));
            if k < 1021 {
                lemma_pow2_pos(k as nat);
                lemma_pow2_adds(53, k as nat);
                lemma_mul_strict_inequality(m as int, pow2(53) as int, pow2(k as nat) as int);
                lemma_pow2_strictly_increases((53 + k) as nat, 1074);
                assert(false);
            }
        }
        // room for the quotient
        let p: u128 = power_of_two(20);
        proof {
            assert(p == 0x10_0000);
            assert(m * p <= 0x20_0000_0000_0000 * 0x10_0000) by (nonlinear_arith)
                requires
                    0 <= m <= 0x20_0000_0000_0000,
                    p == 0x10_0000,
            ;
            assert(m * p >= 0x10_0000_0000_0000 * 0x10_0000) by (nonlinear_arith)
                requires
                    m >= 0x10_0000_0000_0000,
                    p == 0x10_0000,
            ;
            lemma_pow2_adds(20, (k - 20) as nat);
            lemma_mul_is_associative(m as int, p as int, pow2((k - 20) as nat) as int);
        }
        nearest(m as u128 * p, 1000, k - 20)
    }

    /// `us` microseconds in milliseconds.
    pub fn of_micros(us: i64) -> (r: Self)
        ensures
            !r.is_nan(),
            r.scaled() == millis_of(us as int),
            us >= 0 ==> !r.negative(),
    {
        if us >= 0 {
            Self::of_some_micros(us as u64)
        } else {
            let size: u64 = (-(us as i128)) as u64;
            Self::of_some_micros(size).minus()
        }
    }

    /// More bits are a larger size.
    proof fn lemma_size_order(a: Double, b: Double)
        requires
            a.unsigned_bits() < b.unsigned_bits(),
        ensures
            a.significand() * pow2(a.power()) < b.significand() * pow2(b.power()),
    {
        a.lemma_parts();
        b.lemma_parts();
        lemma2_to64();
        lemma2_to64_rest();
        lemma_pow2_pos(a.power());
        lemma_pow2_pos(b.power());
        lemma_fundamental_div_mod(a.unsigned_bits() as int, UNIT as int);
        lemma_fundamental_div_mod(b.unsigned_bits() as int, UNIT as int);
        lemma_div_is_ordered(a.unsigned_bits() as int, b.unsigned_bits() as int, UNIT as int);
        if a.power() == b.power() {
            lemma_mul_strict_inequality(a.significand() as int, b.significand() as int, pow2(a.power()) as int);
        } else {
            let pa = pow2(a.power());
            lemma_pow2_unfold((a.power() + 1) as nat);
            if a.power() + 1 < b.power() {
                lemma_pow2_strictly_increases((a.power() + 1) as nat, b.power());
            }
            assert(a.significand() * pa < b.significand() * pow2(b.power())) by (nonlinear_arith)
                requires
                    a.significand() < pow2(53),
                    pow2(53) == 2 * pow2(52),
                    b.significand() >= pow2(52),
                    pow2(b.power()) >= 2 * pa,
                    pa > 0,
                    pow2(52) > 0,
            ;
        }
    }

    /// No two doubles have one sign and one value.
    pub proof fn law_values_tell_doubles_apart(a: Double, b: Double)
        requires
            a.negative() == b.negative(),
            a.scaled() == b.scaled(),
        ensures
            a == b,
    {
        if a.unsigned_bits() < b.unsigned_bits() {
            Self::lemma_size_order(a, b);
        }
        if b.unsigned_bits() < a.unsigned_bits() {
            Self::lemma_size_order(b, a);
        }
    }

    /// Whether this is no more than `other`.
    pub fn at_most(self, other: Double) -> (r: bool)
        requires
            !self.is_nan(),
        ensures
            r == (other.value() matches Some(t) && self.scaled() <= t),
    {
        if other.nan() {
            return false;
        }
        proof {
            self.lemma_value();
            other.lemma_value();
            self.lemma_parts();
            other.lemma_parts();
            lemma_pow2_pos(self.power());
            lemma_pow2_pos(other.power());
            lemma_mul_nonnegative(self.significand() as int, pow2(self.power()) as int);
            lemma_mul_nonnegative(other.significand() as int, pow2(other.power()) as int);
            if self.unsigned_bits() < other.unsigned_bits() {
                Self::lemma_size_order(self, other);
            }
            if other.unsigned_bits() < self.unsigned_bits() {
                Self::lemma_size_order(other, self);
            }
        }
        let a: u64 = self.bits % SIGN;
        let b: u64 = other.bits % SIGN;
        if self.bits >= SIGN {
            if other.bits >= SIGN {
                b <= a
            } else {
                true
            }
        } else if other.bits >= SIGN {
            a == 0 && b == 0
        } else {
            a <= b
        }
    }
}

/// In a window that ends at a whole millisecond lie the instants up to it: of all
/// instants as far as doubles count single microseconds, and of whole milliseconds as
/// far as they count eight.
pub proof fn law_whole_windows(us: i64, until: Option<int>, t: nat)
    requires
        until == Some((t * pow2(1074)) as int),
        t * 1000 <= 0x20_0000_0000_0000 || (t + 1) * 1000 <= 0x100_0000_0000_0000 && us % 1000 == 0,
    ensures
        comes_by(us, until) <==> us <= t * 1000,
{
    if t * 1000 <= 0x20_0000_0000_0000 {
        lemma_windows_of_microseconds(us, until, t);
    } else {
        lemma_windows_of_milliseconds(us, until, t);
    }
}

proof fn lemma_windows_of_milliseconds(us: i64, until: Option<int>, t: nat)
    requires
        until == Some((t * pow2(1074)) as int),
        (t + 1) * 1000 <= 0x100_0000_0000_0000,
        us % 1000 == 0,
    ensures
        comes_by(us, until) <==> us <= t * 1000,
{
    let unit = pow2(1074);
    lemma2_to64();
    lemma2_to64_rest();
    lemma_pow2_pos(1074);
    lemma_pow2_pos(2098);
    lemma_mul_nonnegative(t as int, unit as int);
    lemma_thousands(t);
    lemma_thousands(t + 1);
    if us < 0 {
        lemma_rounded_zero(1);
    } else if us <= t * 1000 {
        let m = us as nat / 1000;
        assert(us == m * 1000);
        law_whole_instants(m);
        lemma_mul_inequality(m as int, t as int, unit as int);
    } else {
        let n = us as nat;
        let least = ((t + 1) * 125) as nat;
        assert(n * unit >= least * pow2(1077) * 1) by {
            lemma_mul_inequality(((t + 1) * 1000) as int, n as int, unit as int);
            assert(least * pow2(1077) * 1 == least * pow2(1077));
        }
        lemma_rounded_at_least(n * unit, 1, least, 1077);
        let v = rounded(n * unit, 1);
        assert(v >= (t + 1) * 1000 * unit);
        assert(v >= (t + 1) * unit * 1000) by (nonlinear_arith)
            requires
                v >= (t + 1) * 1000 * unit,
        ;
        assert(t + 1 <= pow2(53));
        lemma_rounded_at_least(v, 1000, t + 1, 1074);
        lemma_mul_strict_inequality(t as int, (t + 1) as int, unit as int);
    }
}

proof fn lemma_windows_of_microseconds(us: i64, until: Option<int>, t: nat)
    requires
        until == Some((t * pow2(1074)) as int),
        t * 1000 <= 0x20_0000_0000_0000,
    ensures
        comes_by(us, until) <==> us <= t * 1000,
{
    let unit = pow2(1074);
    let n = if us < 0 {
        0nat
    } else {
        us as nat
    };
    lemma2_to64();
    lemma2_to64_rest();
    lemma_pow2_pos(1074);
    lemma_pow2_pos(2098);
    lemma_pow2_adds(53, 1074);
    lemma_pow2_strictly_increases(1127, 2098);
    lemma_mul_inequality(t as int, pow2(53) as int, unit as int);
    let top = (t * 1000) as nat;
    if n <= top {
        lemma_exact(n, 1074);
        assert(n * unit * 1 == n * unit);
        assert(n * unit <= t * unit * 1000) by (nonlinear_arith)
            requires
                n <= t * 1000,
                unit > 0,
        ;
        let v = rounded(n * unit, 1);
        lemma_rounded_at_most(n * unit, 1, n, 1074);
        assert(v <= n * unit);
        lemma_rounded_at_most(v, 1000, t, 1074);
    } else {
        let least = (top + 1) as nat;
        assert(n * unit >= least * unit) by (nonlinear_arith)
            requires
                n >= least,
                unit > 0,
        ;
        assert(least * unit * 1 == least * unit);
        assert(least <= pow2(53));
        lemma_rounded_at_least(n * unit, 1, least, 1074);
        let v = rounded(n * unit, 1);
        assert(least * unit <= beyond()) by {
            lemma_mul_inequality(least as int, pow2(53) as int, unit as int);
            lemma_pow2_adds(53, 1074);
            lemma_pow2_strictly_increases(1127, 2098);
        }
        assert(v >= least * unit);
        if t < 0x800_0000_0000 {
            // a little more than t, in no more than 53 bits
            let fine = pow2(1064);
            let more = (t * 1024 + 1) as nat;
            lemma_pow2_adds(10, 1064);
            lemma_pow2_pos(1064);
            assert(v >= more * fine * 1000) by (nonlinear_arith)
                requires
                    v >= least * unit,
                    least == t * 1000 + 1,
                    unit == 1024 * fine,
                    more == t * 1024 + 1,
                    fine > 0,
            ;
            lemma_rounded_at_least(v, 1000, more, 1064);
            assert(more * fine > t * unit) by (nonlinear_arith)
                requires
                    more == t * 1024 + 1,
                    unit == 1024 * fine,
                    fine > 0,
            ;
        } else {
            // here a thousandth is more than half of what the last bit is worth
            let fine = pow2(1065);
            let m = (t * 512) as nat;
            lemma_pow2_adds(9, 1065);
            lemma_pow2_pos(1065);
            assert(2 * v > (2 * m + 1) * fine * 1000) by (nonlinear_arith)
                requires
                    v >= least * unit,
                    least == t * 1000 + 1,
                    unit == 512 * fine,
                    m == t * 512,
                    fine > 0,
            ;
            lemma_rounded_up(v, 1000, m, 1065);
            assert((m + 1) * fine > t * unit) by (nonlinear_arith)
                requires
                    m == t * 512,
                    unit == 512 * fine,
                    fine > 0,
            ;
        }
    }
}

/// The end of a window of `ms` milliseconds from `now`, as a count of 2^-1074
/// milliseconds.
pub open spec fn window_from(now: i64, ms: Option<int>) -> Option<int> {
    sum(Some(millis_of(now as int)), Some(not_below_zero(ms)))
}

/// A whole number of no more than 53 bits is its own double.
pub proof fn law_whole_numbers(n: nat)
    requires
        n <= 0x20_0000_0000_0000,
    ensures
        number(n) == n * pow2(1074),
{
    lemma2_to64_rest();
    lemma_pow2_pos(1074);
    lemma_pow2_adds(53, 1074);
    lemma_pow2_strictly_increases(1127, 2098);
    lemma_mul_inequality(n as int, pow2(53) as int, pow2(1074) as int);
    lemma_exact(n, 1074);
}

/// A whole millisecond is exactly that many milliseconds.
pub proof fn law_whole_instants(a: nat)
    requires
        a * 1000 <= 0x100_0000_0000_0000,
    ensures
        millis_of((a * 1000) as int) == a * pow2(1074),
        !infinite((a * pow2(1074)) as int),
{
    let unit = pow2(1074);
    let n = a * 1000;
    lemma2_to64();
    lemma2_to64_rest();
    lemma_pow2_pos(1074);
    lemma_pow2_pos(2098);
    lemma_thousands(a);
    lemma_mul_nonnegative(a as int, unit as int);
    assert(n * unit == a * unit * 1000) by (nonlinear_arith)
        requires
            n == a * 1000,
    ;
    lemma_rounded_at_least(n * unit, 1000, a, 1074);
    lemma_rounded_at_most(n * unit, 1000, a, 1074);
}

/// How far the millisecond `t` is ahead of the millisecond `a`.
pub proof fn law_whole_differences(t: int, a: nat)
    requires
        a * 1000 <= 0x100_0000_0000_0000,
        t * 1000 <= 0x100_0000_0000_0000,
    ensures
        not_below_zero(sum(Some(t * pow2(1074)), Some(-(a * pow2(1074))))) == (if t > a {
            (t - a) * pow2(1074)
        } else {
            0
        }),
{
    let unit = pow2(1074);
    lemma_pow2_pos(1074);
    lemma_pow2_pos(2098);
    law_whole_instants(a);
    lemma_mul_nonnegative(a as int, unit as int);
    lemma_mul_is_distributive_sub_other_way(unit as int, t, a as int);
    if t > a {
        law_whole_instants(t as nat);
        lemma2_to64_rest();
        lemma_mul_nonnegative(t, unit as int);
        lemma_mul_nonnegative(t - a, unit as int);
        lemma_exact((t - a) as nat, 1074);
        law_whole_instants((t - a) as nat);
        lemma_mul_strictly_positive(t - a, unit as int);
        assert(t * unit - a * unit == (t - a) * unit);
        assert(sum(Some(t * unit), Some(-(a * unit))) == Some((t - a) * unit));
    } else {
        lemma_mul_inequality(t, a as int, unit as int);
        lemma_rounded_zero(1);
        let x = t * unit;
        let y = -(a * unit);
        assert(x + y <= 0);
        assert(rounded_int(x + y) <= 0);
    }
}

/// From a whole millisecond, a window of whole milliseconds ends at one.
pub proof fn law_whole_windows_add_up(now: i64, ms: Option<int>, a: nat, b: nat)
    requires
        now == a * 1000,
        ms == Some((b * pow2(1074)) as int),
        (a + b) * 1000 <= 0x100_0000_0000_0000,
    ensures
        window_from(now, ms) == Some(((a + b) * pow2(1074)) as int),
{
    let unit = pow2(1074);
    lemma2_to64();
    lemma2_to64_rest();
    lemma_pow2_pos(1074);
    lemma_pow2_pos(2098);
    lemma_mul_nonnegative(b as int, unit as int);
    lemma_mul_nonnegative(a as int, unit as int);
    law_whole_instants(a);
    law_whole_instants(b);
    law_whole_instants(a + b);
    lemma_mul_is_distributive_add_other_way(unit as int, a as int, b as int);
    lemma_exact(a + b, 1074);
}

} // verus!

//! Doubles, held as the 64 bits of their binary64 encoding: the milliseconds and
//! the probabilities that a session stores. What the simulation does with one of
//! them (is it above zero, which draw falls below it, how many microseconds is
//! it) is computed here on the bits, in whole numbers.

use vstd::arithmetic::div_mod::*;
use vstd::arithmetic::mul::*;
use vstd::arithmetic::power2::*;
use vstd::prelude::*;
use crate::arith::{edge_of, lemma_in_53_bits_scaled};

verus! {

/// The sign bit.
pub const SIGN: u64 = 0x8000_0000_0000_0000;

/// One step of the exponent, and the leading bit of a significand.
pub const UNIT: u64 = 0x10_0000_0000_0000;

/// The bits of infinity; above them stand the NaNs.
pub const INFINITE: u64 = 0x7ff0_0000_0000_0000;

/// A double, by its bits.
#[derive(Clone, Copy, Debug, PartialEq, Eq, Structural)]
pub struct Double {
    pub bits: u64,
}

/// `n` divided by `d`, to the nearest whole number, and to the even one of two
/// that are equally near.
pub open spec fn nearest_even(n: nat, d: nat) -> nat {
    if 2 * (n % d) > d || (2 * (n % d) == d && (n / d) % 2 == 1) {
        n / d + 1
    } else {
        n / d
    }
}

/// How many bits `n` has beyond the 53 that a significand holds.
pub open spec fn excess_bits(n: nat) -> nat
    decreases n,
{
    if n < pow2(53) {
        0
    } else {
        proof {
            lemma_pow2_pos(53);
        }
        1 + excess_bits(n / 2)
    }
}

/// `n` / `d` in 53 bits: the nearest number with no more of them before its zeros,
/// the even one of two that are equally near.
pub open spec fn in_53_bits(n: nat, d: nat) -> nat {
    nearest_even(n, d * pow2(excess_bits(n / d))) * pow2(excess_bits(n / d))
}

/// `x`, a count of 2^-1074, to the nearest whole number, the upper of two that are
/// equally near, as far as an `i64` goes.
pub open spec fn whole_of(x: nat) -> int {
    let n: nat = (x + pow2(1073)) / pow2(1074);
    if n > i64::MAX {
        i64::MAX as int
    } else {
        n as int
    }
}

/// The microseconds of `x` milliseconds, counted in 2^-1074: the thousandfold, in
/// 53 bits, to the nearest whole number. None where that is not above zero.
pub open spec fn micros_of(x: int) -> int {
    if x <= 0 {
        0
    } else {
        whole_of(in_53_bits((x * 1000) as nat, 1))
    }
}

impl Double {
    pub open spec fn negative(self) -> bool {
        self.bits >= SIGN
    }

    /// The bits without the sign: the exponent, then the fraction.
    pub open spec fn unsigned_bits(self) -> nat {
        (self.bits % SIGN) as nat
    }

    pub open spec fn is_nan(self) -> bool {
        self.unsigned_bits() > INFINITE
    }

    pub open spec fn significand(self) -> nat {
        if self.unsigned_bits() < UNIT {
            self.unsigned_bits()
        } else {
            UNIT as nat + self.unsigned_bits() % (UNIT as nat)
        }
    }

    /// The exponent of two that goes with the significand, counted from the
    /// smallest.
    pub open spec fn power(self) -> nat {
        if self.unsigned_bits() < UNIT {
            0
        } else {
            (self.unsigned_bits() / (UNIT as nat) - 1) as nat
        }
    }

    /// The value, as a count of 2^-1074. An infinity counts as the power of two
    /// after the largest finite value.
    pub open spec fn scaled(self) -> int {
        let size = self.significand() * pow2(self.power());
        if self.negative() {
            -size
        } else {
            size as int
        }
    }

    /// Whether this is above zero. No NaN is.
    pub open spec fn positive(self) -> bool {
        !self.is_nan() && self.scaled() > 0
    }

    /// This, where it is above zero, and zero otherwise.
    pub open spec fn above_zero(self) -> Double {
        if self.positive() {
            self
        } else {
            Double { bits: 0 }
        }
    }

    /// Whether `draw`, taken as a count of 2^-32, is below this.
    pub open spec fn exceeds_draw(self, draw: u32) -> bool {
        self.positive() && draw * pow2(1042) < self.scaled()
    }

    /// These milliseconds in microseconds. None where this is not above zero.
    pub open spec fn micros(self) -> int {
        if !self.positive() {
            0
        } else {
            micros_of(self.scaled())
        }
    }

    /// These milliseconds in microseconds, on both sides of zero. A NaN is none.
    pub open spec fn signed_micros(self) -> int {
        edge_of(self.value())
    }

    /// This to the nearest whole number, the upper of two that are equally near,
    /// as a count of 2^-1074. For values above zero.
    pub open spec fn rounded_up_at_half(self) -> nat {
        (((self.scaled() + pow2(1073)) / pow2(1074) as int) * pow2(1074)) as nat
    }

    /// Whether this is `of` to the nearest whole number, the upper of two that
    /// are equally near; zero where that is not above zero.
    pub open spec fn is_whole_of(self, of: Double) -> bool {
        if of.positive() {
            !self.is_nan() && !self.negative() && self.scaled() == of.rounded_up_at_half()
        } else {
            self.bits == 0
        }
    }
}

// ── powers of two ───────────────────────────────────────────────────────

/// 2^`k`.
fn power_of_two(k: u32) -> (r: u64)
    requires
        k < 64,
    ensures
        r == pow2(k as nat),
{
    proof {
        lemma2_to64();
        lemma_pow2_strictly_increases(k as nat, 64);
    }
    let mut r: u64 = 1;
    let mut i: u32 = 0;
    while i < k
        invariant
            i <= k < 64,
            r == pow2(i as nat),
        decreases k - i,
    {
        proof {
            lemma_pow2_unfold((i + 1) as nat);
            lemma2_to64();
            lemma2_to64_rest();
            if i + 1 < 63 {
                lemma_pow2_strictly_increases((i + 1) as nat, 63);
            }
        }
        r = r * 2;
        i = i + 1;
    }
    r
}

/// Division does not see a factor that both numbers have.
proof fn lemma_common_factor(n: nat, d: nat, c: nat)
    requires
        0 < d,
        0 < c,
    ensures
        (n * c) / (d * c) == n / d,
{
    lemma_mul_nonnegative(n as int, c as int);
    lemma_div_denominator((n * c) as int, c as int, d as int);
    lemma_div_multiples_vanish(n as int, c as int);
    lemma_mul_is_commutative(n as int, c as int);
    lemma_mul_is_commutative(d as int, c as int);
}

/// `n` * 2^`e`, and half a unit, in units of 2^1074, is `n` and half a unit of
/// 2^(1074 - `e`).
proof fn lemma_rounding_place(n: nat, e: nat)
    requires
        e < 1074,
    ensures
        (n * pow2(e) + pow2(1073)) / pow2(1074) == (n + pow2((1073 - e) as nat)) / pow2((1074 - e) as nat),
{
    let k = (1074 - e) as nat;
    let h = (1073 - e) as nat;
    lemma_pow2_adds(h, e);
    lemma_pow2_adds(k, e);
    lemma_pow2_pos(e);
    lemma_pow2_pos(k);
    lemma_mul_is_distributive_add_other_way(pow2(e) as int, n as int, pow2(h) as int);
    assert((n + pow2(h)) * pow2(e) == n * pow2(e) + pow2(h) * pow2(e));
    lemma_common_factor(n + pow2(h), pow2(k), pow2(e));
}

proof fn lemma_small_rounds_to_none(n: nat, e: nat)
    requires
        n <= pow2(53),
        e < 1020,
    ensures
        (n * pow2(e) + pow2(1073)) / pow2(1074) == 0,
{
    lemma_rounding_place(n, e);
    let h = (1073 - e) as nat;
    lemma_pow2_unfold((1074 - e) as nat);
    lemma_pow2_strictly_increases(53, h);
    lemma_basic_div((n + pow2(h)) as int, pow2((1074 - e) as nat) as int);
}

/// Microseconds are within an `i64`, and not below zero.
pub proof fn lemma_micros_of(x: int)
    ensures
        0 <= micros_of(x) <= i64::MAX,
{
    lemma_pow2_pos(1074);
    if x > 0 {
        lemma_div_pos_is_pos((in_53_bits((x * 1000) as nat, 1) + pow2(1073)) as int, pow2(1074) as int);
    }
}

/// `q` * 2^`shift`, a count of 2^-1074, to the nearest whole number.
fn nearest_whole(q: u64, shift: u32) -> (r: i64)
    requires
        q <= 0x20_0000_0000_0000,
        shift > 0 ==> q >= 0x10_0000_0000_0000,
    ensures
        r == whole_of(q as nat * pow2(shift as nat)),
        0 <= r,
{
    proof {
        lemma2_to64();
        lemma2_to64_rest();
    }
    if shift >= 1074 {
        let t: u32 = shift - 1074;
        proof {
            Double::lemma_whole(q as nat, shift as nat);
        }
        if t >= 11 {
            proof {
                lemma_pow2_strictly_increases(10, t as nat);
                if t > 11 {
                    lemma_pow2_strictly_increases(11, t as nat);
                }
                assert(q >= 0x10_0000_0000_0000);
                assert(q * pow2(t as nat) >= 0x10_0000_0000_0000 * 2048) by (nonlinear_arith)
                    requires
                        q >= 0x10_0000_0000_0000,
                        pow2(t as nat) >= 2048,
                ;
            }
            return i64::MAX;
        }
        let p: u64 = power_of_two(t);
        proof {
            lemma_pow2_strictly_increases(t as nat, 11);
            assert(q * p <= 0x20_0000_0000_0000 * 2048) by (nonlinear_arith)
                requires
                    0 <= q <= 0x20_0000_0000_0000,
                    0 <= p <= 2048,
            ;
        }
        let us: u128 = q as u128 * (p as u128);
        return if us > i64::MAX as u128 {
            i64::MAX
        } else {
            us as i64
        };
    }
    if shift < 1020 {
        proof {
            lemma_small_rounds_to_none(q as nat, shift as nat);
        }
        return 0;
    }
    let k: u32 = 1074 - shift;
    let half: u64 = power_of_two(k - 1);
    let whole: u64 = power_of_two(k);
    proof {
        lemma_rounding_place(q as nat, shift as nat);
        lemma_pow2_unfold(k as nat);
        if k < 54 {
            lemma_pow2_strictly_increases(k as nat, 54);
        }
        assert((q + half) as int / whole as int <= q + half) by (nonlinear_arith)
            requires
                q + half >= 0,
                whole >= 1,
        ;
    }
    ((q + half) / whole) as i64
}

// ── the operations ──────────────────────────────────────────────────────

impl Double {
    pub proof fn lemma_parts(self)
        ensures
            self.significand() < pow2(53),
            self.power() < 2047,
            self.unsigned_bits() > 0 <==> self.significand() > 0,
            self.power() > 0 ==> self.significand() >= pow2(52),
            self.scaled() > 0 <==> !self.negative() && self.unsigned_bits() > 0,
            self.unsigned_bits() == (if self.unsigned_bits() < UNIT {
                self.significand()
            } else {
                (self.power() * UNIT + self.significand()) as nat
            }),
    {
        lemma2_to64_rest();
        let u = self.unsigned_bits();
        assert(u < SIGN);
        lemma_fundamental_div_mod(u as int, UNIT as int);
        lemma_pow2_pos(self.power());
        lemma_mul_nonnegative(self.significand() as int, pow2(self.power()) as int);
        if self.significand() > 0 {
            lemma_mul_strictly_positive(self.significand() as int, pow2(self.power()) as int);
        } else {
            lemma_mul_basics(pow2(self.power()) as int);
        }
    }

    /// The microseconds of a double are within an `i64`, and not below zero.
    pub proof fn lemma_micros(self)
        ensures
            0 <= self.micros() <= i64::MAX,
            -i64::MAX <= self.signed_micros() <= i64::MAX,
    {
        lemma_micros_of(self.scaled());
        lemma_micros_of(-self.scaled());
    }

    pub(crate) fn exec_significand(self) -> (r: u64)
        ensures
            r == self.significand(),
    {
        let u: u64 = self.bits % SIGN;
        if u < UNIT {
            u
        } else {
            UNIT + u % UNIT
        }
    }

    pub(crate) fn exec_power(self) -> (r: u32)
        ensures
            r == self.power(),
            r < 2047,
    {
        proof {
            self.lemma_parts();
        }
        let u: u64 = self.bits % SIGN;
        if u < UNIT {
            0
        } else {
            (u / UNIT - 1) as u32
        }
    }

    pub fn zero() -> (r: Self)
        ensures
            r.bits == 0,
            !r.positive(),
            !r.is_nan(),
            !r.negative(),
            r.scaled() == 0,
    {
        let r = Double { bits: 0 };
        proof {
            r.lemma_parts();
            lemma_mul_basics(pow2(0) as int);
        }
        r
    }

    /// Whether this is above zero.
    pub fn is_positive(self) -> (r: bool)
        ensures
            r == self.positive(),
    {
        proof {
            self.lemma_parts();
        }
        0 < self.bits && self.bits <= INFINITE
    }

    /// This, where it is above zero, and zero otherwise.
    pub fn max_zero(self) -> (r: Self)
        ensures
            r == self.above_zero(),
            !r.is_nan(),
            !r.negative(),
            r.scaled() == (if self.positive() {
                self.scaled()
            } else {
                0
            }),
    {
        proof {
            self.lemma_parts();
        }
        if self.is_positive() {
            self
        } else {
            Self::zero()
        }
    }

    /// Whether `draw`, taken as a count of 2^-32, is below this.
    pub fn above_draw(self, draw: u32) -> (r: bool)
        ensures
            r == self.exceeds_draw(draw),
    {
        if !self.is_positive() {
            return false;
        }
        let m: u64 = self.exec_significand();
        let e: u32 = self.exec_power();
        proof {
            self.lemma_parts();
            lemma2_to64();
            lemma2_to64_rest();
        }
        if e >= 1042 {
            proof {
                let k = (e - 1042) as nat;
                lemma_pow2_adds(k, 1042);
                lemma_pow2_pos(1042);
                lemma_pow2_pos(k);
                lemma_mul_is_associative(m as int, pow2(k) as int, pow2(1042) as int);
                lemma_mul_increases(pow2(k) as int, m as int);
                lemma_mul_is_commutative(pow2(k) as int, m as int);
                lemma_mul_strict_inequality(draw as int, (m * pow2(k)) as int, pow2(1042) as int);
            }
            return true;
        }
        let k: u32 = 1042 - e;
        proof {
            lemma_pow2_adds(k as nat, e as nat);
            lemma_pow2_pos(e as nat);
            lemma_pow2_pos(k as nat);
            lemma_mul_is_associative(draw as int, pow2(k as nat) as int, pow2(e as nat) as int);
            // draw * 2^k * 2^e < m * 2^e, exactly where draw * 2^k < m
            if draw * pow2(k as nat) < m {
                lemma_mul_strict_inequality(draw * pow2(k as nat), m as int, pow2(e as nat) as int);
            } else {
                lemma_mul_inequality(m as int, draw * pow2(k as nat), pow2(e as nat) as int);
            }
        }
        if k >= 53 {
            proof {
                if k > 53 {
                    lemma_pow2_strictly_increases(53, k as nat);
                }
                if draw > 0 {
                    lemma_mul_increases(draw as int, pow2(k as nat) as int);
                } else {
                    lemma_mul_basics(pow2(k as nat) as int);
                }
            }
            return draw == 0;
        }
        let p: u64 = power_of_two(k);
        proof {
            lemma_pow2_strictly_increases(k as nat, 53);
            assert(draw * p <= 0xffff_ffff * 0x20_0000_0000_0000) by (nonlinear_arith)
                requires
                    0 <= draw <= 0xffff_ffff,
                    0 <= p <= 0x20_0000_0000_0000,
            ;
        }
        draw as u128 * (p as u128) < m as u128
    }

    /// These milliseconds in microseconds.
    pub fn to_micros(self) -> (r: i64)
        ensures
            r == self.micros(),
            0 <= r,
    {
        if !self.is_positive() {
            return 0;
        }
        let m: u64 = self.exec_significand();
        let e: u32 = self.exec_power();
        proof {
            self.lemma_parts();
            lemma2_to64();
            lemma2_to64_rest();
        }
        let product: u64 = m * 1000;
        // the bits beyond 53, at most ten
        let mut top: u64 = product;
        let mut excess: u32 = 0;
        proof {
            lemma_pow2_pos(0);
        }
        while top >= 0x20_0000_0000_0000
            invariant
                pow2(53) == 0x20_0000_0000_0000,
                product < 0x20_0000_0000_0000 * 1000,
                excess <= 10,
                top < 0x20_0000_0000_0000 * 1000,
                excess + excess_bits(top as nat) == excess_bits(product as nat),
                top * pow2(excess as nat) <= product,
                excess < 10 || top < 0x20_0000_0000_0000,
            decreases top,
        {
            proof {
                let e0 = excess as nat;
                lemma_pow2_unfold((e0 + 1) as nat);
                lemma_pow2_pos(e0);
                lemma_mul_is_associative((top / 2) as int, 2, pow2(e0) as int);
                lemma_mul_inequality(((top / 2) * 2) as int, top as int, pow2(e0) as int);
                if excess + 1 >= 10 && top / 2 >= 0x20_0000_0000_0000 {
                    lemma2_to64();
                    assert((e0 + 1) as nat == 10);
                    assert(pow2(10) == 1024);
                    lemma_mul_inequality(0x20_0000_0000_0000, (top / 2) as int, 1024);
                    assert(false);
                }
            }
            top = top / 2;
            excess = excess + 1;
        }
        let unit: u64 = power_of_two(excess);
        let rest: u64 = product % unit;
        let quotient: u64 = product / unit;
        proof {
            lemma_pow2_pos(excess as nat);
            lemma_mod_bound(product as int, unit as int);
            if excess < 10 {
                lemma_pow2_strictly_increases(excess as nat, 10);
            }
            lemma2_to64();
            assert(unit <= 1024);
            assert(quotient <= product) by (nonlinear_arith)
                requires
                    unit >= 1,
                    product >= 0,
                    quotient == product / unit,
            ;
        }
        let q: u64 = if 2 * rest > unit || (2 * rest == unit && quotient % 2 == 1) {
            quotient + 1
        } else {
            quotient
        };
        assert(q == nearest_even(product as nat, pow2(excess as nat)));
        proof {
            Self::lemma_excess(product as nat);
            lemma_div_basics(product as int);
            lemma_in_53_bits_scaled(product as nat, 1, e as nat);
            assert(self.scaled() * 1000 == product * pow2(e as nat)) by (nonlinear_arith)
                requires
                    self.scaled() == m * pow2(e as nat),
                    product == m * 1000,
            ;
            assert(in_53_bits((self.scaled() * 1000) as nat, 1) == q * pow2((excess + e) as nat));
        }
        nearest_whole(q, excess + e)
    }

    /// These milliseconds in microseconds, on both sides of zero.
    pub fn to_signed_micros(self) -> (r: i64)
        ensures
            r == self.signed_micros(),
            -i64::MAX <= r,
    {
        proof {
            self.lemma_parts();
            lemma_pow2_pos(self.power());
            lemma_mul_nonnegative(self.significand() as int, pow2(self.power()) as int);
        }
        if self.bits >= SIGN {
            -self.minus().to_micros()
        } else {
            self.to_micros()
        }
    }

    /// What the excess bits leave: a quotient of at most 53 bits, and of at
    /// least 52 of them where there were that many.
    proof fn lemma_excess(n: nat)
        requires
            n < pow2(53) * 1000,
        ensures
            nearest_even(n, pow2(excess_bits(n))) <= pow2(53),
            n >= pow2(52) ==> nearest_even(n, pow2(excess_bits(n))) >= pow2(52),
    {
        Self::lemma_excess_quotient(n);
        lemma_pow2_pos(excess_bits(n));
        Self::lemma_nearest(n, pow2(excess_bits(n)), pow2(53));
    }

    pub proof fn lemma_nearest(n: nat, d: nat, bound: nat)
        requires
            0 < d,
            n / d < bound,
        ensures
            n / d <= nearest_even(n, d) <= bound,
    {
        lemma_div_pos_is_pos(n as int, d as int);
    }

    pub proof fn lemma_excess_quotient(n: nat)
        ensures
            n / pow2(excess_bits(n)) < pow2(53),
            n >= pow2(52) ==> n / pow2(excess_bits(n)) >= pow2(52),
        decreases n,
    {
        lemma2_to64();
        lemma2_to64_rest();
        if n >= pow2(53) {
            let half = n / 2;
            Self::lemma_excess_quotient(half);
            let e = excess_bits(half);
            assert(excess_bits(n) == e + 1);
            lemma_pow2_unfold((e + 1) as nat);
            lemma_pow2_pos(e);
            lemma_div_denominator(n as int, 2, pow2(e) as int);
        } else {
            lemma_div_basics(n as int);
        }
    }

    /// A multiple of a power of two that is one or more is whole: half a unit
    /// changes nothing.
    pub proof fn lemma_whole(q: nat, shift: nat)
        requires
            shift >= 1074,
        ensures
            (q * pow2(shift) + pow2(1073)) / pow2(1074) == q * pow2((shift - 1074) as nat),
    {
        let t = (shift - 1074) as nat;
        lemma_pow2_adds(t, 1074);
        lemma_pow2_pos(1073);
        lemma_pow2_unfold(1074);
        lemma_mul_is_associative(q as int, pow2(t) as int, pow2(1074) as int);
        lemma_fundamental_div_mod_converse(
            (q * pow2(shift) + pow2(1073)) as int,
            pow2(1074) as int,
            (q * pow2(t)) as int,
            pow2(1073) as int,
        );
    }

    /// `n` / 2^`shift`, exactly.
    pub fn of_ratio(n: u64, shift: u32) -> (r: Self)
        requires
            n < 0x20_0000_0000_0000,
            shift <= 32,
        ensures
            !r.is_nan(),
            !r.negative(),
            r.scaled() == n * pow2((1074 - shift) as nat),
    {
        proof {
            lemma2_to64();
            lemma2_to64_rest();
        }
        if n == 0 {
            proof {
                lemma_mul_basics(pow2((1074 - shift) as nat) as int);
            }
            return Self::zero();
        }
        // move the top bit to its place
        let mut m: u64 = n;
        let mut k: u32 = 0;
        proof {
            assert(n * pow2(0) == n);
        }
        while m < UNIT
            invariant
                0 < n <= m < 0x20_0000_0000_0000,
                pow2(52) == UNIT,
                k <= 52,
                m == n * pow2(k as nat),
            decreases 0x20_0000_0000_0000 - m,
        {
            proof {
                lemma_pow2_unfold((k + 1) as nat);
                assert(n * (2 * pow2(k as nat)) == 2 * (n * pow2(k as nat))) by (nonlinear_arith);
                if k == 52 {
                    lemma_mul_inequality(1, n as int, UNIT as int);
                    assert(false);
                }
            }
            m = m * 2;
            k = k + 1;
        }
        let exponent: u64 = 1075 - shift as u64 - k as u64;
        let r = Double { bits: exponent * UNIT + (m - UNIT) };
        proof {
            assert(exponent * UNIT <= 1075 * UNIT) by (nonlinear_arith)
                requires
                    0 <= exponent <= 1075,
            ;
            let u = r.bits as int;
            assert(u < SIGN);
            lemma_small_mod(r.bits as nat, SIGN as nat);
            lemma_fundamental_div_mod_converse(u, UNIT as int, exponent as int, m - UNIT);
            assert(exponent >= 1);
            assert(r.unsigned_bits() >= UNIT) by (nonlinear_arith)
                requires
                    r.unsigned_bits() == exponent * UNIT + (m - UNIT),
                    exponent >= 1,
                    m >= UNIT,
            ;
            assert(r.significand() == m);
            assert(r.power() == exponent - 1);
            lemma_pow2_adds(k as nat, r.power());
            lemma_mul_is_associative(n as int, pow2(k as nat) as int, pow2(r.power()) as int);
            assert((k + r.power()) as nat == (1074 - shift) as nat);
        }
        r
    }

    /// This to the nearest whole number, the upper of two that are equally near, as
    /// far as an `i64` goes. For what is above zero.
    pub fn to_nearest(self) -> (r: i64)
        requires
            self.positive(),
        ensures
            r == whole_of(self.scaled() as nat),
            0 <= r,
    {
        proof {
            self.lemma_parts();
            lemma2_to64_rest();
        }
        nearest_whole(self.exec_significand(), self.exec_power())
    }

    /// This to the nearest whole number, the upper of two that are equally near.
    /// What is not above zero gives zero.
    pub fn round_above_zero(self) -> (r: Self)
        ensures
            r.is_whole_of(self),
    {
        if !self.is_positive() {
            return Double { bits: 0 };
        }
        let m: u64 = self.exec_significand();
        let e: u32 = self.exec_power();
        proof {
            self.lemma_parts();
            lemma2_to64();
            lemma2_to64_rest();
        }
        if e >= 1074 {
            proof {
                Self::lemma_whole(m as nat, e as nat);
                let t = (e - 1074) as nat;
                lemma_pow2_adds(t, 1074);
                lemma_mul_is_associative(m as int, pow2(t) as int, pow2(1074) as int);
            }
            return self;
        }
        if e < 1020 {
            proof {
                lemma_small_rounds_to_none(m as nat, e as nat);
                lemma_mul_basics(pow2(1074) as int);
            }
            return Self::zero();
        }
        let k: u32 = 1074 - e;
        let half: u64 = power_of_two(k - 1);
        let whole: u64 = power_of_two(k);
        proof {
            lemma_rounding_place(m as nat, e as nat);
            lemma_pow2_unfold(k as nat);
            if k < 54 {
                lemma_pow2_strictly_increases(k as nat, 54);
            }
            assert((m + half) as int / whole as int <= (m + half) / 2) by (nonlinear_arith)
                requires
                    m + half >= 0,
                    whole >= 2,
            ;
        }
        let r = Self::of_ratio((m + half) / whole, 0);
        r
    }
}

} // verus!

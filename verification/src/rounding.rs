//! What a double is, and what it means to round to one or to a whole number.

use vstd::arithmetic::div_mod::{lemma_fundamental_div_mod, lemma_fundamental_div_mod_converse};
use vstd::arithmetic::mul::*;
use vstd::arithmetic::power2::{
    lemma2_to64, lemma2_to64_rest, lemma_pow2_adds, lemma_pow2_pos, pow2,
};
use vstd::prelude::*;
use crate::double::{excess_bits, in_53_bits, micros_of, nearest_even, whole_of, Double};
use crate::arith::{edge_of, lemma_not_rounded, lemma_sum_not_rounded, millis_of, sum};

verus! {

// ── what a double is ────────────────────────────────────────────────────

/// The doubles above zero stand in the order of their bits: the next one is larger by
/// the power of two that goes with it.
pub proof fn law_the_next_double(bits: u64)
    requires
        bits < 0x7ff0_0000_0000_0000,
    ensures
        (Double { bits: (bits + 1) as u64 }).scaled() == (Double { bits }).scaled() + pow2((Double { bits }).power()),
        (Double { bits: 0 }).scaled() == 0,
{
    let d = Double { bits };
    let e = Double { bits: (bits + 1) as u64 };
    let unit: nat = 0x10_0000_0000_0000;
    let p = d.power();
    assert(d.unsigned_bits() == bits);
    assert(e.unsigned_bits() == bits + 1);
    lemma2_to64();
    lemma2_to64_rest();
    assert(0 * pow2(0) == 0);
    if bits + 1 < unit {
        assert(e.significand() == d.significand() + 1);
        assert(e.power() == p);
    } else if bits + 1 == unit {
        assert(d.significand() == unit - 1);
        assert(e.significand() == unit);
        assert(e.power() == 0);
    } else {
        let q = bits as int / unit as int;
        let r = bits as int % unit as int;
        lemma_fundamental_div_mod(bits as int, unit as int);
        if r + 1 < unit {
            lemma_fundamental_div_mod_converse(bits + 1, unit as int, q, r + 1);
            assert(e.significand() == d.significand() + 1);
            assert(e.power() == p);
        } else {
            lemma_fundamental_div_mod_converse(bits + 1, unit as int, q + 1, 0);
            assert(d.significand() == 2 * unit - 1);
            assert(e.significand() == unit);
            assert(e.power() == p + 1);
            lemma_pow2_adds(p, 1);
            assert(unit * (pow2(p) * 2) == (2 * unit - 1) * pow2(p) + pow2(p)) by (nonlinear_arith);
        }
    }
    if e.power() == p {
        assert((d.significand() + 1) * pow2(p) == d.significand() * pow2(p) + pow2(p)) by (nonlinear_arith);
    }
}

/// The sign turns a double round. What lies past the infinities is no number.
pub proof fn law_the_other_side_of_zero(bits: u64)
    requires
        bits < 0x8000_0000_0000_0000,
    ensures
        (Double { bits: (bits + 0x8000_0000_0000_0000) as u64 }).scaled() == -(Double { bits }).scaled(),
        (Double { bits }).is_nan() <==> bits > 0x7ff0_0000_0000_0000,
        (Double { bits: (bits + 0x8000_0000_0000_0000) as u64 }).is_nan() <==> bits > 0x7ff0_0000_0000_0000,
{
    let d = Double { bits };
    let e = Double { bits: (bits + 0x8000_0000_0000_0000) as u64 };
    assert(e.unsigned_bits() == bits);
    assert(d.unsigned_bits() == bits);
}

/// The power of two that goes with a double: the exponent in its bits, less one, where
/// there is one.
pub proof fn law_the_exponent_of_a_double(exponent: u64, fraction: u64)
    requires
        exponent < 0x7ff,
        fraction < 0x10_0000_0000_0000,
    ensures
        ({
            let d = Double { bits: (exponent * 0x10_0000_0000_0000 + fraction) as u64 };
            &&& exponent > 0 ==> d.scaled() == (0x10_0000_0000_0000 + fraction) * pow2((exponent - 1) as nat)
            &&& exponent == 0 ==> d.scaled() == fraction
        }),
{
    let d = Double { bits: (exponent * 0x10_0000_0000_0000 + fraction) as u64 };
    lemma2_to64();
    if exponent > 0 {
        lemma_fundamental_div_mod_converse(
            exponent * 0x10_0000_0000_0000 + fraction,
            0x10_0000_0000_0000,
            exponent as int,
            fraction as int,
        );
        assert(d.significand() == 0x10_0000_0000_0000 + fraction);
        assert(d.power() == exponent - 1);
    } else {
        assert(fraction * 1 == fraction);
    }
}

// ── rounding ────────────────────────────────────────────────────────────

/// A quotient to the nearest whole number: no whole number is nearer, and of two that
/// are equally near it is the even one.
pub proof fn law_no_whole_number_is_nearer(n: nat, d: nat, m: int)
    requires
        d > 0,
    ensures
        ({
            let q = nearest_even(n, d) as int;
            let off = if n >= q * d {
                n - q * d
            } else {
                q * d - n
            };
            let other = if n >= m * d {
                n - m * d
            } else {
                m * d - n
            };
            &&& off <= other
            &&& off == other && m != q ==> q % 2 == 0
        }),
{
    let q0 = n as int / d as int;
    let r = n as int % d as int;
    lemma_fundamental_div_mod(n as int, d as int);
    let q = nearest_even(n, d) as int;
    assert(d * q0 == q0 * d) by (nonlinear_arith);
    assert((q0 + 1) * d == q0 * d + d) by (nonlinear_arith);
    if m <= q0 {
        assert(m * d <= q0 * d) by (nonlinear_arith)
            requires
                m <= q0,
                d > 0,
        ;
        if m < q0 {
            assert(m * d <= q0 * d - d) by (nonlinear_arith)
                requires
                    m <= q0 - 1,
                    d > 0,
            ;
        }
    } else {
        assert(m * d >= q0 * d + d) by (nonlinear_arith)
            requires
                m >= q0 + 1,
                d > 0,
        ;
        if m > q0 + 1 {
            assert(m * d >= q0 * d + 2 * d) by (nonlinear_arith)
                requires
                    m >= q0 + 2,
                    d > 0,
            ;
        }
    }
}

/// A value to the nearest whole number, the upper of two: it is off by less than a half
/// below, and by no more than a half above.
pub proof fn law_the_nearest_whole_number(x: nat)
    requires
        x < 0x7fff_ffff_ffff_ffff * pow2(1074),
    ensures
        whole_of(x) * pow2(1074) <= x + pow2(1073),
        x + pow2(1073) < (whole_of(x) + 1) * pow2(1074),
{
    lemma_pow2_pos(1073);
    lemma_pow2_pos(1074);
    lemma_pow2_adds(1073, 1);
    lemma2_to64();
    let unit = pow2(1074) as int;
    let y = x + pow2(1073) as int;
    let n = y / unit;
    lemma_fundamental_div_mod(y, unit);
    assert(unit * n == n * unit) by (nonlinear_arith);
    assert((n + 1) * unit == n * unit + unit) by (nonlinear_arith);
    assert(n <= 0x7fff_ffff_ffff_ffff) by (nonlinear_arith)
        requires
            n * unit <= y,
            y < 0x7fff_ffff_ffff_ffff * unit + unit,
            unit > 0,
    ;
    assert(n >= 0) by (nonlinear_arith)
        requires
            (n + 1) * unit > y,
            y >= 0,
            unit > 0,
    ;
}

/// Milliseconds whose thousandfold a double can tell come to the nearest microsecond.
pub proof fn law_the_nearest_microsecond(x: int, m: nat, j: nat)
    requires
        x > 0,
        x * 1000 == m * pow2(j),
        m <= pow2(53),
        j <= 1074,
        x * 1000 < 0x7fff_ffff_ffff_ffff * pow2(1074),
    ensures
        micros_of(x) * pow2(1074) <= x * 1000 + pow2(1073),
        x * 1000 + pow2(1073) < (micros_of(x) + 1) * pow2(1074),
{
    let n = (x * 1000) as nat;
    assert(m * pow2(j) * 1 == m * pow2(j));
    lemma_not_rounded(n, 1, m, j);
    lemma_pow2_pos(2098);
    assert(in_53_bits(n, 1) == n);
    law_the_nearest_whole_number(n);
}

/// What is rounded away of a number of more than 53 bits are the bits behind the first
/// 53.
pub proof fn law_a_significand_has_53_bits(n: nat)
    ensures
        n < pow2(53 + excess_bits(n)),
        excess_bits(n) > 0 ==> n >= pow2(52 + excess_bits(n)),
    decreases n,
{
    lemma_pow2_pos(53);
    if n >= pow2(53) {
        let k = excess_bits(n / 2);
        law_a_significand_has_53_bits(n / 2);
        assert(excess_bits(n) == 1 + k);
        lemma_pow2_adds(53 + k, 1);
        lemma_pow2_adds(52 + k, 1);
        lemma2_to64();
        lemma_pow2_adds(52, 1);
    }
}

/// A double above zero that is rounded to a whole number lands on the nearest, the upper
/// of two.
pub proof fn law_a_rounded_double_is_the_nearest_whole_number(d: Double, of: Double)
    requires
        d.is_whole_of(of),
        !of.is_nan(),
        of.scaled() > 0,
    ensures
        exists|n: int|
            d.scaled() == #[trigger] (n * pow2(1074)) && n * pow2(1074) <= of.scaled() + pow2(1073) && of.scaled() + pow2(
                1073,
            ) < (n + 1) * pow2(1074),
{
    lemma_pow2_pos(1073);
    lemma_pow2_pos(1074);
    let unit = pow2(1074) as int;
    let y = of.scaled() + pow2(1073) as int;
    let n = y / unit;
    lemma_fundamental_div_mod(y, unit);
    assert(unit * n == n * unit) by (nonlinear_arith);
    assert((n + 1) * unit == n * unit + unit) by (nonlinear_arith);
    assert(n >= 0) by (nonlinear_arith)
        requires
            (n + 1) * unit > y,
            y >= 0,
            unit > 0,
    ;
    lemma_mul_nonnegative(n, unit);
    assert(d.scaled() == n * pow2(1074));
}

// ── both sides of zero ──────────────────────────────────────────────────

/// What is before zero is as far from it as what is behind it; a NaN is at zero.
pub proof fn law_both_sides_of_zero_are_alike(x: int, us: int)
    requires
        x > 0,
        us > 0,
    ensures
        edge_of(Some(-x)) == -edge_of(Some(x)),
        edge_of(Some(x)) == micros_of(x),
        edge_of(None) == 0,
        millis_of(-us) == -millis_of(us),
{
}

/// A sum does not depend on the order, and is what it should be where a double can tell
/// it.
pub proof fn law_sums(x: int, y: int, m: nat, j: nat)
    requires
        0 <= x,
        0 <= y,
        x + y == m * pow2(j),
        m <= pow2(53),
        j <= 1074,
    ensures
        sum(Some(x), Some(y)) == Some(x + y),
        sum(Some(y), Some(x)) == Some(x + y),
        sum(None, Some(x)) is None,
        sum(Some(x), None) is None,
{
    lemma_sum_not_rounded(x as nat, y as nat, m, j);
    lemma_sum_not_rounded(y as nat, x as nat, m, j);
}

} // verus!

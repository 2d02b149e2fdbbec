//! How numbers are written and read, and what is space around a text.

use vstd::arithmetic::power::{lemma_pow0, lemma_pow_adds, pow};
use vstd::prelude::*;
use crate::dict::bytes_before;
use crate::framedecode::{hex, hex_char, hex_list};
use crate::text::{
    all_digits, decimal, digit_char, digit_value, digits_value, is_space, lemma_decimal_reads_back, number_in,
    trimmed, without_leading_space, without_trailing_space,
};

verus! {

// ── digits ──────────────────────────────────────────────────────────────

/// The digits count from zero: `0` to `9`, then `a` to `f`, small or capital, as far as
/// the base goes. Nothing else is a digit.
pub proof fn law_digits_count_from_zero(c: char, radix: nat)
    requires
        radix <= 16,
    ensures
        digit_value(c, radix) matches Some(v) ==> v < radix && (c as int == 0x30 + v && v < 10 || c as int == 0x61 + v - 10
            && v >= 10 || c as int == 0x41 + v - 10 && v >= 10),
        digit_value(c, radix) is None ==> forall|v: int|
            0 <= v < radix ==> !(#[trigger] (0x30 + v) == c as int && v < 10) && !(0x61 + v - 10 == c as int && v >= 10)
                && !(0x41 + v - 10 == c as int && v >= 10),
{
}

/// Digits on end: those in front weigh as much more as there are digits behind them.
pub proof fn law_digits_have_a_place(front: Seq<char>, back: Seq<char>, radix: nat)
    ensures
        digits_value(front + back, radix) == digits_value(front, radix) * pow(radix as int, back.len()) + digits_value(
            back,
            radix,
        ),
    decreases back.len(),
{
    let all = front + back;
    if back.len() == 0 {
        lemma_pow0(radix as int);
        assert(all =~= front);
        assert(digits_value(front, radix) * 1 == digits_value(front, radix));
    } else {
        let short = back.drop_last();
        let n = short.len();
        assert(all.drop_last() =~= front + short);
        assert(all.last() == back.last());
        law_digits_have_a_place(front, short, radix);
        lemma_pow_adds(radix as int, n, 1);
        vstd::arithmetic::power::lemma_pow1(radix as int);
        let f = digits_value(front, radix) as int;
        let p = pow(radix as int, n);
        let s = digits_value(short, radix) as int;
        assert((f * p + s) * radix == f * (p * radix) + s * radix) by (nonlinear_arith);
    }
}

/// What is read as a number is its digits, behind a plus sign or none; what has no
/// digits, another character among them, or is too large, is no number.
pub proof fn law_numbers_are_their_digits(s: Seq<char>, radix: nat, max: nat)
    requires
        s.len() > 0,
        s[0] != '+',
    ensures
        all_digits(s, radix) && digits_value(s, radix) <= max ==> number_in(s, radix, max) == Some(
            digits_value(s, radix),
        ) && number_in(seq!['+'] + s, radix, max) == Some(digits_value(s, radix)),
        !all_digits(s, radix) || digits_value(s, radix) > max ==> number_in(s, radix, max) is None && number_in(
            seq!['+'] + s,
            radix,
            max,
        ) is None,
        number_in(Seq::empty(), radix, max) is None,
        number_in(seq!['+'], radix, max) is None,
{
    assert((seq!['+'] + s).drop_first() =~= s);
    assert(seq!['+'].drop_first() =~= Seq::<char>::empty());
}

/// A number in decimal is read back as that number.
pub proof fn law_decimals_read_back(n: nat, max: nat)
    requires
        n <= max,
    ensures
        number_in(decimal(n), 10, max) == Some(n),
        n < 10 ==> decimal(n).len() == 1,
        n >= 10 ==> decimal(n)[0] != '0',
{
    lemma_decimal_reads_back(n, max);
    lemma_no_leading_zero(n);
}

proof fn lemma_no_leading_zero(n: nat)
    ensures
        decimal(n).len() > 0,
        n > 0 ==> decimal(n)[0] != '0',
    decreases n,
{
    if n >= 10 {
        lemma_no_leading_zero(n / 10);
        assert(decimal(n)[0] == decimal(n / 10)[0]);
    } else {
        assert(decimal(n)[0] == digit_char(n));
    }
}

proof fn lemma_hex_digit(d: nat)
    requires
        d < 16,
    ensures
        digit_value(hex_char(d), 16) == Some(d),
{
}

/// A number in hex is read back as that number, and has as many digits as it is to
/// have, where it needs no more.
pub proof fn law_hex_reads_back(n: nat, width: nat)
    ensures
        all_digits(hex(n, width), 16),
        digits_value(hex(n, width), 16) == n,
        hex(n, width).len() >= 1,
        hex(n, width).len() >= width,
        width > 0 && n < pow(16, width) ==> hex(n, width).len() == width,
    decreases n, width,
{
    let h = hex(n, width);
    if n < 16 && width <= 1 {
        lemma_hex_digit(n);
        assert(h == seq![hex_char(n)]);
        assert(h.drop_last() =~= Seq::<char>::empty());
        assert(digits_value(h.drop_last(), 16) == 0);
    } else {
        let w = if width > 0 {
            (width - 1) as nat
        } else {
            0
        };
        let front = hex(n / 16, w);
        law_hex_reads_back(n / 16, w);
        lemma_hex_digit(n % 16);
        assert(h == front.push(hex_char(n % 16)));
        assert(h.drop_last() =~= front);
        assert forall|i: int| 0 <= i < h.len() implies digit_value(#[trigger] h[i], 16) is Some by {
            if i < front.len() {
                assert(h[i] == front[i]);
            }
        }
        if width > 0 && n < pow(16, width) {
            lemma_pow_adds(16, w, 1);
            vstd::arithmetic::power::lemma_pow1(16);
            lemma_pow0(16);
            assert(n / 16 < pow(16, w)) by (nonlinear_arith)
                requires
                    n < pow(16, w) * 16,
                    n >= 0,
            ;
        }
    }
}

/// Bytes in hex: two digits for each, which read back as the byte, and a space between
/// each two.
pub proof fn law_bytes_in_hex_read_back(bytes: Seq<u8>, i: int)
    requires
        0 <= i < bytes.len(),
    ensures
        hex_list(bytes).len() == 3 * bytes.len() - 1,
        digits_value(hex_list(bytes).subrange(3 * i, 3 * i + 2), 16) == bytes[i],
        i + 1 < bytes.len() ==> hex_list(bytes)[3 * i + 2] == ' ',
    decreases bytes.len(),
{
    reveal_strlit(" ");
    let h = hex_list(bytes);
    let b = bytes.last();
    law_hex_reads_back(b as nat, 2);
    lemma_pow_adds(16, 1, 1);
    vstd::arithmetic::power::lemma_pow1(16);
    assert(pow(16, 2) == 256);
    let pair = hex(b as nat, 2);
    assert(pair.len() == 2);
    if bytes.len() == 1 {
        assert(h == pair);
        assert(h.subrange(0, 2) =~= pair);
    } else {
        let short = bytes.drop_last();
        let front = hex_list(short);
        let n = short.len() as int;
        law_bytes_in_hex_read_back(short, if i < n { i } else { 0 });
        assert(h == front + " "@ + pair);
        if i < n {
            assert(h.subrange(3 * i, 3 * i + 2) =~= front.subrange(3 * i, 3 * i + 2));
        } else {
            assert(h.subrange(3 * i, 3 * i + 2) =~= pair);
        }
    }
}

// ── space ───────────────────────────────────────────────────────────────

/// What is space: in ASCII the blank and the five controls from the tab to the carriage
/// return, and beyond it the next line and the blanks of Unicode. No letter, digit or
/// sign of ASCII is space.
pub proof fn law_what_is_space(c: char)
    ensures
        (c as int) < 0x80 ==> (is_space(c) <==> c == ' ' || c == '\t' || c == '\n' || c as int == 0x0b || c as int == 0x0c
            || c == '\r'),
        c as int >= 0x80 ==> (is_space(c) <==> c == '\u{85}' || c == '\u{a0}' || c == '\u{1680}' || '\u{2000}' <= c
            <= '\u{200a}' || c == '\u{2028}' || c == '\u{2029}' || c == '\u{202f}' || c == '\u{205f}' || c
            == '\u{3000}'),
{
}

proof fn lemma_leading(s: Seq<char>) -> (n: int)
    ensures
        0 <= n <= s.len(),
        without_leading_space(s) == s.skip(n),
        forall|k: int| 0 <= k < n ==> is_space(#[trigger] s[k]),
        n < s.len() ==> !is_space(s[n]),
    decreases s.len(),
{
    if s.len() > 0 && is_space(s[0]) {
        let rest = s.drop_first();
        let m = lemma_leading(rest);
        assert(rest.skip(m) =~= s.skip(m + 1));
        assert forall|k: int| 0 <= k < m + 1 implies is_space(#[trigger] s[k]) by {
            if k > 0 {
                assert(is_space(rest[k - 1]));
            }
        }
        if m + 1 < s.len() {
            assert(rest[m] == s[m + 1]);
        }
        m + 1
    } else {
        assert(s.skip(0) =~= s);
        0
    }
}

proof fn lemma_trailing(s: Seq<char>) -> (n: int)
    ensures
        0 <= n <= s.len(),
        without_trailing_space(s) == s.take(n),
        forall|k: int| n <= k < s.len() ==> is_space(#[trigger] s[k]),
        n > 0 ==> !is_space(s[n - 1]),
    decreases s.len(),
{
    if s.len() > 0 && is_space(s.last()) {
        let rest = s.drop_last();
        let m = lemma_trailing(rest);
        assert(rest.take(m) =~= s.take(m));
        assert forall|k: int| m <= k < s.len() implies is_space(#[trigger] s[k]) by {
            if k < rest.len() {
                assert(is_space(rest[k]));
            }
        }
        if m > 0 {
            assert(rest[m - 1] == s[m - 1]);
        }
        m
    } else {
        let n = s.len() as int;
        assert(s.take(n) =~= s);
        n
    }
}

/// A trimmed text is what stands between the space at its two ends: all that is gone is
/// space, and what is left neither starts nor ends with it.
pub proof fn law_trimming_takes_off_space(s: Seq<char>)
    ensures
        exists|a: int, b: int|
            #![trigger s.subrange(a, b)]
            0 <= a <= b <= s.len() && trimmed(s) == s.subrange(a, b) && (forall|k: int|
                0 <= k < a || b <= k < s.len() ==> is_space(#[trigger] s[k])) && (a < b ==> !is_space(s[a]) && !is_space(
                s[b - 1],
            )),
        (forall|k: int| 0 <= k < s.len() ==> is_space(#[trigger] s[k])) ==> trimmed(s).len() == 0,
{
    let a = lemma_leading(s);
    let mid = s.skip(a);
    let m = lemma_trailing(mid);
    let b = a + m;
    assert(mid.take(m) =~= s.subrange(a, b));
    assert forall|k: int| 0 <= k < a || b <= k < s.len() implies is_space(#[trigger] s[k]) by {
        if k >= b {
            assert(is_space(mid[k - a]));
        }
    }
    if m > 0 {
        assert(mid[m - 1] == s[b - 1]);
        assert(mid[0] == s[a]);
        assert(a < s.len());
    }
    assert(0 <= a <= b <= s.len() && trimmed(s) == s.subrange(a, b));
}

// ── order ───────────────────────────────────────────────────────────────

/// Bytes are ordered by the first place at which they differ; what goes on where the
/// other ends comes behind it.
pub proof fn law_bytes_are_ordered_by_their_first_difference(a: Seq<u8>, b: Seq<u8>, i: int)
    requires
        0 <= i <= a.len(),
        i <= b.len(),
        forall|k: int| 0 <= k < i ==> #[trigger] a[k] == b[k],
    ensures
        i < a.len() && i < b.len() && a[i] < b[i] ==> bytes_before(a, b) && !bytes_before(b, a),
        i == a.len() && i < b.len() ==> bytes_before(a, b) && !bytes_before(b, a),
        i == a.len() && i == b.len() ==> !bytes_before(a, b),
    decreases i,
{
    if i > 0 {
        assert(a[0] == b[0]);
        let x = a.drop_first();
        let y = b.drop_first();
        assert forall|k: int| 0 <= k < i - 1 implies #[trigger] x[k] == y[k] by {
            assert(a[k + 1] == b[k + 1]);
        }
        law_bytes_are_ordered_by_their_first_difference(x, y, i - 1);
    }
}

} // verus!

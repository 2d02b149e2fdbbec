//! Text and bytes: comparing and searching them, and numbers written out in
//! digits.

use vstd::prelude::*;
use vstd::slice::slice_subrange;
use vstd::utf8::*;
#[allow(unused_imports)]
use vstd::string::*;

verus! {

// ── bytes ───────────────────────────────────────────────────────────────

/// A copy of `bytes`.
pub fn copied(bytes: &[u8]) -> (r: Vec<u8>)
    ensures
        r@ == bytes@,
{
    let mut r: Vec<u8> = Vec::new();
    let mut i: usize = 0;
    while i < bytes.len()
        invariant
            i <= bytes@.len(),
            r@ == bytes@.take(i as int),
        decreases bytes@.len() - i,
    {
        r.push(bytes[i]);
        i = i + 1;
    }
    assert(bytes@.take(i as int) =~= bytes@);
    r
}

/// Appends `bytes` to `out`.
pub fn append_bytes(out: &mut Vec<u8>, bytes: &[u8])
    ensures
        final(out)@ == old(out)@ + bytes@,
{
    let mut i: usize = 0;
    while i < bytes.len()
        invariant
            i <= bytes@.len(),
            out@ == old(out)@ + bytes@.take(i as int),
        decreases bytes@.len() - i,
    {
        out.push(bytes[i]);
        i = i + 1;
    }
    assert(bytes@.take(i as int) =~= bytes@);
}

/// Whether `pattern` stands in `bytes` at `at`.
pub open spec fn stands_at<T>(bytes: Seq<T>, pattern: Seq<T>, at: int) -> bool {
    &&& 0 <= at
    &&& at + pattern.len() <= bytes.len()
    &&& bytes.subrange(at, at + pattern.len() as int) == pattern
}

/// Whether `pattern` stands anywhere in `bytes`.
pub open spec fn occurs<T>(bytes: Seq<T>, pattern: Seq<T>) -> bool {
    exists|at: int| stands_at(bytes, pattern, at)
}

/// Whether `at` is the first place at which `pattern` stands in `bytes`.
pub open spec fn first_at<T>(bytes: Seq<T>, pattern: Seq<T>, at: int) -> bool {
    &&& stands_at(bytes, pattern, at)
    &&& forall|k: int| 0 <= k < at ==> !stands_at(bytes, pattern, k)
}

/// Whether `pattern` stands in `bytes` at `at`.
pub fn stands_here(bytes: &[u8], pattern: &[u8], at: usize) -> (r: bool)
    ensures
        r == stands_at(bytes@, pattern@, at as int),
{
    if at > bytes.len() || pattern.len() > bytes.len() - at {
        return false;
    }
    let len: usize = bytes.len();
    let mut i: usize = 0;
    while i < pattern.len()
        invariant
            i <= pattern@.len(),
            len == bytes@.len(),
            at + pattern@.len() <= len,
            forall|k: int| 0 <= k < i ==> bytes@[at + k] == pattern@[k],
        decreases pattern@.len() - i,
    {
        if bytes[at + i] != pattern[i] {
            proof {
                assert(bytes@.subrange(at as int, at + pattern@.len())[i as int] != pattern@[i as int]);
            }
            return false;
        }
        i = i + 1;
    }
    assert(bytes@.subrange(at as int, at + pattern@.len()) =~= pattern@);
    true
}

/// The first place at which `pattern` stands in `bytes`.
pub fn find_bytes(bytes: &[u8], pattern: &[u8]) -> (r: Option<usize>)
    ensures
        match r {
            Some(at) => first_at(bytes@, pattern@, at as int),
            None => !occurs(bytes@, pattern@),
        },
{
    let mut at: usize = 0;
    while at < bytes.len()
        invariant
            at <= bytes@.len(),
            forall|k: int| 0 <= k < at ==> !stands_at(bytes@, pattern@, k),
        decreases bytes@.len() - at,
    {
        if stands_here(bytes, pattern, at) {
            return Some(at);
        }
        at = at + 1;
    }
    if stands_here(bytes, pattern, at) {
        return Some(at);
    }
    None
}

// ── text ────────────────────────────────────────────────────────────────

/// Two texts with one encoding are one text.
pub proof fn lemma_encoding_is_one_to_one(a: Seq<char>, b: Seq<char>)
    requires
        encode_utf8(a) == encode_utf8(b),
    ensures
        a == b,
{
    encode_utf8_decode_utf8(a);
    encode_utf8_decode_utf8(b);
}

/// Whether two byte slices hold the same bytes.
pub fn same_bytes(a: &[u8], b: &[u8]) -> (r: bool)
    ensures
        r == (a@ == b@),
{
    if a.len() != b.len() {
        return false;
    }
    let mut i: usize = 0;
    while i < a.len()
        invariant
            i <= a@.len(),
            a@.len() == b@.len(),
            forall|k: int| 0 <= k < i ==> a@[k] == b@[k],
        decreases a@.len() - i,
    {
        if a[i] != b[i] {
            return false;
        }
        i = i + 1;
    }
    assert(a@ =~= b@);
    true
}

/// Whether two texts are the same text.
pub fn same_text(a: &str, b: &str) -> (r: bool)
    ensures
        r == (a@ == b@),
{
    let r = same_bytes(a.as_bytes(), b.as_bytes());
    proof {
        if r {
            lemma_encoding_is_one_to_one(a@, b@);
        }
    }
    r
}

// ── digits ──────────────────────────────────────────────────────────────

/// The character of the decimal digit `d`.
pub open spec fn digit_char(d: nat) -> char {
    (0x30 + d) as char
}

/// `n` written out in decimal.
pub open spec fn decimal(n: nat) -> Seq<char>
    decreases n,
{
    if n < 10 {
        seq![digit_char(n)]
    } else {
        decimal(n / 10).push(digit_char(n % 10))
    }
}

/// `n` written out in decimal, as ASCII bytes.
pub open spec fn decimal_bytes(n: nat) -> Seq<u8>
    decreases n,
{
    if n < 10 {
        seq![(0x30 + n) as u8]
    } else {
        decimal_bytes(n / 10).push((0x30 + n % 10) as u8)
    }
}

/// The decimal digit `d` as a text.
fn digit_text(d: u8) -> (r: &'static str)
    requires
        d < 10,
    ensures
        r@ == seq![digit_char(d as nat)],
{
    proof {
        reveal_strlit("0");
        reveal_strlit("1");
        reveal_strlit("2");
        reveal_strlit("3");
        reveal_strlit("4");
        reveal_strlit("5");
        reveal_strlit("6");
        reveal_strlit("7");
        reveal_strlit("8");
        reveal_strlit("9");
    }
    let r = match d {
        0 => "0",
        1 => "1",
        2 => "2",
        3 => "3",
        4 => "4",
        5 => "5",
        6 => "6",
        7 => "7",
        8 => "8",
        _ => "9",
    };
    assert(r@ =~= seq![digit_char(d as nat)]);
    r
}

/// Appends `n`, written out in decimal, to `out`.
pub fn append_decimal(out: &mut String, n: u64)
    ensures
        final(out)@ == old(out)@ + decimal(n as nat),
    decreases n,
{
    let ghost before = out@;
    if n >= 10 {
        append_decimal(out, n / 10);
    }
    out.append(digit_text((n % 10) as u8));
    assert(out@ =~= before + decimal(n as nat));
}

/// The ASCII digits of `n` in decimal.
pub fn u64_bytes(n: u64) -> (r: Vec<u8>)
    ensures
        r@ == decimal_bytes(n as nat),
    decreases n,
{
    let mut r: Vec<u8> = if n >= 10 {
        u64_bytes(n / 10)
    } else {
        Vec::new()
    };
    r.push(0x30 + (n % 10) as u8);
    assert(r@ =~= decimal_bytes(n as nat));
    r
}

/// `prefix` and `n`, written out in decimal.
pub open spec fn tagged(prefix: Seq<char>, n: u64) -> Seq<char> {
    prefix + decimal(n as nat)
}

/// `prefix` and `n`, written out in decimal.
pub fn tagged_text(prefix: &str, n: u64) -> (r: String)
    ensures
        r@ == tagged(prefix@, n),
{
    let mut r = prefix.to_owned();
    append_decimal(&mut r, n);
    r
}

/// Three texts on end.
pub fn joined(a: &str, b: &str, c: &str) -> (r: String)
    ensures
        r@ == a@ + b@ + c@,
{
    let mut r = a.to_owned();
    r.append(b);
    r.append(c);
    r
}

/// What the character `c` counts as a digit in base `radix` (at most 16).
pub open spec fn digit_value(c: char, radix: nat) -> Option<nat> {
    let v: int = if '0' <= c <= '9' {
        c as int - '0' as int
    } else if 'a' <= c <= 'f' {
        c as int - 'a' as int + 10
    } else if 'A' <= c <= 'F' {
        c as int - 'A' as int + 10
    } else {
        99
    };
    if v < radix {
        Some(v as nat)
    } else {
        None
    }
}

/// Whether every character of `s` is a digit in base `radix`.
pub open spec fn all_digits(s: Seq<char>, radix: nat) -> bool {
    forall|i: int| 0 <= i < s.len() ==> digit_value(#[trigger] s[i], radix) is Some
}

/// The number that the digits `s` write in base `radix`.
pub open spec fn digits_value(s: Seq<char>, radix: nat) -> nat
    decreases s.len(),
{
    if s.len() == 0 {
        0
    } else {
        digits_value(s.drop_last(), radix) * radix + digit_value(s.last(), radix).unwrap_or(0)
    }
}

/// `s` without a leading plus sign.
pub open spec fn unsigned_part(s: Seq<char>) -> Seq<char> {
    if s.len() > 0 && s[0] == '+' {
        s.drop_first()
    } else {
        s
    }
}

/// The number that `s` writes in base `radix`: an optional plus sign, then at
/// least one digit, for a value of at most `max`.
pub open spec fn number_in(s: Seq<char>, radix: nat, max: nat) -> Option<nat> {
    let digits = unsigned_part(s);
    if digits.len() > 0 && all_digits(digits, radix) && digits_value(digits, radix) <= max {
        Some(digits_value(digits, radix))
    } else {
        None
    }
}

/// The value of the ASCII byte `b` as a digit in base `radix`, 99 for none.
fn ascii_digit(b: u8, radix: u64) -> (r: u64)
    requires
        b < 0x80,
        2 <= radix <= 16,
    ensures
        match digit_value(b as char, radix as nat) {
            Some(v) => r == v,
            None => r >= radix,
        },
{
    if 0x30 <= b && b <= 0x39 {
        (b - 0x30) as u64
    } else if 0x61 <= b && b <= 0x66 {
        (b - 0x61) as u64 + 10
    } else if 0x41 <= b && b <= 0x46 {
        (b - 0x41) as u64 + 10
    } else {
        99
    }
}

proof fn lemma_digits_value_grows(s: Seq<char>, n: int, radix: nat)
    requires
        0 <= n <= s.len(),
        1 <= radix,
    ensures
        digits_value(s.take(n), radix) <= digits_value(s, radix),
    decreases s.len() - n,
{
    if n < s.len() {
        lemma_digits_value_grows(s, n + 1, radix);
        let t = s.take(n + 1);
        assert(t.drop_last() =~= s.take(n));
        assert(digits_value(s.take(n), radix) * radix >= digits_value(s.take(n), radix)) by (nonlinear_arith)
            requires
                1 <= radix,
        ;
    } else {
        assert(s.take(n) =~= s);
    }
}

/// Reads `s` as a number in base `radix`, of at most `max`.
pub fn read_number(s: &str, radix: u64, max: u64) -> (r: Option<u64>)
    requires
        2 <= radix <= 16,
    ensures
        match r {
            Some(n) => number_in(s@, radix as nat, max as nat) == Some(n as nat),
            None => number_in(s@, radix as nat, max as nat) is None,
        },
{
    let ghost digits = unsigned_part(s@);
    if !s.is_ascii() {
        proof {
            let k = choose|k: int| 0 <= k < s@.len() && !('\0' <= #[trigger] s@[k] <= '\u{7f}');
            let j: int = k - (s@.len() - digits.len());
            assert(digits[j] == s@[k]);
            assert(digit_value(digits[j], radix as nat) is None);
        }
        return None;
    }
    let len: usize = s.unicode_len();
    let start: usize = if 0 < len && s.get_ascii(0) == 0x2b {
        1
    } else {
        0
    };
    assert(digits =~= s@.skip(start as int));
    if start == len {
        return None;
    }
    let mut i: usize = start;
    let mut n: u64 = 0;
    while i < len
        invariant
            start <= i <= len,
            len == s@.len(),
            s.is_ascii(),
            2 <= radix <= 16,
            start < len,
            digits == s@.skip(start as int),
            digits == unsigned_part(s@),
            n == digits_value(digits.take(i - start), radix as nat),
            n <= max,
            forall|k: int| 0 <= k < i - start ==> digit_value(#[trigger] digits[k], radix as nat) is Some,
        decreases len - i,
    {
        let d: u64 = ascii_digit(s.get_ascii(i), radix);
        assert(digits[i - start] == s@[i as int]);
        if d >= radix {
            return None;
        }
        proof {
            let t = digits.take(i - start + 1);
            assert(t.drop_last() =~= digits.take(i - start));
            assert(t.last() == s@[i as int]);
            lemma_digits_value_grows(digits, i - start + 1, radix as nat);
            assert(n * radix + d <= u64::MAX * 16 + 16) by (nonlinear_arith)
                requires
                    n <= u64::MAX,
                    radix <= 16,
                    d < radix,
                    0 <= n,
                    0 <= d,
            ;
        }
        let next: u128 = n as u128 * radix as u128 + d as u128;
        if next > max as u128 {
            return None;
        }
        n = next as u64;
        i = i + 1;
    }
    assert(digits.take(i - start) =~= digits);
    Some(n)
}

/// Decimal digits are digits, and read back as the number that they write.
proof fn lemma_decimal_value(n: nat)
    ensures
        decimal(n).len() > 0,
        all_digits(decimal(n), 10),
        digits_value(decimal(n), 10) == n,
        decimal(n)[0] != '+',
    decreases n,
{
    reveal_with_fuel(digits_value, 2);
    if n >= 10 {
        lemma_decimal_value(n / 10);
        assert(decimal(n).drop_last() =~= decimal(n / 10));
        assert(decimal(n)[0] == decimal(n / 10)[0]);
    } else {
        assert(decimal(n).drop_last() =~= Seq::<char>::empty());
    }
}

/// A number written out in decimal reads back as that number, up to the bound
/// that the reader sets.
pub proof fn lemma_decimal_reads_back(n: nat, max: nat)
    ensures
        number_in(decimal(n), 10, max) == (if n <= max {
            Some(n)
        } else {
            None
        }),
{
    lemma_decimal_value(n);
}

proof fn lemma_decimal_digits(n: nat)
    ensures
        decimal(n).len() == decimal_bytes(n).len(),
        forall|i: int|
            0 <= i < decimal(n).len() ==> '0' <= #[trigger] decimal(n)[i] <= '9' && decimal(n)[i] as u8
                == decimal_bytes(n)[i],
    decreases n,
{
    if n >= 10 {
        lemma_decimal_digits(n / 10);
    }
}

/// The bytes of a number are the encoding of its text.
pub proof fn lemma_decimal_bytes(n: nat)
    ensures
        encode_utf8(decimal(n)) == decimal_bytes(n),
        decimal_bytes(n).len() > 0,
        0x30 <= decimal_bytes(n)[0] <= 0x39,
{
    lemma_decimal_digits(n);
    lemma_decimal_value(n);
    assert(is_ascii_chars(decimal(n))) by {
        assert forall|i: int| 0 <= i < decimal(n).len() implies '\0' <= #[trigger] decimal(n)[i] <= '\u{7f}' by {
            assert('0' <= decimal(n)[i] <= '9');
        }
    }
    is_ascii_chars_encode_utf8(decimal(n));
    assert(encode_utf8(decimal(n)) =~= decimal_bytes(n));
    assert('0' <= decimal(n)[0] <= '9');
}

// ── bytes that are no text ──────────────────────────────────────────────

/// `bytes` with `mark` in place of each byte that belongs to no well-formed
/// character.
pub open spec fn mended(bytes: Seq<u8>, mark: u8) -> Seq<u8>
    decreases bytes.len(),
{
    if bytes.len() == 0 {
        bytes
    } else if valid_first_scalar(bytes) {
        take_first_scalar(bytes) + mended(pop_first_scalar(bytes), mark)
    } else {
        seq![mark] + mended(bytes.drop_first(), mark)
    }
}

/// A text has nothing to mend.
pub proof fn lemma_text_is_whole(bytes: Seq<u8>, mark: u8)
    requires
        valid_utf8(bytes),
    ensures
        mended(bytes, mark) == bytes,
    decreases bytes.len(),
{
    if bytes.len() > 0 {
        lemma_text_is_whole(pop_first_scalar(bytes), mark);
        assert(mended(bytes, mark) =~= bytes);
    }
}

proof fn lemma_first_scalar_is_text(bytes: Seq<u8>)
    requires
        valid_first_scalar(bytes),
    ensures
        1 <= length_of_first_scalar(bytes) <= 4,
        length_of_first_scalar(bytes) <= bytes.len(),
        valid_utf8(bytes.take(length_of_first_scalar(bytes))),
{
    let front = bytes.take(length_of_first_scalar(bytes));
    assert(valid_first_scalar(front));
    assert(pop_first_scalar(front).len() == 0);
    reveal_with_fuel(valid_utf8, 2);
}

proof fn lemma_least_text_is_first_scalar(bytes: Seq<u8>, n: int)
    requires
        0 < n <= bytes.len(),
        valid_utf8(bytes.take(n)),
        forall|k: int| 0 < k < n ==> !valid_utf8(#[trigger] bytes.take(k)),
    ensures
        valid_first_scalar(bytes),
        length_of_first_scalar(bytes) == n,
{
    let front = bytes.take(n);
    lemma_first_scalar_is_text(front);
    let len = length_of_first_scalar(front);
    assert(front.take(len) =~= bytes.take(len));
    assert(!(len < n));
}

/// How many bytes the character at `at` takes up: zero, where there is none that
/// is well-formed.
fn scalar_length(bytes: &[u8], at: usize) -> (r: usize)
    requires
        at < bytes@.len(),
    ensures
        valid_first_scalar(bytes@.skip(at as int)) ==> r > 0 && r == length_of_first_scalar(bytes@.skip(at as int))
            && at + r <= bytes@.len(),
        !valid_first_scalar(bytes@.skip(at as int)) ==> r == 0,
{
    let ghost rest = bytes@.skip(at as int);
    let len: usize = bytes.len();
    let left: usize = len - at;
    let mut n: usize = 1;
    while n <= 4 && n <= left
        invariant
            1 <= n <= 5,
            at < len,
            len == bytes@.len(),
            left == len - at,
            rest == bytes@.skip(at as int),
            forall|k: int| 0 < k < n ==> !valid_utf8(#[trigger] rest.take(k)),
        decreases 5 - n,
    {
        assert(bytes@.subrange(at as int, at + n) =~= rest.take(n as int));
        if utf8_text(slice_subrange(bytes, at, at + n)).is_some() {
            proof {
                lemma_least_text_is_first_scalar(rest, n as int);
            }
            return n;
        }
        n = n + 1;
    }
    proof {
        if valid_first_scalar(rest) {
            lemma_first_scalar_is_text(rest);
            assert(!valid_utf8(rest.take(length_of_first_scalar(rest))));
        }
    }
    0
}

/// A copy of `bytes` with `mark` in place of each byte that belongs to no
/// well-formed character.
pub(crate) fn mend(bytes: &[u8], mark: u8) -> (r: Vec<u8>)
    ensures
        r@ == mended(bytes@, mark),
{
    let mut r: Vec<u8> = Vec::new();
    let mut at: usize = 0;
    assert(bytes@.skip(0) =~= bytes@);
    while at < bytes.len()
        invariant
            at <= bytes@.len(),
            r@ + mended(bytes@.skip(at as int), mark) == mended(bytes@, mark),
        decreases bytes@.len() - at,
    {
        let ghost rest = bytes@.skip(at as int);
        let ghost was = r@;
        let n: usize = scalar_length(bytes, at);
        if n == 0 {
            r.push(mark);
            at = at + 1;
            assert(rest.drop_first() =~= bytes@.skip(at as int));
            assert(r@ + mended(bytes@.skip(at as int), mark) =~= was + mended(rest, mark));
        } else {
            append_bytes(&mut r, slice_subrange(bytes, at, at + n));
            proof {
                assert(bytes@.subrange(at as int, at + n) =~= take_first_scalar(rest));
                assert(pop_first_scalar(rest) =~= bytes@.skip(at + n));
                assert(r@ + mended(bytes@.skip(at + n), mark) =~= was + mended(rest, mark));
            }
            at = at + n;
        }
    }
    assert(r@ =~= mended(bytes@, mark));
    r
}

// ── what std knows of text ──────────────────────────────────────────────

/// `std::str::from_utf8`: the text that `bytes` encode, where they are valid
/// UTF-8.
#[verifier::external_body]
pub(crate) fn utf8_text(bytes: &[u8]) -> (r: Option<&str>)
    ensures
        match r {
            Some(s) => valid_utf8(bytes@) && encode_utf8(s@) == bytes@,
            None => !valid_utf8(bytes@),
        },
{
    std::str::from_utf8(bytes).ok()
}

/// What `String::from_utf8_lossy` makes of bytes.
pub uninterp spec fn lossy_text(bytes: Seq<u8>) -> Seq<char>;

/// `String::from_utf8_lossy`, as an owned text. Bytes that are valid UTF-8 give
/// the text that they encode; what stands in place of the others is left to the
/// name.
#[verifier::external_body]
pub(crate) fn utf8_text_lossy(bytes: &[u8]) -> (r: String)
    ensures
        r@ == lossy_text(bytes@),
        valid_utf8(bytes@) ==> encode_utf8(r@) == bytes@,
{
    String::from_utf8_lossy(bytes).into_owned()
}

/// Whether `c` has Unicode's `White_Space` property.
pub open spec fn is_space(c: char) -> bool {
    ||| 0x9 <= c as int <= 0xd
    ||| c as int == 0x20
    ||| c as int == 0x85
    ||| c as int == 0xa0
    ||| c as int == 0x1680
    ||| 0x2000 <= c as int <= 0x200a
    ||| c as int == 0x2028
    ||| c as int == 0x2029
    ||| c as int == 0x202f
    ||| c as int == 0x205f
    ||| c as int == 0x3000
}

/// `s` without its leading white space.
pub open spec fn without_leading_space(s: Seq<char>) -> Seq<char>
    decreases s.len(),
{
    if s.len() > 0 && is_space(s[0]) {
        without_leading_space(s.drop_first())
    } else {
        s
    }
}

/// `s` without its trailing white space.
pub open spec fn without_trailing_space(s: Seq<char>) -> Seq<char>
    decreases s.len(),
{
    if s.len() > 0 && is_space(s.last()) {
        without_trailing_space(s.drop_last())
    } else {
        s
    }
}

/// `s` without white space at either end.
pub open spec fn trimmed(s: Seq<char>) -> Seq<char> {
    without_trailing_space(without_leading_space(s))
}

/// `str::trim`: the text without the white space at its ends.
#[verifier::external_body]
pub(crate) fn trim(s: &str) -> (r: &str)
    ensures
        r@ == trimmed(s@),
{
    s.trim()
}

/// What `str::to_lowercase` makes of a text.
pub uninterp spec fn lowercase(s: Seq<char>) -> Seq<char>;

/// The ASCII character `c` in lower case.
pub open spec fn ascii_lowercase(c: char) -> char {
    if 'A' <= c <= 'Z' {
        (c as int + 0x20) as char
    } else {
        c
    }
}

/// `str::to_lowercase`. A text of ASCII characters has each of its capitals
/// replaced by the small letter; what becomes of others is left to the name.
#[verifier::external_body]
pub(crate) fn to_lowercase(s: &str) -> (r: String)
    ensures
        r@ == lowercase(s@),
        is_ascii_chars(s@) ==> r@ == s@.map_values(|c: char| ascii_lowercase(c)),
{
    s.to_lowercase()
}

} // verus!

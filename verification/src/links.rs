//! Where the session stands in an address, and how its escapes are read.

use vstd::prelude::*;
use crate::session_codec::{
    escaped, lemma_nothing_to_unescape, lemma_patterns, lemma_place, raw_value, unescaped, up_to_ampersand,
    value_start,
};
use crate::text::{first_at, occurs, stands_at};

verus! {

// ── escapes ─────────────────────────────────────────────────────────────

/// The byte of the hex digit `d`, small or capital.
pub open spec fn hex_byte(d: int, capital: bool) -> u8 {
    if d < 10 {
        (0x30 + d) as u8
    } else if capital {
        (0x41 + d - 10) as u8
    } else {
        (0x61 + d - 10) as u8
    }
}

/// A percent sign and two hex digits, small or capital, are read as the byte that they
/// write, whatever follows.
pub proof fn law_an_escape_is_the_byte_it_writes(b: u8, high: bool, low: bool, rest: Seq<u8>)
    ensures
        unescaped(seq![0x25u8, hex_byte(b as int / 16, high), hex_byte(b as int % 16, low)] + rest) == seq![b] + unescaped(
            rest,
        ),
{
    let x = hex_byte(b as int / 16, high);
    let y = hex_byte(b as int % 16, low);
    let all = seq![0x25u8, x, y] + rest;
    assert(escaped(x, y) == Some(b));
    assert(all[0] == 0x25 && all[1] == x && all[2] == y);
    assert(all.skip(3) =~= rest);
}

/// A percent sign, a plus sign and one hex digit are read as that digit, whatever
/// follows.
pub proof fn law_a_signed_escape_is_its_digit(d: u8, capital: bool, rest: Seq<u8>)
    requires
        d < 16,
    ensures
        unescaped(seq![0x25u8, 0x2bu8, hex_byte(d as int, capital)] + rest) == seq![d] + unescaped(rest),
{
    let x = hex_byte(d as int, capital);
    let all = seq![0x25u8, 0x2bu8, x] + rest;
    assert(escaped(0x2b, x) == Some(d));
    assert(all[0] == 0x25 && all[1] == 0x2b && all[2] == x);
    assert(all.skip(3) =~= rest);
}

/// Any byte but a percent sign stays as it is.
pub proof fn law_other_bytes_stay(b: u8, rest: Seq<u8>)
    requires
        b != 0x25,
    ensures
        unescaped(seq![b] + rest) == seq![b] + unescaped(rest),
{
    let all = seq![b] + rest;
    assert(all[0] == b);
    assert(all.skip(1) =~= rest);
}

/// `bytes` with an escape for each.
pub open spec fn all_escaped(bytes: Seq<u8>) -> Seq<u8>
    decreases bytes.len(),
{
    if bytes.len() == 0 {
        bytes
    } else {
        seq![0x25u8, hex_byte(bytes[0] as int / 16, true), hex_byte(bytes[0] as int % 16, true)] + all_escaped(
            bytes.drop_first(),
        )
    }
}

/// Whatever was escaped byte for byte is read as it was.
pub proof fn law_escaping_is_undone(bytes: Seq<u8>)
    ensures
        unescaped(all_escaped(bytes)) == bytes,
    decreases bytes.len(),
{
    if bytes.len() > 0 {
        let rest = bytes.drop_first();
        law_escaping_is_undone(rest);
        law_an_escape_is_the_byte_it_writes(bytes[0], true, true, all_escaped(rest));
        assert(seq![bytes[0]] + rest =~= bytes);
    }
}

/// Bytes without a percent sign are read as they are.
pub proof fn law_without_escapes_all_stays(bytes: Seq<u8>)
    requires
        forall|i: int| 0 <= i < bytes.len() ==> #[trigger] bytes[i] != 0x25,
    ensures
        unescaped(bytes) == bytes,
{
    lemma_nothing_to_unescape(bytes);
}

/// Whether `b` is a hex digit.
pub open spec fn is_hex(b: u8) -> bool {
    0x30 <= b <= 0x39 || 0x61 <= b <= 0x66 || 0x41 <= b <= 0x46
}

/// A percent sign that is not followed by two hex digits, or a plus sign and one, stays
/// as it is.
pub proof fn law_a_lone_percent_sign_stays(bytes: Seq<u8>)
    requires
        bytes.len() > 0,
        bytes[0] == 0x25,
        bytes.len() < 3 || !((is_hex(bytes[1]) || bytes[1] == 0x2b) && is_hex(bytes[2])),
    ensures
        unescaped(bytes) == seq![0x25u8] + unescaped(bytes.skip(1)),
{
}

// ── the value ───────────────────────────────────────────────────────────

/// Whether `mark`, `s` and `=` stand at `at`.
pub open spec fn marked_at(bytes: Seq<u8>, mark: u8, at: int) -> bool {
    0 <= at <= bytes.len() - 3 && bytes[at] == mark && bytes[at + 1] == 0x73 && bytes[at + 2] == 0x3d
}

/// Whether that is the first such place.
pub open spec fn first_marked_at(bytes: Seq<u8>, mark: u8, at: int) -> bool {
    marked_at(bytes, mark, at) && forall|k: int| 0 <= k < at ==> !#[trigger] marked_at(bytes, mark, k)
}

/// Whether there is no such place.
pub open spec fn unmarked(bytes: Seq<u8>, mark: u8) -> bool {
    forall|k: int| !#[trigger] marked_at(bytes, mark, k)
}

proof fn lemma_marked(bytes: Seq<u8>, mark: u8, at: int)
    ensures
        stands_at(bytes, seq![mark, 0x73u8, 0x3du8], at) == marked_at(bytes, mark, at),
{
    let pattern = seq![mark, 0x73u8, 0x3du8];
    if 0 <= at <= bytes.len() - 3 {
        let part = bytes.subrange(at, at + 3);
        if marked_at(bytes, mark, at) {
            assert(part =~= pattern);
        }
        if part == pattern {
            assert(part[0] == bytes[at] && part[1] == bytes[at + 1] && part[2] == bytes[at + 2]);
        }
    }
}

proof fn lemma_first_marked(bytes: Seq<u8>, mark: u8, at: int)
    ensures
        first_marked_at(bytes, mark, at) ==> first_at(bytes, seq![mark, 0x73u8, 0x3du8], at),
        unmarked(bytes, mark) ==> !occurs(bytes, seq![mark, 0x73u8, 0x3du8]),
{
    let pattern = seq![mark, 0x73u8, 0x3du8];
    assert forall|k: int| stands_at(bytes, pattern, k) == #[trigger] marked_at(bytes, mark, k) by {
        lemma_marked(bytes, mark, k);
    }
    if first_marked_at(bytes, mark, at) {
        assert forall|k: int| 0 <= k < at implies !stands_at(bytes, pattern, k) by {
            assert(!marked_at(bytes, mark, k));
        }
    }
    if unmarked(bytes, mark) && occurs(bytes, pattern) {
        let k = choose|k: int| stands_at(bytes, pattern, k);
        assert(!marked_at(bytes, mark, k));
    }
}

/// The value of `s=` starts behind the first `#s=`; where there is none, behind the
/// first `&s=`; where there is none either, behind the first `?s=`; and where there is
/// none of them, behind a leading `s=`. An address without any of these has no value.
pub proof fn law_where_the_value_starts(hash: Seq<u8>, at: int)
    ensures
        first_marked_at(hash, 0x23, at) ==> value_start(hash) == Some(at + 3),
        unmarked(hash, 0x23) && first_marked_at(hash, 0x26, at) ==> value_start(hash) == Some(at + 3),
        unmarked(hash, 0x23) && unmarked(hash, 0x26) && first_marked_at(hash, 0x3f, at) ==> value_start(hash) == Some(
            at + 3,
        ),
        unmarked(hash, 0x23) && unmarked(hash, 0x26) && unmarked(hash, 0x3f) && hash.len() >= 2 && hash[0] == 0x73
            && hash[1] == 0x3d ==> value_start(hash) == Some(2int),
        unmarked(hash, 0x23) && unmarked(hash, 0x26) && unmarked(hash, 0x3f) && !(hash.len() >= 2 && hash[0] == 0x73
            && hash[1] == 0x3d) ==> value_start(hash) is None && raw_value(hash) is None,
{
    lemma_patterns();
    lemma_first_marked(hash, 0x23, at);
    lemma_first_marked(hash, 0x26, at);
    lemma_first_marked(hash, 0x3f, at);
    if first_marked_at(hash, 0x23, at) {
        lemma_place(hash, seq![0x23u8, 0x73, 0x3d], at);
    }
    if first_marked_at(hash, 0x26, at) {
        lemma_place(hash, seq![0x26u8, 0x73, 0x3d], at);
    }
    if first_marked_at(hash, 0x3f, at) {
        lemma_place(hash, seq![0x3fu8, 0x73, 0x3d], at);
    }
    let lead = seq![0x73u8, 0x3d];
    if hash.len() >= 2 {
        let part = hash.subrange(0, 2);
        if hash[0] == 0x73 && hash[1] == 0x3d {
            assert(part =~= lead);
        }
        if part == lead {
            assert(part[0] == hash[0] && part[1] == hash[1]);
        }
    }
}

/// The value ends before the first ampersand, or at the end where there is none.
pub proof fn law_where_the_value_ends(bytes: Seq<u8>, at: int)
    ensures
        0 <= at < bytes.len() && bytes[at] == 0x26 && (forall|k: int| 0 <= k < at ==> #[trigger] bytes[k] != 0x26)
            ==> up_to_ampersand(bytes) == bytes.take(at),
        (forall|k: int| 0 <= k < bytes.len() ==> #[trigger] bytes[k] != 0x26) ==> up_to_ampersand(bytes) == bytes,
{
    lemma_patterns();
    let amp = seq![0x26u8];
    if 0 <= at < bytes.len() && bytes[at] == 0x26 && (forall|k: int| 0 <= k < at ==> #[trigger] bytes[k] != 0x26) {
        assert(bytes.subrange(at, at + 1) =~= amp);
        assert forall|k: int| 0 <= k < at implies !stands_at(bytes, amp, k) by {
            if stands_at(bytes, amp, k) {
                assert(bytes.subrange(k, k + 1)[0] == bytes[k]);
            }
        }
        lemma_place(bytes, amp, at);
    }
    if forall|k: int| 0 <= k < bytes.len() ==> #[trigger] bytes[k] != 0x26 {
        if occurs(bytes, amp) {
            let k = choose|k: int| stands_at(bytes, amp, k);
            assert(bytes.subrange(k, k + 1)[0] == bytes[k]);
        }
    }
}

} // verus!

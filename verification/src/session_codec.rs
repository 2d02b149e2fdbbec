//! A [`Session`] ⇄ URL-safe string. `shape` is dropped (it's recomputed from the
//! open schemas); everything else (nodes, instances, behaviours, connections,
//! faults, seed, clock mode) is JSON wrapped in a `{ v, session }` envelope,
//! base64url-encoded. The string goes in the URL fragment (`#s=…`) so a topology
//! is shareable by link.
//!
//! The host turns a session into the envelope's JSON and back; this module is
//! what stands between that JSON and the address bar.

use base64::Engine;
use vstd::prelude::*;
use vstd::utf8::*;
use crate::model::{law_fresh_ids_do_not_collide, law_reseeding_counts_everything, lives, Session, SessionView};
use crate::shape::{ProjectShape, ProjectView};
use vstd::slice::slice_subrange;
use crate::text::{
    copied, find_bytes, first_at, lemma_encoding_is_one_to_one, lossy_text, occurs, stands_at, stands_here, trim, trimmed,
    utf8_text_lossy,
};

verus! {

/// The version that an envelope carries.
pub const VERSION: u32 = 1;

// ── base64url ───────────────────────────────────────────────────────────

/// The symbol of the six bits `n` in the URL-safe alphabet.
pub open spec fn symbol(n: int) -> char {
    if n < 26 {
        ('A' as int + n) as char
    } else if n < 52 {
        ('a' as int + (n - 26)) as char
    } else if n < 62 {
        ('0' as int + (n - 52)) as char
    } else if n == 62 {
        '-'
    } else {
        '_'
    }
}

/// `bytes` in base64url: four symbols for every three bytes, two or three for
/// what is left over, no padding.
pub open spec fn base64url(bytes: Seq<u8>) -> Seq<char>
    decreases bytes.len(),
{
    if bytes.len() == 0 {
        Seq::empty()
    } else if bytes.len() == 1 {
        let a = bytes[0] as int;
        seq![symbol(a / 4), symbol(a % 4 * 16)]
    } else if bytes.len() == 2 {
        let a = bytes[0] as int;
        let b = bytes[1] as int;
        seq![symbol(a / 4), symbol(a % 4 * 16 + b / 16), symbol(b % 16 * 4)]
    } else {
        let a = bytes[0] as int;
        let b = bytes[1] as int;
        let c = bytes[2] as int;
        seq![symbol(a / 4), symbol(a % 4 * 16 + b / 16), symbol(b % 16 * 4 + c / 64), symbol(c % 64)] + base64url(
            bytes.skip(3),
        )
    }
}

/// How many padding signs `bytes` take at most.
pub open spec fn padding(bytes: Seq<u8>) -> int {
    (3 - bytes.len() % 3) % 3
}

/// Whether `text` is `bytes` in base64url, with any part of its padding.
pub open spec fn encodes(text: Seq<char>, bytes: Seq<u8>) -> bool {
    exists|n: int| #[trigger] padded(text, bytes, n)
}

/// Whether `text` is `bytes` in base64url, followed by `n` padding signs.
pub open spec fn padded(text: Seq<char>, bytes: Seq<u8>, n: int) -> bool {
    &&& 0 <= n <= padding(bytes)
    &&& text == base64url(bytes) + Seq::new(n as nat, |i: int| '=')
}

/// `base64`'s `Engine::encode` with the URL-safe alphabet and no padding: the
/// bytes in base64url.
#[verifier::external_body]
fn to_base64url(bytes: &[u8]) -> (r: String)
    ensures
        r@ == base64url(bytes@),
{
    base64::engine::GeneralPurpose::new(
        &base64::alphabet::URL_SAFE,
        base64::engine::GeneralPurposeConfig::new().with_encode_padding(false),
    ).encode(bytes)
}

/// `base64`'s `Engine::decode` with the URL-safe alphabet, indifferent to
/// padding: the bytes that the text encodes, `None` for a text that encodes
/// none. A last symbol with bits that no byte takes up encodes none.
#[verifier::external_body]
fn from_base64url(text: &str) -> (r: Option<Vec<u8>>)
    ensures
        match r {
            Some(bytes) => encodes(text@, bytes@),
            None => forall|bytes: Seq<u8>| !encodes(text@, bytes),
        },
{
    base64::engine::GeneralPurpose::new(
        &base64::alphabet::URL_SAFE,
        base64::engine::GeneralPurposeConfig::new().with_decode_padding_mode(
            base64::engine::DecodePaddingMode::Indifferent,
        ),
    ).decode(text).ok()
}

/// What a text in base64url can hold.
pub open spec fn is_symbol(c: char) -> bool {
    'A' <= c <= 'Z' || 'a' <= c <= 'z' || '0' <= c <= '9' || c == '-' || c == '_'
}

/// A text in base64url holds symbols only.
proof fn lemma_symbols(bytes: Seq<u8>)
    ensures
        forall|i: int| 0 <= i < base64url(bytes).len() ==> is_symbol(#[trigger] base64url(bytes)[i]),
    decreases bytes.len(),
{
    if bytes.len() >= 3 {
        let rest = bytes.skip(3);
        lemma_symbols(rest);
        assert forall|i: int| 0 <= i < base64url(bytes).len() implies is_symbol(#[trigger] base64url(bytes)[i]) by {
            if i >= 4 {
                assert(base64url(bytes)[i] == base64url(rest)[i - 4]);
            }
        }
    }
}

/// How many symbols a number of bytes take.
proof fn lemma_symbol_count(bytes: Seq<u8>)
    ensures
        base64url(bytes).len() == (bytes.len() * 4 + 2) / 3,
    decreases bytes.len(),
{
    if bytes.len() >= 3 {
        lemma_symbol_count(bytes.skip(3));
    }
}

/// Two runs of bytes with one encoding are the same bytes.
proof fn lemma_base64url_is_one_to_one(a: Seq<u8>, b: Seq<u8>)
    requires
        base64url(a) == base64url(b),
    ensures
        a == b,
    decreases a.len(),
{
    lemma_symbol_count(a);
    lemma_symbol_count(b);
    assert(a.len() == b.len());
    let s = base64url(a);
    let t = base64url(b);
    if a.len() >= 3 {
        assert(s.skip(4) =~= base64url(a.skip(3)));
        assert(t.skip(4) =~= base64url(b.skip(3)));
        lemma_base64url_is_one_to_one(a.skip(3), b.skip(3));
        assert(s[0] == t[0] && s[1] == t[1] && s[2] == t[2] && s[3] == t[3]);
        assert(a[0] == b[0]);
        assert(a[1] == b[1]);
        assert(a[2] == b[2]);
        assert forall|i: int| 0 <= i < a.len() implies a[i] == b[i] by {
            if i >= 3 {
                assert(a[i] == a.skip(3)[i - 3]);
                assert(b[i] == b.skip(3)[i - 3]);
            }
        }
    } else if a.len() == 2 {
        assert(s[0] == t[0] && s[1] == t[1] && s[2] == t[2]);
        assert(a[0] == b[0]);
    } else if a.len() == 1 {
        assert(s[0] == t[0] && s[1] == t[1]);
    }
    assert(a =~= b);
}

/// A text encodes one run of bytes at most.
proof fn lemma_encodes_one(text: Seq<char>, a: Seq<u8>, b: Seq<u8>)
    requires
        encodes(text, a),
        encodes(text, b),
    ensures
        a == b,
{
    let n = choose|n: int| #[trigger] padded(text, a, n);
    let m = choose|m: int| #[trigger] padded(text, b, m);
    lemma_symbols(a);
    lemma_symbols(b);
    let x = base64url(a);
    let y = base64url(b);
    if x.len() < y.len() {
        assert(text[x.len() as int] == '=');
        assert(text[x.len() as int] == y[x.len() as int]);
    }
    if y.len() < x.len() {
        assert(text[y.len() as int] == '=');
        assert(text[y.len() as int] == x[y.len() as int]);
    }
    assert(x =~= text.take(x.len() as int));
    assert(y =~= text.take(y.len() as int));
    lemma_base64url_is_one_to_one(a, b);
}

// ── the link ────────────────────────────────────────────────────────────

/// The `#s=…` payload of a session, from the JSON of its envelope.
pub fn encode_session(envelope: &[u8]) -> (r: String)
    ensures
        r@ == base64url(envelope@),
        forall|i: int| 0 <= i < r@.len() ==> is_symbol(#[trigger] r@[i]),
{
    proof {
        lemma_symbols(envelope@);
    }
    to_base64url(envelope)
}

/// The JSON of the envelope that a payload carries, white space around it aside.
/// `None` if it is no base64url. What [`encode_session`] made reads back as it
/// went in.
pub fn link_bytes(encoded: &str) -> (r: Option<Vec<u8>>)
    ensures
        match r {
            Some(bytes) => encodes(trimmed(encoded@), bytes@),
            None => forall|bytes: Seq<u8>| !encodes(trimmed(encoded@), bytes),
        },
        forall|bytes: Seq<u8>|
            encoded@ == #[trigger] base64url(bytes) ==> r is Some && r->0@ == bytes,
{
    let r = from_base64url(trim(encoded));
    proof {
        assert forall|bytes: Seq<u8>| encoded@ == #[trigger] base64url(bytes) implies r is Some && r->0@ == bytes by {
            lemma_symbols(bytes);
            lemma_symbols_stay(encoded@);
            assert(encoded@ =~= base64url(bytes) + Seq::new(0, |i: int| '='));
            assert(padded(encoded@, bytes, 0));
            assert(encodes(trimmed(encoded@), bytes));
            assert(r is Some);
            lemma_encodes_one(encoded@, bytes, r->0@);
        }
    }
    r
}

/// A text of symbols has no white space to lose.
proof fn lemma_symbols_stay(s: Seq<char>)
    requires
        forall|i: int| 0 <= i < s.len() ==> is_symbol(#[trigger] s[i]),
    ensures
        trimmed(s) == s,
{
    if s.len() > 0 {
        assert(is_symbol(s[0]));
        assert(is_symbol(s.last()));
    }
}

/// What a session read from a link becomes: `shape` put in, the counters lifted
/// past everything that it holds.
pub open spec fn loaded(session: SessionView, shape: ProjectView) -> SessionView {
    SessionView { shape, ..session }.reseeded()
}

/// A session read from an envelope of version `v`, against the current `shape`.
/// `None` if it isn't a version that this build understands. Instances keep their
/// stored `ir_hash`, so a schema that has moved on since the link was made loads
/// them *stale*: the resync flow then applies.
pub fn decode_session(v: u32, session: Session, shape: ProjectShape) -> (r: Option<Session>)
    ensures
        match r {
            Some(s) => v == VERSION && s@ == loaded(session@, shape@),
            None => v != VERSION,
        },
{
    if v != VERSION {
        return None;
    }
    let mut session = session;
    session.shape = shape;
    session.reseed_counters();
    Some(session)
}

/// A session that came out of a link keeps adding ids without collision, as long
/// as its counters have room.
pub proof fn law_a_loaded_session_adds_fresh_ids(session: SessionView, shape: ProjectView)
    ensures
        ({
            let s = loaded(session, shape);
            &&& s.next_instance < u64::MAX ==> !lives(s.instances, s.next_instance_id())
            &&& s.next_node < u64::MAX ==> s.node(s.next_node_id()) is None
            &&& s.next_conn < u64::MAX ==> s.connection(s.next_conn_id()) is None
        }),
{
    law_reseeding_counts_everything(SessionView { shape, ..session });
    law_fresh_ids_do_not_collide(loaded(session, shape));
}

/// A link carries everything of a session but its shape and its counters.
pub proof fn law_a_loaded_session_keeps_its_topology(session: SessionView, shape: ProjectView)
    ensures
        ({
            let s = loaded(session, shape);
            &&& s.shape == shape
            &&& s.nodes == session.nodes
            &&& s.instances == session.instances
            &&& s.connections == session.connections
            &&& s.latency_ms == session.latency_ms
            &&& s.call_timeout_ms == session.call_timeout_ms
            &&& s.seed == session.seed
            &&& s.clock_mode == session.clock_mode
        }),
{
}

// ── the address bar ─────────────────────────────────────────────────────

/// The first place at which `pattern` stands in `bytes`.
pub open spec fn place_of(bytes: Seq<u8>, pattern: Seq<u8>) -> Option<int> {
    if occurs(bytes, pattern) {
        Some(choose|at: int| first_at(bytes, pattern, at))
    } else {
        None
    }
}

/// Where the value of `s=` starts in a fragment or a query string: after the
/// first `#s=`, else the first `&s=`, else the first `?s=`, else a leading `s=`.
pub open spec fn value_start(hash: Seq<u8>) -> Option<int> {
    if let Some(at) = place_of(hash, encode_utf8("#s="@)) {
        Some(at + 3)
    } else if let Some(at) = place_of(hash, encode_utf8("&s="@)) {
        Some(at + 3)
    } else if let Some(at) = place_of(hash, encode_utf8("?s="@)) {
        Some(at + 3)
    } else if stands_at(hash, encode_utf8("s="@), 0) {
        Some(2)
    } else {
        None
    }
}

/// `bytes` up to the first ampersand.
pub open spec fn up_to_ampersand(bytes: Seq<u8>) -> Seq<u8> {
    match place_of(bytes, encode_utf8("&"@)) {
        Some(at) => bytes.take(at),
        None => bytes,
    }
}

/// The value of `s=` in a fragment or a query string, as it stands there.
pub open spec fn raw_value(hash: Seq<u8>) -> Option<Seq<u8>> {
    match value_start(hash) {
        Some(start) => Some(up_to_ampersand(hash.skip(start))),
        None => None,
    }
}

/// What the byte `b` counts as a hex digit.
pub open spec fn hex_value(b: u8) -> Option<u8> {
    if 0x30 <= b <= 0x39 {
        Some((b - 0x30) as u8)
    } else if 0x61 <= b <= 0x66 {
        Some((b - 0x61 + 10) as u8)
    } else if 0x41 <= b <= 0x46 {
        Some((b - 0x41 + 10) as u8)
    } else {
        None
    }
}

/// The byte that `%` and these two write: two hex digits, or a plus sign and one.
pub open spec fn escaped(a: u8, b: u8) -> Option<u8> {
    if a == 0x2b {
        hex_value(b)
    } else {
        match (hex_value(a), hex_value(b)) {
            (Some(x), Some(y)) => Some((x * 16 + y) as u8),
            _ => None,
        }
    }
}

/// `bytes` with every escape replaced by the byte that it writes.
pub open spec fn unescaped(bytes: Seq<u8>) -> Seq<u8>
    decreases bytes.len(),
{
    if bytes.len() == 0 {
        Seq::empty()
    } else if bytes[0] == 0x25 && bytes.len() >= 3 && escaped(bytes[1], bytes[2]) is Some {
        seq![escaped(bytes[1], bytes[2])->0] + unescaped(bytes.skip(3))
    } else {
        seq![bytes[0]] + unescaped(bytes.skip(1))
    }
}

/// Whether the two bytes after each percent sign that has two end on a
/// character.
pub open spec fn whole_escapes(bytes: Seq<u8>) -> bool {
    forall|i: int|
        0 <= i && i + 3 < bytes.len() && #[trigger] bytes[i] == 0x25 ==> !is_continuation_byte(bytes[i + 3])
}

/// What the byte `b` counts as a hex digit.
fn hex_digit(b: u8) -> (r: Option<u8>)
    ensures
        r == hex_value(b),
        r matches Some(d) ==> d < 16,
{
    if 0x30 <= b && b <= 0x39 {
        Some(b - 0x30)
    } else if 0x61 <= b && b <= 0x66 {
        Some(b - 0x61 + 10)
    } else if 0x41 <= b && b <= 0x46 {
        Some(b - 0x41 + 10)
    } else {
        None
    }
}

/// The byte that `%` and these two write.
fn escape(a: u8, b: u8) -> (r: Option<u8>)
    ensures
        r == escaped(a, b),
{
    if a == 0x2b {
        return hex_digit(b);
    }
    match (hex_digit(a), hex_digit(b)) {
        (Some(x), Some(y)) => Some(x * 16 + y),
        _ => None,
    }
}

/// `bytes` with every escape replaced by the byte that it writes.
fn unescape(bytes: &[u8]) -> (r: Vec<u8>)
    ensures
        r@ == unescaped(bytes@),
{
    let mut out: Vec<u8> = Vec::new();
    let mut i: usize = 0;
    let len: usize = bytes.len();
    assert(bytes@.skip(0) =~= bytes@);
    while i < len
        invariant
            i <= len,
            len == bytes@.len(),
            out@ + unescaped(bytes@.skip(i as int)) == unescaped(bytes@),
        decreases len - i,
    {
        let ghost rest = bytes@.skip(i as int);
        let written = if bytes[i] == 0x25 && len - i > 2 {
            escape(bytes[i + 1], bytes[i + 2])
        } else {
            None
        };
        match written {
            Some(byte) => {
                proof {
                    assert(rest.skip(3) =~= bytes@.skip(i + 3));
                    assert(out@ + unescaped(rest) =~= out@.push(byte) + unescaped(bytes@.skip(i + 3)));
                }
                out.push(byte);
                i = i + 3;
            },
            None => {
                proof {
                    assert(rest.skip(1) =~= bytes@.skip(i + 1));
                    assert(out@ + unescaped(rest) =~= out@.push(bytes@[i as int]) + unescaped(bytes@.skip(i + 1)));
                }
                out.push(bytes[i]);
                i = i + 1;
            },
        }
    }
    assert(bytes@.skip(i as int) =~= Seq::empty());
    assert(out@ + unescaped(bytes@.skip(i as int)) =~= out@);
    out
}

/// `s` with its `%XX` escapes resolved. Bytes that then are no UTF-8 come out as
/// `String::from_utf8_lossy` shows them.
pub fn percent_decode(s: &str) -> (r: String)
    requires
        whole_escapes(encode_utf8(s@)),
    ensures
        r@ == lossy_text(unescaped(encode_utf8(s@))),
        valid_utf8(unescaped(encode_utf8(s@))) ==> encode_utf8(r@) == unescaped(encode_utf8(s@)),
{
    let bytes = unescape(s.as_bytes());
    utf8_text_lossy(bytes.as_slice())
}

/// `pattern` has one first place.
pub proof fn lemma_place(bytes: Seq<u8>, pattern: Seq<u8>, at: int)
    requires
        first_at(bytes, pattern, at),
    ensures
        place_of(bytes, pattern) == Some(at),
{
    let other = choose|k: int| first_at(bytes, pattern, k);
    assert(other == at);
}

/// The first place at which `pattern` stands in `bytes`.
fn find_place(bytes: &[u8], pattern: &[u8]) -> (r: Option<usize>)
    ensures
        match r {
            Some(at) => place_of(bytes@, pattern@) == Some(at as int) && at + pattern@.len() <= bytes@.len()
                && bytes@.len() <= usize::MAX,
            None => place_of(bytes@, pattern@) is None,
        },
{
    let r = find_bytes(bytes, pattern);
    let _len: usize = bytes.len();
    proof {
        if let Some(at) = r {
            lemma_place(bytes@, pattern@, at as int);
        }
    }
    r
}

/// The bytes of the patterns.
pub proof fn lemma_patterns()
    ensures
        encode_utf8("#s="@) == seq![0x23u8, 0x73, 0x3d],
        encode_utf8("&s="@) == seq![0x26u8, 0x73, 0x3d],
        encode_utf8("?s="@) == seq![0x3fu8, 0x73, 0x3d],
        encode_utf8("s="@) == seq![0x73u8, 0x3d],
        encode_utf8("&"@) == seq![0x26u8],
{
    reveal_strlit("#s=");
    reveal_strlit("&s=");
    reveal_strlit("?s=");
    reveal_strlit("s=");
    reveal_strlit("&");
    is_ascii_chars_encode_utf8("#s="@);
    is_ascii_chars_encode_utf8("&s="@);
    is_ascii_chars_encode_utf8("?s="@);
    is_ascii_chars_encode_utf8("s="@);
    is_ascii_chars_encode_utf8("&"@);
    assert(encode_utf8("#s="@) =~= seq![0x23u8, 0x73, 0x3d]);
    assert(encode_utf8("&s="@) =~= seq![0x26u8, 0x73, 0x3d]);
    assert(encode_utf8("?s="@) =~= seq![0x3fu8, 0x73, 0x3d]);
    assert(encode_utf8("s="@) =~= seq![0x73u8, 0x3d]);
    assert(encode_utf8("&"@) =~= seq![0x26u8]);
}

/// Where the value of `s=` starts.
fn find_value(hash: &[u8]) -> (r: Option<usize>)
    ensures
        match r {
            Some(start) => value_start(hash@) == Some(start as int) && start <= hash@.len(),
            None => value_start(hash@) is None,
        },
{
    proof {
        lemma_patterns();
    }
    assert(encode_utf8("#s="@).len() == 3);
    assert(encode_utf8("&s="@).len() == 3);
    assert(encode_utf8("?s="@).len() == 3);
    if let Some(at) = find_place(hash, "#s=".as_bytes()) {
        return Some(at + 3);
    }
    if let Some(at) = find_place(hash, "&s=".as_bytes()) {
        return Some(at + 3);
    }
    if let Some(at) = find_place(hash, "?s=".as_bytes()) {
        return Some(at + 3);
    }
    if stands_here(hash, "s=".as_bytes(), 0) {
        return Some(2);
    }
    None
}

/// The value of `s=`, as it stands there.
fn find_raw_value(hash: &[u8]) -> (r: Option<Vec<u8>>)
    ensures
        match r {
            Some(value) => raw_value(hash@) == Some(value@),
            None => raw_value(hash@) is None,
        },
{
    match find_value(hash) {
        Some(start) => {
            let rest = slice_subrange(hash, start, hash.len());
            assert(rest@ =~= hash@.skip(start as int));
            let end: usize = match find_place(rest, "&".as_bytes()) {
                Some(at) => at,
                None => rest.len(),
            };
            let value = slice_subrange(rest, 0, end);
            assert(value@ =~= up_to_ampersand(hash@.skip(start as int)));
            Some(copied(value))
        },
        None => None,
    }
}

/// Whether [`session_from_hash`] can read `hash`: no percent sign in the value
/// of `s=` may be followed by a byte and a part of a character.
pub fn hash_is_readable(hash: &str) -> (r: bool)
    ensures
        r == (raw_value(encode_utf8(hash@)) matches Some(value) ==> whole_escapes(value)),
{
    match find_raw_value(hash.as_bytes()) {
        Some(value) => {
            let mut i: usize = 0;
            while i < value.len()
                invariant
                    i <= value@.len(),
                    raw_value(encode_utf8(hash@)) == Some(value@),
                    forall|k: int|
                        0 <= k < i && k + 3 < value@.len() && #[trigger] value@[k] == 0x25 ==> !is_continuation_byte(
                            value@[k + 3],
                        ),
                decreases value@.len() - i,
            {
                if value[i] == 0x25 && value.len() - i > 3 {
                    let b: u8 = value[i + 3];
                    if 0x80 <= b && b < 0xc0 {
                        assert(is_continuation_byte(value@[i + 3]) && value@[i as int] == 0x25);
                        return false;
                    }
                }
                i = i + 1;
            }
            true
        },
        None => true,
    }
}

/// Reads the `s=` value from a URL fragment / query string (`#s=…` or `&s=…`),
/// if present. The payload is pure base64url so there is nothing to unescape in
/// it, but a `%XX`-escaped fragment is still unescaped for safety. A payload that
/// stands behind `#s=`, at the end or before an ampersand, comes out as it went
/// in.
pub fn session_from_hash(hash: &str) -> (r: Option<String>)
    requires
        raw_value(encode_utf8(hash@)) matches Some(value) ==> whole_escapes(value),
    ensures
        match r {
            Some(s) => raw_value(encode_utf8(hash@)) matches Some(value) && s@ == lossy_text(unescaped(value)) && (
            valid_utf8(unescaped(value)) ==> encode_utf8(s@) == unescaped(value)),
            None => raw_value(encode_utf8(hash@)) is None,
        },
        forall|payload: Seq<char>, rest: Seq<char>|
            hash@ == #[trigger] in_fragment(payload, rest) && is_payload(payload) && ends_value(rest) ==> r is Some
                && r->0@ == payload,
{
    let r = match find_raw_value(hash.as_bytes()) {
        Some(value) => Some(utf8_text_lossy(unescape(value.as_slice()).as_slice())),
        None => None,
    };
    proof {
        assert forall|payload: Seq<char>, rest: Seq<char>|
            hash@ == #[trigger] in_fragment(payload, rest) && is_payload(payload) && ends_value(rest) implies r is Some
            && r->0@ == payload by {
            lemma_payload_comes_out(payload, rest);
        }
    }
    r
}

/// A fragment with `payload` behind `#s=`, and more behind that.
pub open spec fn in_fragment(payload: Seq<char>, rest: Seq<char>) -> Seq<char> {
    "#s="@ + payload + rest
}

/// Whether `payload` is text in base64url.
pub open spec fn is_payload(payload: Seq<char>) -> bool {
    forall|i: int| 0 <= i < payload.len() ==> is_symbol(#[trigger] payload[i])
}

/// Whether a value ends where `rest` begins.
pub open spec fn ends_value(rest: Seq<char>) -> bool {
    rest.len() > 0 ==> rest[0] == '&'
}

/// Bytes without a percent sign hold no escape.
pub proof fn lemma_nothing_to_unescape(bytes: Seq<u8>)
    requires
        forall|i: int| 0 <= i < bytes.len() ==> #[trigger] bytes[i] != 0x25,
    ensures
        unescaped(bytes) == bytes,
    decreases bytes.len(),
{
    if bytes.len() > 0 {
        lemma_nothing_to_unescape(bytes.skip(1));
        assert(unescaped(bytes) =~= bytes);
    }
}

/// The encoding of two texts on end is their encodings on end.
proof fn lemma_encoding_of_both(a: Seq<char>, b: Seq<char>)
    ensures
        encode_utf8(a + b) == encode_utf8(a) + encode_utf8(b),
    decreases a.len(),
{
    if a.len() == 0 {
        assert(a + b =~= b);
        assert(encode_utf8(a) + encode_utf8(b) =~= encode_utf8(b));
    } else {
        lemma_encoding_of_both(a.drop_first(), b);
        assert((a + b).drop_first() =~= a.drop_first() + b);
        assert(encode_utf8(a + b) =~= encode_utf8(a) + encode_utf8(b));
    }
}

/// The value behind `#s=` is the payload that was put there.
proof fn lemma_payload_comes_out(payload: Seq<char>, rest: Seq<char>)
    requires
        is_payload(payload),
        ends_value(rest),
    ensures
        raw_value(encode_utf8(in_fragment(payload, rest))) == Some(encode_utf8(payload)),
        unescaped(encode_utf8(payload)) == encode_utf8(payload),
        valid_utf8(encode_utf8(payload)),
        forall|s: Seq<char>| encode_utf8(s) == #[trigger] encode_utf8(payload) ==> s == payload,
{
    let hash = encode_utf8(in_fragment(payload, rest));
    let mark = encode_utf8("#s="@);
    let amp = encode_utf8("&"@);
    let p = encode_utf8(payload);
    let tail = encode_utf8(rest);
    lemma_patterns();
    lemma_encoding_of_both("#s="@ + payload, rest);
    lemma_encoding_of_both("#s="@, payload);
    assert(hash == mark + p + tail);
    // the mark stands at the start
    assert(hash.subrange(0, 3) =~= mark);
    assert(first_at(hash, mark, 0));
    lemma_place(hash, mark, 0);
    // what follows it
    assert(hash.skip(3) =~= p + tail);
    assert forall|i: int| 0 <= i < payload.len() implies '\0' <= #[trigger] payload[i] <= '\u{7f}' by {
        assert(is_symbol(payload[i]));
    }
    is_ascii_chars_encode_utf8(payload);
    assert forall|i: int| 0 <= i < p.len() implies #[trigger] p[i] != 0x25 && p[i] != 0x26 by {
        assert(is_symbol(payload[i]));
        assert(payload[i] as u8 == p[i]);
    }
    lemma_nothing_to_unescape(p);
    encode_utf8_valid_utf8(payload);
    // the ampersand that ends it
    let value = p + tail;
    assert forall|k: int| 0 <= k < p.len() implies !stands_at(value, amp, k) by {
        if stands_at(value, amp, k) {
            assert(value.subrange(k, k + 1)[0] == amp[0]);
            assert(value[k] == p[k]);
        }
    }
    if rest.len() == 0 {
        assert(tail =~= Seq::empty());
        assert(value =~= p);
        assert(!occurs(value, amp));
    } else {
        assert(rest =~= seq!['&'] + rest.drop_first());
        reveal_strlit("&");
        assert("&"@ =~= seq!['&']);
        lemma_encoding_of_both("&"@, rest.drop_first());
        assert(value.subrange(p.len() as int, p.len() + 1int) =~= amp);
        assert(first_at(value, amp, p.len() as int));
        lemma_place(value, amp, p.len() as int);
        assert(value.take(p.len() as int) =~= p);
    }
    assert forall|s: Seq<char>| encode_utf8(s) == #[trigger] encode_utf8(payload) implies s == payload by {
        lemma_encoding_is_one_to_one(s, payload);
    }
}

} // verus!

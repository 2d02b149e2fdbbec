//! The framings a connection can speak. Datagram frames are the runtime's own,
//! and the host makes and reads them; a JSON-RPC 2.0 frame is a text that is made
//! and read here.

use std::collections::BTreeMap;
use serde_json::value::RawValue;
use vstd::prelude::*;
use vstd::slice::slice_subrange;
use vstd::utf8::*;
use crate::contract::{maybe_request, maybe_response, CallView, Envelope, EnvelopeView, Request, RequestCall, RequestView};
use crate::dict::views;
use crate::json::{json_space, parsed_json};
use crate::pieces::{
    closed, comma_separated, lemma_closed_concat, lemma_pieces_read_back, lemma_plain_byte_is_closed,
    lemma_quoted_is_closed, outside, pieces, pieces_of,
};
use crate::text;
use crate::text::{
    append_bytes, copied, decimal, decimal_bytes, lemma_decimal_reads_back, lemma_text_is_whole, mend, mended, number_in,
    read_number, same_bytes, same_text, u64_bytes, utf8_text,
};

verus! {

/// How a connection frames its calls.
#[derive(Clone, Copy, Debug, PartialEq, Eq, Structural)]
pub enum WireFraming {
    Datagram,
    Jsonrpc,
}

impl WireFraming {
    /// The name that a handshake carries. `datagram` is what the runtime calls
    /// its own framing.
    pub fn name(self, datagram: &'static str) -> (r: &'static str)
        ensures
            r@ == (match self {
                WireFraming::Datagram => datagram@,
                WireFraming::Jsonrpc => "jsonrpc-2.0"@,
            }),
    {
        match self {
            WireFraming::Datagram => datagram,
            WireFraming::Jsonrpc => "jsonrpc-2.0",
        }
    }

    /// `true` if this framing carries the call by name (JSON-RPC) rather than by
    /// the append-only ordinal.
    pub fn is_named(self) -> (r: bool)
        ensures
            r == (self == WireFraming::Jsonrpc),
    {
        self == WireFraming::Jsonrpc
    }
}

// ── object texts ────────────────────────────────────────────────────────

/// A text in its quotes.
pub open spec fn quoted(s: Seq<char>) -> Seq<u8> {
    seq![0x22u8] + encode_utf8(s) + seq![0x22u8]
}

/// One member of an object text: its name in quotes, a colon, its value.
pub open spec fn member_text(m: (Seq<char>, Seq<u8>)) -> Seq<u8> {
    quoted(m.0) + seq![0x3au8] + m.1
}

/// Members with commas between them.
pub open spec fn members_text(members: Seq<(Seq<char>, Seq<u8>)>) -> Seq<u8>
    decreases members.len(),
{
    if members.len() == 0 {
        Seq::empty()
    } else if members.len() == 1 {
        member_text(members[0])
    } else {
        members_text(members.drop_last()) + seq![0x2cu8] + member_text(members.last())
    }
}

/// The object text with these members, in this order.
pub open spec fn object_text(members: Seq<(Seq<char>, Seq<u8>)>) -> Seq<u8> {
    seq![0x7bu8] + members_text(members) + seq![0x7du8]
}

/// A text that stands in quotes as it is: printable ASCII, without a quote or a
/// backslash.
pub open spec fn needs_no_escape(s: Seq<char>) -> bool {
    forall|i: int| 0 <= i < s.len() ==> ' ' <= #[trigger] s[i] <= '~' && s[i] != '"' && s[i] != '\\'
}

/// Bytes that are the text of a JSON value: a quoted text, a whole number, `null`,
/// or what the JSON parser reads, without white space around it.
pub open spec fn simple_value(raw: Seq<u8>) -> bool {
    ||| exists|s: Seq<char>| needs_no_escape(s) && #[trigger] quoted(s) == raw
    ||| exists|n: u64| #[trigger] decimal_bytes(n as nat) == raw
    ||| raw == null_text()
    ||| parsed_json(raw) is Some && raw.len() > 0 && !json_space(raw[0]) && !json_space(raw.last())
}

/// Whether each member has a name that needs no escape and a simple value.
pub open spec fn simple_members(members: Seq<(Seq<char>, Seq<u8>)>) -> bool {
    forall|i: int|
        0 <= i < members.len() ==> needs_no_escape((#[trigger] members[i]).0) && simple_value(members[i].1)
}

/// A simple value, or the text of an object with simple members.
pub open spec fn value_text(raw: Seq<u8>) -> bool {
    ||| simple_value(raw)
    ||| exists|ms: Seq<(Seq<char>, Seq<u8>)>| simple_members(ms) && #[trigger] object_text(ms) == raw
}

/// Whether each member has a name that needs no escape and the text of a value.
pub open spec fn value_members(members: Seq<(Seq<char>, Seq<u8>)>) -> bool {
    forall|i: int|
        0 <= i < members.len() ==> needs_no_escape((#[trigger] members[i]).0) && value_text(members[i].1)
}

/// The members by name: of two with one name, the later one.
pub open spec fn by_name(members: Seq<(Seq<char>, Seq<u8>)>) -> Map<Seq<char>, Seq<u8>>
    decreases members.len(),
{
    if members.len() == 0 {
        Map::empty()
    } else {
        by_name(members.drop_last()).insert(members.last().0, members.last().1)
    }
}

/// One member of an object, with the text of its value as it stood.
pub struct Member {
    pub name: String,
    pub raw: Vec<u8>,
}

/// What members hold.
pub open spec fn pairs(members: Seq<Member>) -> Seq<(Seq<char>, Seq<u8>)> {
    Seq::new(members.len(), |i: int| (members[i].name@, members[i].raw@))
}

/// The members of the object text that `serde_json::from_slice` reads, each with
/// the text of its value.
pub uninterp spec fn raw_members(bytes: Seq<u8>) -> Option<Map<Seq<char>, Seq<u8>>>;

/// `serde_json::from_slice` into a map from names to `RawValue`s: the members of
/// an object, each with the text of its value, untouched. An object text whose
/// names need no escape, and whose values are texts of JSON values, is read as
/// the members that it was made of. What is read is UTF-8, and in the text of a
/// value each bracket and quote has its match.
#[verifier::external_body]
fn read_members(bytes: &[u8]) -> (r: Option<Vec<Member>>)
    ensures
        match r {
            Some(members) => raw_members(bytes@) == Some(by_name(pairs(members@))),
            None => raw_members(bytes@) is None,
        },
        forall|ms: Seq<(Seq<char>, Seq<u8>)>|
            value_members(ms) && #[trigger] object_text(ms) == bytes@ ==> r is Some && by_name(pairs(r->0@))
                == by_name(ms),
        r is Some ==> valid_utf8(bytes@),
        r matches Some(members) ==> forall|i: int| 0 <= i < members@.len() ==> closed((#[trigger] members@[i]).raw@),
{
    let members: BTreeMap<String, Box<RawValue>> = serde_json::from_slice(bytes).ok()?;
    Some(
        members.into_iter().map(
            |(name, value)| Member { name, raw: value.get().as_bytes().to_vec() },
        ).collect(),
    )
}

/// The texts of the items of the array text that `serde_json::from_slice` reads.
pub uninterp spec fn raw_items(bytes: Seq<u8>) -> Option<Seq<Seq<u8>>>;

/// `serde_json::from_slice` into a list of `RawValue`s: the items of an array,
/// each with the text that it had.
#[verifier::external_body]
fn read_items(bytes: &[u8]) -> (r: Option<Vec<Vec<u8>>>)
    ensures
        match r {
            Some(items) => raw_items(bytes@) == Some(views(items@)),
            None => raw_items(bytes@) is None,
        },
{
    let items: Vec<Box<RawValue>> = serde_json::from_slice(bytes).ok()?;
    Some(items.into_iter().map(|value| value.get().as_bytes().to_vec()).collect())
}

/// The text of the value of `name`.
fn find_member<'a>(members: &'a Vec<Member>, name: &str) -> (r: Option<&'a Vec<u8>>)
    ensures
        match r {
            Some(raw) => by_name(pairs(members@)).dom().contains(name@) && by_name(pairs(members@))[name@] == raw@,
            None => !by_name(pairs(members@)).dom().contains(name@),
        },
{
    let ghost all = pairs(members@);
    let mut i: usize = members.len();
    assert(all.take(i as int) =~= all);
    while i > 0
        invariant
            i <= members@.len(),
            all == pairs(members@),
            by_name(all).dom().contains(name@) == by_name(all.take(i as int)).dom().contains(name@),
            by_name(all).dom().contains(name@) ==> by_name(all)[name@] == by_name(all.take(i as int))[name@],
        decreases i,
    {
        proof {
            let t = all.take(i as int);
            assert(t.drop_last() =~= all.take(i - 1));
            assert(t.last() == all[i - 1]);
        }
        i = i - 1;
        if same_text(members[i].name.as_str(), name) {
            return Some(&members[i].raw);
        }
    }
    None
}

// ── records ─────────────────────────────────────────────────────────────

/// What stands in the brackets of a text, white space around them apart.
pub open spec fn inside(text: Seq<u8>) -> Seq<u8>
    decreases text.len(),
{
    if text.len() < 2 {
        Seq::empty()
    } else if json_space(text[0]) {
        inside(text.drop_first())
    } else if json_space(text.last()) {
        inside(text.drop_last())
    } else {
        text.subrange(1, text.len() - 1)
    }
}

/// A piece of an object text, as an object text of its own.
pub open spec fn braced(piece: Seq<u8>) -> Seq<u8> {
    seq![0x7bu8] + piece + seq![0x7du8]
}

/// Whether a piece of an object text is a member `name`.
pub open spec fn is_member(piece: Seq<u8>, name: Seq<char>) -> bool {
    raw_members(braced(piece)) matches Some(m) && m.dom().contains(name)
}

/// Whether two of `pieces` are a member `name`.
pub open spec fn stands_twice(pieces: Seq<Seq<u8>>, name: Seq<char>) -> bool {
    exists|i: int, j: int|
        0 <= i < j < pieces.len() && #[trigger] is_member(pieces[i], name) && #[trigger] is_member(pieces[j], name)
}

/// Whether one of `names` stands twice in an object text.
pub open spec fn repeats(bytes: Seq<u8>, names: Seq<Seq<char>>) -> bool {
    exists|k: int| 0 <= k < names.len() && stands_twice(pieces_of(inside(bytes)), #[trigger] names[k])
}

/// The fields of a record. An object has them by name, none of `names` twice; an
/// array has them in the order of `names`, and may leave out the last ones.
pub open spec fn fields_in(bytes: Seq<u8>, names: Seq<Seq<char>>) -> Option<Map<Seq<char>, Seq<u8>>> {
    match raw_members(bytes) {
        Some(m) => if repeats(bytes, names) {
            None
        } else {
            Some(m)
        },
        None => match raw_items(bytes) {
            Some(items) => if items.len() <= names.len() {
                Some(by_name(placed(names, items)))
            } else {
                None
            },
            None => None,
        },
    }
}

/// Each item under the name of its place.
pub open spec fn placed(names: Seq<Seq<char>>, items: Seq<Seq<u8>>) -> Seq<(Seq<char>, Seq<u8>)> {
    Seq::new(items.len(), |i: int| (names[i], items[i]))
}

/// Whether two readings have the same names, and the same value under each of
/// `kept`.
pub open spec fn agree(a: Map<Seq<char>, Seq<u8>>, b: Map<Seq<char>, Seq<u8>>, kept: Seq<Seq<char>>) -> bool {
    &&& a.dom() == b.dom()
    &&& forall|i: int| 0 <= i < kept.len() && a.dom().contains(#[trigger] kept[i]) ==> a[kept[i]] == b[kept[i]]
}

/// Two readings of one record, where they agree.
pub open spec fn both_readings(x: Seq<u8>, y: Seq<u8>, names: Seq<Seq<char>>, kept: Seq<Seq<char>>) -> Option<
    (Map<Seq<char>, Seq<u8>>, Map<Seq<char>, Seq<u8>>),
> {
    match (fields_in(x, names), fields_in(y, names)) {
        (Some(a), Some(b)) => if agree(a, b, kept) {
            Some((a, b))
        } else {
            None
        },
        _ => None,
    }
}

/// Two readings of a frame. What a frame holds beside the values of `kept` need
/// not be UTF-8. So bytes that are not are replaced, by one mark for the first
/// reading and by another for the second: a name or a value that held one reads
/// differently.
pub open spec fn frame_readings(frame: Seq<u8>, names: Seq<Seq<char>>, kept: Seq<Seq<char>>) -> Option<
    (Map<Seq<char>, Seq<u8>>, Map<Seq<char>, Seq<u8>>),
> {
    both_readings(mended(frame, 0x3f), mended(frame, 0x21), names, kept)
}

proof fn lemma_by_name_names(members: Seq<(Seq<char>, Seq<u8>)>, name: Seq<char>)
    ensures
        by_name(members).dom().contains(name) <==> exists|i: int|
            0 <= i < members.len() && (#[trigger] members[i]).0 == name,
    decreases members.len(),
{
    if members.len() > 0 {
        let short = members.drop_last();
        lemma_by_name_names(short, name);
        if by_name(short).dom().contains(name) {
            let i = choose|i: int| 0 <= i < short.len() && (#[trigger] short[i]).0 == name;
            assert(members[i].0 == name);
        }
        if exists|i: int| 0 <= i < members.len() && (#[trigger] members[i]).0 == name {
            let i = choose|i: int| 0 <= i < members.len() && (#[trigger] members[i]).0 == name;
            if i < short.len() {
                assert(short[i].0 == name);
            }
        }
        assert(members[members.len() - 1] == members.last());
    }
}

/// Whether `b` has every name that `a` has.
fn has_names_of(b: &Vec<Member>, a: &Vec<Member>) -> (r: bool)
    ensures
        r == by_name(pairs(a@)).dom().subset_of(by_name(pairs(b@)).dom()),
{
    let ghost all = pairs(a@);
    let ghost theirs = by_name(pairs(b@)).dom();
    let mut i: usize = 0;
    while i < a.len()
        invariant
            i <= a@.len(),
            all == pairs(a@),
            theirs == by_name(pairs(b@)).dom(),
            forall|k: int| 0 <= k < i ==> theirs.contains((#[trigger] all[k]).0),
        decreases a@.len() - i,
    {
        if find_member(b, a[i].name.as_str()).is_none() {
            proof {
                lemma_by_name_names(all, all[i as int].0);
                assert(!theirs.contains(all[i as int].0));
            }
            return false;
        }
        assert(theirs.contains(all[i as int].0));
        i = i + 1;
    }
    proof {
        assert forall|name: Seq<char>| by_name(all).dom().contains(name) implies theirs.contains(name) by {
            lemma_by_name_names(all, name);
        }
    }
    true
}

/// Whether `name` has the same value in both readings, or none.
fn same_value(a: &Vec<Member>, b: &Vec<Member>, name: &str) -> (r: bool)
    requires
        by_name(pairs(a@)).dom() == by_name(pairs(b@)).dom(),
    ensures
        r == (by_name(pairs(a@)).dom().contains(name@) ==> by_name(pairs(a@))[name@] == by_name(pairs(b@))[name@]),
{
    match (find_member(a, name), find_member(b, name)) {
        (Some(x), Some(y)) => same_bytes(x.as_slice(), y.as_slice()),
        _ => true,
    }
}

/// What stands in the brackets of `text`.
fn read_inside(text: &[u8]) -> (r: &[u8])
    ensures
        r@ == inside(text@),
{
    let mut from: usize = 0;
    let mut to: usize = text.len();
    assert(text@.subrange(0, to as int) =~= text@);
    loop
        invariant
            from <= to <= text@.len(),
            inside(text@.subrange(from as int, to as int)) == inside(text@),
        decreases to - from,
    {
        let ghost left = text@.subrange(from as int, to as int);
        if to - from < 2 {
            let none = slice_subrange(text, from, from);
            assert(none@ =~= Seq::empty());
            return none;
        }
        assert(left[0] == text@[from as int]);
        assert(left.last() == text@[to - 1]);
        if is_space(text[from]) {
            assert(left.drop_first() =~= text@.subrange(from + 1, to as int));
            from = from + 1;
        } else if is_space(text[to - 1]) {
            assert(left.drop_last() =~= text@.subrange(from as int, to - 1));
            to = to - 1;
        } else {
            assert(left.subrange(1, left.len() - 1) =~= text@.subrange(from + 1, to - 1));
            return slice_subrange(text, from + 1, to - 1);
        }
    }
}

fn is_space(b: u8) -> (r: bool)
    ensures
        r == json_space(b),
{
    b == 0x20 || b == 0x09 || b == 0x0a || b == 0x0d
}

/// The members in a piece of an object text.
fn read_piece(piece: &Vec<u8>) -> (r: Option<Vec<Member>>)
    ensures
        match r {
            Some(members) => raw_members(braced(piece@)) == Some(by_name(pairs(members@))),
            None => raw_members(braced(piece@)) is None,
        },
        forall|m: (Seq<char>, Seq<u8>)|
            value_members(seq![m]) && #[trigger] member_text(m) == piece@ ==> raw_members(braced(piece@)) == Some(
                by_name(seq![m]),
            ),
{
    let mut text: Vec<u8> = Vec::new();
    text.push(0x7b);
    append_bytes(&mut text, piece.as_slice());
    text.push(0x7d);
    assert(text@ =~= braced(piece@));
    let r = read_members(text.as_slice());
    proof {
        assert forall|m: (Seq<char>, Seq<u8>)|
            value_members(seq![m]) && #[trigger] member_text(m) == piece@ implies raw_members(braced(piece@)) == Some(
            by_name(seq![m]),
        ) by {
            assert(object_text(seq![m]) =~= text@);
        }
    }
    r
}

/// Whether two of `pieces` are a member `name`.
fn has_twice(pieces: &Vec<Vec<u8>>, readings: &Vec<Option<Vec<Member>>>, name: &str) -> (r: bool)
    requires
        readings@.len() == pieces@.len(),
        forall|i: int|
            0 <= i < pieces@.len() ==> raw_members(braced((#[trigger] pieces@[i])@)) == (match readings@[i] {
                Some(members) => Some(by_name(pairs(members@))),
                None => None,
            }),
    ensures
        r == stands_twice(views(pieces@), name@),
{
    let ghost all = views(pieces@);
    let mut found = false;
    let ghost mut first: int = 0;
    let mut i: usize = 0;
    while i < pieces.len()
        invariant
            i <= pieces@.len(),
            all == views(pieces@),
            readings@.len() == pieces@.len(),
            forall|k: int|
                0 <= k < pieces@.len() ==> raw_members(braced((#[trigger] pieces@[k])@)) == (match readings@[k] {
                    Some(members) => Some(by_name(pairs(members@))),
                    None => None,
                }),
            found ==> 0 <= first < i && is_member(all[first], name@),
            forall|k: int| 0 <= k < i && #[trigger] is_member(all[k], name@) ==> found && k == first,
        decreases pieces@.len() - i,
    {
        assert(all[i as int] == pieces@[i as int]@);
        let here = match &readings[i] {
            Some(members) => find_member(members, name).is_some(),
            None => false,
        };
        assert(here == is_member(all[i as int], name@));
        if here {
            if found {
                return true;
            }
            found = true;
            proof {
                first = i as int;
            }
        }
        i = i + 1;
    }
    false
}

/// Whether each of `members` has a name of its own.
pub open spec fn distinct_names(members: Seq<(Seq<char>, Seq<u8>)>) -> bool {
    forall|i: int, j: int| 0 <= i < j < members.len() ==> (#[trigger] members[i]).0 != (#[trigger] members[j]).0
}

/// Whether each of `members` has a closed value.
pub open spec fn closed_values(members: Seq<(Seq<char>, Seq<u8>)>) -> bool {
    forall|i: int| 0 <= i < members.len() ==> closed((#[trigger] members[i]).1)
}

/// Whether one of `names` stands twice in an object text. None does in a text
/// that was made of members with names of their own.
fn has_repeats(bytes: &[u8], names: &Vec<&str>) -> (r: bool)
    ensures
        r == repeats(bytes@, views(names@)),
        forall|ms: Seq<(Seq<char>, Seq<u8>)>|
            value_members(ms) && distinct_names(ms) && closed_values(ms) && ms.len() > 0 && #[trigger] object_text(ms)
                == bytes@ ==> !repeats(bytes@, views(names@)),
{
    let parts = pieces(read_inside(bytes));
    let ghost all = views(parts@);
    let mut readings: Vec<Option<Vec<Member>>> = Vec::new();
    let mut i: usize = 0;
    while i < parts.len()
        invariant
            i <= parts@.len(),
            all == views(parts@),
            readings@.len() == i,
            forall|k: int|
                0 <= k < i ==> raw_members(braced((#[trigger] parts@[k])@)) == (match readings@[k] {
                    Some(members) => Some(by_name(pairs(members@))),
                    None => None,
                }),
            forall|k: int, m: (Seq<char>, Seq<u8>)|
                0 <= k < i && value_members(seq![m]) && #[trigger] member_text(m) == #[trigger] all[k] ==> raw_members(
                    braced(all[k]),
                ) == Some(by_name(seq![m])),
        decreases parts@.len() - i,
    {
        assert(all[i as int] == parts@[i as int]@);
        let reading = read_piece(&parts[i]);
        readings.push(reading);
        i = i + 1;
    }
    proof {
        assert forall|ms: Seq<(Seq<char>, Seq<u8>)>|
            value_members(ms) && distinct_names(ms) && closed_values(ms) && ms.len() > 0 && #[trigger] object_text(ms)
                == bytes@ implies !repeats(bytes@, views(names@)) by {
            lemma_object_in_pieces(ms);
            assert forall|k: int, name: Seq<char>|
                0 <= k < all.len() && #[trigger] is_member(all[k], name) implies name == ms[k].0 by {
                lemma_single_name(ms[k]);
                assert(member_text(ms[k]) == all[k]);
                assert(value_members(seq![ms[k]]));
            }
        }
    }
    let mut k: usize = 0;
    while k < names.len()
        invariant
            k <= names@.len(),
            all == views(parts@),
            all == pieces_of(inside(bytes@)),
            readings@.len() == parts@.len(),
            forall|i: int|
                0 <= i < parts@.len() ==> raw_members(braced((#[trigger] parts@[i])@)) == (match readings@[i] {
                    Some(members) => Some(by_name(pairs(members@))),
                    None => None,
                }),
            forall|j: int| 0 <= j < k ==> !stands_twice(all, #[trigger] views(names@)[j]),
            forall|ms: Seq<(Seq<char>, Seq<u8>)>|
                value_members(ms) && distinct_names(ms) && closed_values(ms) && ms.len() > 0
                    && #[trigger] object_text(ms) == bytes@ ==> !repeats(bytes@, views(names@)),
        decreases names@.len() - k,
    {
        assert(views(names@)[k as int] == names@[k as int]@);
        if has_twice(&parts, &readings, names[k]) {
            return true;
        }
        k = k + 1;
    }
    false
}

fn read_fields(bytes: &[u8], names: &Vec<&str>) -> (r: Option<Vec<Member>>)
    ensures
        match r {
            Some(members) => fields_in(bytes@, views(names@)) == Some(by_name(pairs(members@))),
            None => fields_in(bytes@, views(names@)) is None,
        },
        forall|ms: Seq<(Seq<char>, Seq<u8>)>|
            value_members(ms) && distinct_names(ms) && ms.len() > 0 && #[trigger] object_text(ms) == bytes@
                ==> fields_in(bytes@, views(names@)) == Some(by_name(ms)),
{
    let members = read_members(bytes);
    if members.is_some() {
        proof {
            assert forall|ms: Seq<(Seq<char>, Seq<u8>)>|
                value_members(ms) && distinct_names(ms) && #[trigger] object_text(ms) == bytes@ implies closed_values(
                ms,
            ) by {
                lemma_read_values_are_closed(ms, members->0@);
            }
        }
        if has_repeats(bytes, names) {
            return None;
        }
        return members;
    }
    let items = match read_items(bytes) {
        Some(items) => items,
        None => return None,
    };
    if items.len() > names.len() {
        return None;
    }
    let ghost all = placed(views(names@), views(items@));
    let mut members: Vec<Member> = Vec::new();
    let mut i: usize = 0;
    while i < items.len()
        invariant
            i <= items@.len(),
            items@.len() <= names@.len(),
            all == placed(views(names@), views(items@)),
            pairs(members@) == all.take(i as int),
            members@.len() == i,
        decreases items@.len() - i,
    {
        members.push(Member { name: names[i].to_owned(), raw: copied(items[i].as_slice()) });
        i = i + 1;
        assert(pairs(members@) =~= all.take(i as int));
    }
    assert(all.take(i as int) =~= all);
    Some(members)
}

fn read_both(x: &[u8], y: &[u8], names: &Vec<&str>, kept: &Vec<&str>) -> (r: Option<(Vec<Member>, Vec<Member>)>)
    ensures
        match r {
            Some((a, b)) => both_readings(x@, y@, views(names@), views(kept@)) == Some(
                (by_name(pairs(a@)), by_name(pairs(b@))),
            ),
            None => both_readings(x@, y@, views(names@), views(kept@)) is None,
        },
        forall|ms: Seq<(Seq<char>, Seq<u8>)>|
            value_members(ms) && distinct_names(ms) && ms.len() > 0 && #[trigger] object_text(ms) == x@ && x@ == y@
                ==> both_readings(
                x@,
                y@,
                views(names@),
                views(kept@),
            ) == Some((by_name(ms), by_name(ms))),
{
    let a = read_fields(x, names);
    let b = read_fields(y, names);
    let (a, b) = match (a, b) {
        (Some(a), Some(b)) => (a, b),
        _ => return None,
    };
    let ghost left = by_name(pairs(a@));
    let ghost right = by_name(pairs(b@));
    if !has_names_of(&b, &a) || !has_names_of(&a, &b) {
        return None;
    }
    assert(left.dom() =~= right.dom());
    let mut i: usize = 0;
    while i < kept.len()
        invariant
            i <= kept@.len(),
            left == by_name(pairs(a@)),
            right == by_name(pairs(b@)),
            left.dom() == right.dom(),
            fields_in(x@, views(names@)) == Some(left),
            fields_in(y@, views(names@)) == Some(right),
            forall|k: int|
                0 <= k < i && left.dom().contains(#[trigger] views(kept@)[k]) ==> left[views(kept@)[k]]
                    == right[views(kept@)[k]],
        decreases kept@.len() - i,
    {
        assert(views(kept@)[i as int] == kept@[i as int]@);
        if !same_value(&a, &b, kept[i]) {
            return None;
        }
        i = i + 1;
    }
    Some((a, b))
}

// ── values in object texts ──────────────────────────────────────────────

/// `null`.
pub open spec fn null_text() -> Seq<u8> {
    seq![0x6eu8, 0x75, 0x6c, 0x6c]
}

fn null_bytes() -> (r: Vec<u8>)
    ensures
        r@ == null_text(),
{
    let r: Vec<u8> = vec![0x6eu8, 0x75, 0x6c, 0x6c];
    assert(r@ =~= null_text());
    r
}

/// The text in the quotes of `raw`, which must hold no escape.
pub open spec fn unquoted(raw: Seq<u8>) -> Option<Seq<char>> {
    if raw.len() >= 2 && raw[0] == 0x22 && raw.last() == 0x22 {
        let inner = raw.subrange(1, raw.len() - 1);
        if valid_utf8(inner) && !inner.contains(0x5cu8) {
            Some(decode_utf8(inner))
        } else {
            None
        }
    } else {
        None
    }
}

/// The whole number that `raw` writes.
pub open spec fn whole_number(raw: Seq<u8>) -> Option<nat> {
    if valid_utf8(raw) {
        number_in(decode_utf8(raw), 10, u64::MAX as nat)
    } else {
        None
    }
}

/// The number that `raw` writes, on either side of zero, as far as an `i64` goes.
/// A zero has no sign.
pub open spec fn signed_number(raw: Seq<u8>) -> Option<int> {
    if raw.len() > 0 && raw[0] == 0x2d {
        match whole_number(raw.skip(1)) {
            Some(n) => if 0 < n <= 0x8000_0000_0000_0000 {
                Some(-(n as int))
            } else {
                None
            },
            None => None,
        }
    } else {
        match whole_number(raw) {
            Some(n) => if n <= i64::MAX {
                Some(n as int)
            } else {
                None
            },
            None => None,
        }
    }
}

fn read_quoted(raw: &[u8]) -> (r: Option<String>)
    ensures
        match r {
            Some(s) => unquoted(raw@) == Some(s@),
            None => unquoted(raw@) is None,
        },
{
    let len: usize = raw.len();
    if len < 2 || raw[0] != 0x22 || raw[len - 1] != 0x22 {
        return None;
    }
    let mut inner: Vec<u8> = Vec::new();
    let ghost whole = raw@.subrange(1, raw@.len() - 1);
    let mut i: usize = 1;
    while i < len - 1
        invariant
            1 <= i <= len - 1,
            len == raw@.len(),
            whole == raw@.subrange(1, len - 1),
            inner@ == whole.take(i - 1),
            forall|k: int| 0 <= k < i - 1 ==> whole[k] != 0x5c,
        decreases len - i,
    {
        if raw[i] == 0x5c {
            assert(whole[i - 1] == 0x5c);
            return None;
        }
        inner.push(raw[i]);
        assert(inner@ =~= whole.take(i as int));
        i = i + 1;
    }
    assert(inner@ =~= whole);
    match utf8_text(inner.as_slice()) {
        Some(s) => {
            proof {
                encode_utf8_decode_utf8(s@);
            }
            Some(s.to_owned())
        },
        None => None,
    }
}

fn read_whole(raw: &[u8]) -> (r: Option<u64>)
    ensures
        match r {
            Some(n) => whole_number(raw@) == Some(n as nat),
            None => whole_number(raw@) is None,
        },
{
    match utf8_text(raw) {
        Some(s) => {
            proof {
                encode_utf8_decode_utf8(s@);
            }
            read_number(s, 10, u64::MAX)
        },
        None => None,
    }
}

fn read_signed(raw: &[u8]) -> (r: Option<i64>)
    ensures
        match r {
            Some(n) => signed_number(raw@) == Some(n as int),
            None => signed_number(raw@) is None,
        },
{
    if raw.len() > 0 && raw[0] == 0x2d {
        let mut rest: Vec<u8> = copied(raw);
        let _ = rest.remove(0);
        assert(rest@ =~= raw@.skip(1));
        match read_whole(rest.as_slice()) {
            Some(n) => {
                if n == 0 || n > 0x8000_0000_0000_0000 {
                    None
                } else if n == 0x8000_0000_0000_0000 {
                    Some(i64::MIN)
                } else {
                    Some(-(n as i64))
                }
            },
            None => None,
        }
    } else {
        match read_whole(raw) {
            Some(n) => {
                if n <= i64::MAX as u64 {
                    Some(n as i64)
                } else {
                    None
                }
            },
            None => None,
        }
    }
}

/// The low 16 bits of `n`.
pub open spec fn low16(n: int) -> u16 {
    (n % 0x1_0000) as u16
}

fn exec_low16(n: i64) -> (r: u16)
    ensures
        r == low16(n as int),
{
    if n >= 0 {
        (n % 0x1_0000) as u16
    } else {
        let k: i64 = -(n + 1);
        0xffff - (k % 0x1_0000) as u16
    }
}

// ── making frames ───────────────────────────────────────────────────────

fn put_quoted(out: &mut Vec<u8>, s: &str)
    ensures
        final(out)@ == old(out)@ + quoted(s@),
{
    out.push(0x22);
    append_bytes(out, s.as_bytes());
    out.push(0x22);
    assert(out@ =~= old(out)@ + quoted(s@));
}

fn put_first(out: &mut Vec<u8>, name: &str, raw: &[u8])
    ensures
        final(out)@ == old(out)@ + seq![0x7bu8] + members_text(seq![(name@, raw@)]),
{
    out.push(0x7b);
    put_quoted(out, name);
    out.push(0x3a);
    append_bytes(out, raw);
    assert(out@ =~= old(out)@ + seq![0x7bu8] + members_text(seq![(name@, raw@)]));
}

fn put_next(out: &mut Vec<u8>, name: &str, raw: &[u8], Ghost(start): Ghost<Seq<u8>>, Ghost(ms): Ghost<Seq<(Seq<char>, Seq<u8>)>>)
    requires
        ms.len() > 0,
        old(out)@ == start + seq![0x7bu8] + members_text(ms),
    ensures
        final(out)@ == start + seq![0x7bu8] + members_text(ms.push((name@, raw@))),
{
    out.push(0x2c);
    put_quoted(out, name);
    out.push(0x3a);
    append_bytes(out, raw);
    assert(ms.push((name@, raw@)).drop_last() =~= ms);
    assert(out@ =~= start + seq![0x7bu8] + members_text(ms.push((name@, raw@))));
}

fn close_object(out: &mut Vec<u8>, Ghost(start): Ghost<Seq<u8>>, Ghost(ms): Ghost<Seq<(Seq<char>, Seq<u8>)>>)
    requires
        old(out)@ == start + seq![0x7bu8] + members_text(ms),
    ensures
        final(out)@ == start + object_text(ms),
{
    out.push(0x7d);
    assert(out@ =~= start + object_text(ms));
}

fn quoted_bytes(s: &str) -> (r: Vec<u8>)
    ensures
        r@ == quoted(s@),
{
    let mut r: Vec<u8> = Vec::new();
    put_quoted(&mut r, s);
    assert(r@ =~= quoted(s@));
    r
}

/// The members of a request frame.
pub open spec fn request_members(method: Seq<char>, request_id: u64, params: Seq<u8>) -> Seq<(Seq<char>, Seq<u8>)> {
    seq![
        ("jsonrpc"@, quoted("2.0"@)),
        ("method"@, quoted(method)),
        ("params"@, params),
        ("id"@, decimal_bytes(request_id as nat)),
    ]
}

/// The request frame: method, params and id.
pub open spec fn request_frame(method: Seq<char>, request_id: u64, params: Seq<u8>) -> Seq<u8> {
    object_text(request_members(method, request_id, params))
}

/// `raw`, or `null` where it is empty.
pub open spec fn or_null(raw: Seq<u8>) -> Seq<u8> {
    if raw.len() == 0 {
        null_text()
    } else {
        raw
    }
}

/// The members of the frame of a result.
pub open spec fn ok_members(request_id: u64, payload: Seq<u8>) -> Seq<(Seq<char>, Seq<u8>)> {
    seq![
        ("jsonrpc"@, quoted("2.0"@)),
        ("result"@, or_null(payload)),
        ("id"@, decimal_bytes(request_id as nat)),
    ]
}

/// The members of an error.
pub open spec fn error_members(id: u16, body: Seq<u8>) -> Seq<(Seq<char>, Seq<u8>)> {
    seq![
        ("code"@, decimal_bytes(id as nat)),
        ("message"@, quoted("application error"@)),
        ("data"@, or_null(body)),
    ]
}

/// The members of the frame of an error.
pub open spec fn err_members(request_id: u64, id: u16, body: Seq<u8>) -> Seq<(Seq<char>, Seq<u8>)> {
    seq![
        ("jsonrpc"@, quoted("2.0"@)),
        ("error"@, object_text(error_members(id, body))),
        ("id"@, decimal_bytes(request_id as nat)),
    ]
}

/// Appends the request frame for `method`. Method names are generated
/// identifiers: they are not escaped.
pub fn jsonrpc_encode_request(method: &str, request_id: u64, params: &[u8], out: &mut Vec<u8>)
    ensures
        final(out)@ == old(out)@ + request_frame(method@, request_id, params@),
{
    let ghost start = out@;
    let ghost ms = request_members(method@, request_id, params@);
    let version = quoted_bytes("2.0");
    let name = quoted_bytes(method);
    let id = u64_bytes(request_id);
    put_first(out, "jsonrpc", version.as_slice());
    assert(seq![ms[0]] =~= ms.take(1));
    assert(ms.take(1).push(ms[1]) =~= ms.take(2));
    assert(ms.take(2).push(ms[2]) =~= ms.take(3));
    assert(ms.take(3).push(ms[3]) =~= ms);
    put_next(out, "method", name.as_slice(), Ghost(start), Ghost(ms.take(1)));
    put_next(out, "params", params, Ghost(start), Ghost(ms.take(2)));
    put_next(out, "id", id.as_slice(), Ghost(start), Ghost(ms.take(3)));
    close_object(out, Ghost(start), Ghost(ms));
}

/// Appends the response frame of a result.
pub fn jsonrpc_encode_response_ok(request_id: u64, payload: &[u8], out: &mut Vec<u8>)
    ensures
        final(out)@ == old(out)@ + object_text(ok_members(request_id, payload@)),
{
    let ghost start = out@;
    let ghost ms = ok_members(request_id, payload@);
    let version = quoted_bytes("2.0");
    let result = if payload.len() == 0 {
        null_bytes()
    } else {
        copied(payload)
    };
    let id = u64_bytes(request_id);
    put_first(out, "jsonrpc", version.as_slice());
    assert(seq![ms[0]] =~= ms.take(1));
    assert(ms.take(1).push(ms[1]) =~= ms.take(2));
    assert(ms.take(2).push(ms[2]) =~= ms);
    put_next(out, "result", result.as_slice(), Ghost(start), Ghost(ms.take(1)));
    put_next(out, "id", id.as_slice(), Ghost(start), Ghost(ms.take(2)));
    close_object(out, Ghost(start), Ghost(ms));
}

fn error_bytes(id: u16, body: &[u8]) -> (r: Vec<u8>)
    ensures
        r@ == object_text(error_members(id, body@)),
{
    let ghost ms = error_members(id, body@);
    let ghost start = Seq::<u8>::empty();
    let mut r: Vec<u8> = Vec::new();
    let code = u64_bytes(id as u64);
    let message = quoted_bytes("application error");
    let data = if body.len() == 0 {
        null_bytes()
    } else {
        copied(body)
    };
    put_first(&mut r, "code", code.as_slice());
    assert(seq![ms[0]] =~= ms.take(1));
    assert(ms.take(1).push(ms[1]) =~= ms.take(2));
    assert(ms.take(2).push(ms[2]) =~= ms);
    put_next(&mut r, "message", message.as_slice(), Ghost(start), Ghost(ms.take(1)));
    put_next(&mut r, "data", data.as_slice(), Ghost(start), Ghost(ms.take(2)));
    close_object(&mut r, Ghost(start), Ghost(ms));
    assert(r@ =~= object_text(ms));
    r
}

/// Appends the response frame of a raised error.
pub fn jsonrpc_encode_response_err(request_id: u64, id: u16, body: &[u8], out: &mut Vec<u8>)
    ensures
        final(out)@ == old(out)@ + object_text(err_members(request_id, id, body@)),
{
    let ghost start = out@;
    let ghost ms = err_members(request_id, id, body@);
    let version = quoted_bytes("2.0");
    let error = error_bytes(id, body);
    let number = u64_bytes(request_id);
    put_first(out, "jsonrpc", version.as_slice());
    assert(seq![ms[0]] =~= ms.take(1));
    assert(ms.take(1).push(ms[1]) =~= ms.take(2));
    assert(ms.take(2).push(ms[2]) =~= ms);
    put_next(out, "error", error.as_slice(), Ghost(start), Ghost(ms.take(1)));
    put_next(out, "id", number.as_slice(), Ghost(start), Ghost(ms.take(2)));
    close_object(out, Ghost(start), Ghost(ms));
}

// ── reading frames ──────────────────────────────────────────────────────

/// The text of the value of `name`, or `null` where there is none.
pub open spec fn value_or_null(m: Map<Seq<char>, Seq<u8>>, name: Seq<char>) -> Seq<u8> {
    if m.dom().contains(name) {
        m[name]
    } else {
        null_text()
    }
}

/// The request that the members of a frame make. The method must be a text
/// without escapes; the id a whole number, `null`, or absent.
pub open spec fn request_in(m: Map<Seq<char>, Seq<u8>>) -> Option<RequestView> {
    let id: Option<nat> = if value_or_null(m, "id"@) == null_text() {
        Some(0)
    } else {
        whole_number(m["id"@])
    };
    let method: Option<Seq<char>> = if m.dom().contains("method"@) {
        unquoted(m["method"@])
    } else {
        None
    };
    match (method, id) {
        (Some(name), Some(id)) => Some(
            RequestView {
                call: CallView::Name(name),
                request_id: id as u64,
                params: value_or_null(m, "params"@),
            },
        ),
        _ => None,
    }
}

/// The response that the members of a frame make, with the members of its error
/// where it has one. The id must be a whole number; so must, on either side of
/// zero, the code of an error, of which the low 16 bits count.
pub open spec fn response_in(
    m: Map<Seq<char>, Seq<u8>>,
    error: Option<Map<Seq<char>, Seq<u8>>>,
) -> Option<(u64, EnvelopeView)> {
    let id: Option<nat> = if m.dom().contains("id"@) {
        whole_number(m["id"@])
    } else {
        None
    };
    let envelope: Option<EnvelopeView> = match error {
        None => Some(EnvelopeView::Success(value_or_null(m, "result"@))),
        Some(e) => {
            let code: Option<int> = if e.dom().contains("code"@) {
                signed_number(e["code"@])
            } else {
                None
            };
            match code {
                Some(code) => Some(EnvelopeView::Failure { id: low16(code), body: value_or_null(e, "data"@) }),
                None => None,
            }
        },
    };
    match (id, envelope) {
        (Some(id), Some(envelope)) => Some((id as u64, envelope)),
        _ => None,
    }
}

/// The fields of a request, in order.
pub open spec fn request_fields() -> Seq<Seq<char>> {
    seq!["method"@, "params"@, "id"@]
}

/// The fields of a response, in order.
pub open spec fn response_fields() -> Seq<Seq<char>> {
    seq!["result"@, "error"@, "id"@]
}

/// The fields of an error that count, in order.
pub open spec fn error_fields() -> Seq<Seq<char>> {
    seq!["code"@, "data"@]
}

/// The request in a frame.
pub open spec fn request_of_frame(frame: Seq<u8>) -> Option<RequestView> {
    match frame_readings(frame, request_fields(), request_fields()) {
        Some((m, _)) => request_in(m),
        None => None,
    }
}

/// The response in a frame: an error that is not `null` must itself be a record.
pub open spec fn response_of_frame(frame: Seq<u8>) -> Option<(u64, EnvelopeView)> {
    match frame_readings(frame, response_fields(), seq!["result"@, "id"@]) {
        None => None,
        Some((m, again)) => if value_or_null(m, "error"@) == null_text() {
            response_in(m, None)
        } else {
            match both_readings(
                value_or_null(m, "error"@),
                value_or_null(again, "error"@),
                error_fields(),
                error_fields(),
            ) {
                None => None,
                Some((e, _)) => response_in(m, Some(e)),
            }
        },
    }
}

fn is_null(raw: &Vec<u8>) -> (r: bool)
    ensures
        r == (raw@ == null_text()),
{
    let null = null_bytes();
    same_bytes(raw.as_slice(), null.as_slice())
}

fn member_or_null(members: &Vec<Member>, name: &str) -> (r: Vec<u8>)
    ensures
        r@ == value_or_null(by_name(pairs(members@)), name@),
{
    match find_member(members, name) {
        Some(raw) => copied(raw.as_slice()),
        None => null_bytes(),
    }
}

/// The request that the members of a frame make.
pub fn request_from_members(members: &Vec<Member>) -> (r: Option<Request>)
    ensures
        maybe_request(r) == request_in(by_name(pairs(members@))),
{
    let id = member_or_null(members, "id");
    let request_id: u64 = if is_null(&id) {
        0
    } else {
        match read_whole(id.as_slice()) {
            Some(n) => n,
            None => return None,
        }
    };
    let name = match find_member(members, "method") {
        Some(raw) => match read_quoted(raw.as_slice()) {
            Some(name) => name,
            None => return None,
        },
        None => return None,
    };
    Some(Request { call: RequestCall::Name(name), request_id, params: member_or_null(members, "params") })
}

/// The response that the members of a frame make, with the members of its error
/// where it has one.
pub fn response_from_members(members: &Vec<Member>, error: Option<&Vec<Member>>) -> (r: Option<(u64, Envelope)>)
    ensures
        maybe_response(r) == response_in(
            by_name(pairs(members@)),
            match error {
                Some(e) => Some(by_name(pairs(e@))),
                None => None,
            },
        ),
{
    let id: u64 = match find_member(members, "id") {
        Some(raw) => match read_whole(raw.as_slice()) {
            Some(n) => n,
            None => return None,
        },
        None => return None,
    };
    match error {
        None => Some((id, Envelope::Success(member_or_null(members, "result")))),
        Some(e) => {
            let code: i64 = match find_member(e, "code") {
                Some(raw) => match read_signed(raw.as_slice()) {
                    Some(n) => n,
                    None => return None,
                },
                None => return None,
            };
            Some((id, Envelope::Failure { id: exec_low16(code), body: member_or_null(e, "data") }))
        },
    }
}

/// Reads a frame as a record, twice. A frame that was made of texts reads both
/// times as the members that it was made of.
fn read_frame(frame: &[u8], names: &Vec<&str>, kept: &Vec<&str>) -> (r: Option<(Vec<Member>, Vec<Member>)>)
    ensures
        match r {
            Some((a, b)) => frame_readings(frame@, views(names@), views(kept@)) == Some(
                (by_name(pairs(a@)), by_name(pairs(b@))),
            ),
            None => frame_readings(frame@, views(names@), views(kept@)) is None,
        },
        forall|ms: Seq<(Seq<char>, Seq<u8>)>|
            value_members(ms) && distinct_names(ms) && ms.len() > 0 && #[trigger] object_text(ms) == frame@
                ==> frame_readings(
                frame@,
                views(names@),
                views(kept@),
            ) == Some((by_name(ms), by_name(ms))),
{
    // a frame that is UTF-8 has nothing to mend
    if read_members(frame).is_some() {
        proof {
            lemma_text_is_whole(frame@, 0x3f);
            lemma_text_is_whole(frame@, 0x21);
        }
        return read_both(frame, frame, names, kept);
    }
    let x = mend(frame, 0x3f);
    let y = mend(frame, 0x21);
    read_both(x.as_slice(), y.as_slice(), names, kept)
}

/// Whether `frame`, where it was made of a method name that needs no escape and of
/// params that are the text of a value, gives back that method, that id and those
/// params.
pub open spec fn reads_request(frame: Seq<u8>) -> bool {
    forall|method: Seq<char>, id: u64, params: Seq<u8>|
        frame == #[trigger] request_frame(method, id, params) && needs_no_escape(method) && value_text(params)
            ==> request_of_frame(frame) == Some(
            RequestView { call: CallView::Name(method), request_id: id, params },
        )
}

/// Whether `frame`, where it was made of a result, or of an error, whose body is the
/// text of a value, gives back that id and that body; `null` for an empty body.
pub open spec fn reads_response(frame: Seq<u8>) -> bool {
    &&& forall|id: u64, payload: Seq<u8>|
        frame == object_text(#[trigger] ok_members(id, payload)) && (payload.len() == 0 || value_text(payload))
            ==> response_of_frame(frame) == Some((id, EnvelopeView::Success(or_null(payload))))
    &&& forall|id: u64, code: u16, body: Seq<u8>|
        frame == object_text(#[trigger] err_members(id, code, body)) && (body.len() == 0 || simple_value(body))
            ==> response_of_frame(frame) == Some((id, EnvelopeView::Failure { id: code, body: or_null(body) }))
}

/// Reads a JSON-RPC request frame. What was made of a call is read as that call.
pub fn jsonrpc_decode_request(frame: &[u8]) -> (r: Option<Request>)
    ensures
        maybe_request(r) == request_of_frame(frame@),
        reads_request(frame@),
{
    let names: Vec<&str> = vec!["method", "params", "id"];
    assert(views(names@) =~= request_fields());
    let members = read_frame(frame, &names, &names);
    proof {
        assert forall|method: Seq<char>, id: u64, params: Seq<u8>|
            frame@ == #[trigger] request_frame(method, id, params) && needs_no_escape(method) && value_text(
                params,
            ) implies request_of_frame(frame@) == Some(
            RequestView { call: CallView::Name(method), request_id: id, params },
        ) by {
            lemma_request_frame(method, id, params);
            assert(object_text(request_members(method, id, params)) == frame@);
        }
    }
    match members {
        Some((members, _)) => request_from_members(&members),
        None => None,
    }
}

/// Reads a JSON-RPC response frame. What was made of a result, or of an error, is
/// read as that.
pub fn jsonrpc_decode_response(frame: &[u8]) -> (r: Option<(u64, Envelope)>)
    ensures
        maybe_response(r) == response_of_frame(frame@),
        reads_response(frame@),
{
    let names: Vec<&str> = vec!["result", "error", "id"];
    let kept: Vec<&str> = vec!["result", "id"];
    assert(views(names@) =~= response_fields());
    assert(views(kept@) =~= seq!["result"@, "id"@]);
    let readings = read_frame(frame, &names, &kept);
    proof {
        assert forall|id: u64, payload: Seq<u8>|
            frame@ == object_text(#[trigger] ok_members(id, payload)) && (payload.len() == 0 || value_text(
                payload,
            )) implies response_of_frame(frame@) == Some((id, EnvelopeView::Success(or_null(payload)))) by {
            lemma_ok_frame(id, payload);
        }
    }
    let (members, again) = match readings {
        Some(both) => both,
        None => {
            proof {
                assert forall|id: u64, code: u16, body: Seq<u8>|
                    frame@ == object_text(#[trigger] err_members(id, code, body)) && (body.len() == 0 || simple_value(
                            body,
                        )) implies false by {
                    lemma_err_frame(id, code, body);
                }
            }
            return None;
        },
    };
    let error = member_or_null(&members, "error");
    if is_null(&error) {
        proof {
            assert forall|id: u64, code: u16, body: Seq<u8>|
                frame@ == object_text(#[trigger] err_members(id, code, body)) && (body.len() == 0 || simple_value(
                        body,
                    )) implies false by {
                lemma_err_frame(id, code, body);
            }
        }
        return response_from_members(&members, None);
    }
    let error_again = member_or_null(&again, "error");
    let inner_names: Vec<&str> = vec!["code", "data"];
    assert(views(inner_names@) =~= error_fields());
    let inner = read_both(error.as_slice(), error_again.as_slice(), &inner_names, &inner_names);
    proof {
        assert forall|id: u64, code: u16, body: Seq<u8>|
            frame@ == object_text(#[trigger] err_members(id, code, body)) && (body.len() == 0 || simple_value(
                    body,
                )) implies response_of_frame(frame@) == Some((id, EnvelopeView::Failure { id: code, body: or_null(body) })) by {
            lemma_err_frame(id, code, body);
            assert(object_text(error_members(code, body)) == error@);
        }
    }
    match inner {
        Some((inner, _)) => response_from_members(&members, Some(&inner)),
        None => None,
    }
}

// ── by framing ──────────────────────────────────────────────────────────

impl WireFraming {
    /// Appends a request frame. `datagram` is the frame that the runtime makes.
    pub fn encode_request(self, call_name: &str, request_id: u64, params: &[u8], datagram: &[u8], out: &mut Vec<u8>)
        ensures
            final(out)@ == old(out)@ + (match self {
                WireFraming::Datagram => datagram@,
                WireFraming::Jsonrpc => request_frame(call_name@, request_id, params@),
            }),
    {
        match self {
            WireFraming::Datagram => append_bytes(out, datagram),
            WireFraming::Jsonrpc => jsonrpc_encode_request(call_name, request_id, params, out),
        }
    }

    /// Reads a request frame. `datagram` is what the runtime reads in it.
    pub fn decode_request(self, frame: &[u8], datagram: Option<Request>) -> (r: Option<Request>)
        ensures
            maybe_request(r) == (match self {
                WireFraming::Datagram => maybe_request(datagram),
                WireFraming::Jsonrpc => request_of_frame(frame@),
            }),
            self == WireFraming::Jsonrpc ==> reads_request(frame@),
    {
        match self {
            WireFraming::Datagram => datagram,
            WireFraming::Jsonrpc => jsonrpc_decode_request(frame),
        }
    }

    /// Appends the response frame of a result. `datagram` is the frame that the
    /// runtime makes.
    pub fn encode_response_ok(self, request_id: u64, payload: &[u8], datagram: &[u8], out: &mut Vec<u8>)
        ensures
            final(out)@ == old(out)@ + (match self {
                WireFraming::Datagram => datagram@,
                WireFraming::Jsonrpc => object_text(ok_members(request_id, payload@)),
            }),
    {
        match self {
            WireFraming::Datagram => append_bytes(out, datagram),
            WireFraming::Jsonrpc => jsonrpc_encode_response_ok(request_id, payload, out),
        }
    }

    /// Appends the response frame of a raised error. `datagram` is the frame that
    /// the runtime makes.
    pub fn encode_response_err(self, request_id: u64, id: u16, body: &[u8], datagram: &[u8], out: &mut Vec<u8>)
        ensures
            final(out)@ == old(out)@ + (match self {
                WireFraming::Datagram => datagram@,
                WireFraming::Jsonrpc => object_text(err_members(request_id, id, body@)),
            }),
    {
        match self {
            WireFraming::Datagram => append_bytes(out, datagram),
            WireFraming::Jsonrpc => jsonrpc_encode_response_err(request_id, id, body, out),
        }
    }

    /// Reads a response frame. `datagram` is what the runtime reads in it.
    pub fn decode_response(self, frame: &[u8], datagram: Option<(u64, Envelope)>) -> (r: Option<(u64, Envelope)>)
        ensures
            maybe_response(r) == (match self {
                WireFraming::Datagram => maybe_response(datagram),
                WireFraming::Jsonrpc => response_of_frame(frame@),
            }),
            self == WireFraming::Jsonrpc ==> reads_response(frame@),
    {
        match self {
            WireFraming::Datagram => datagram,
            WireFraming::Jsonrpc => jsonrpc_decode_response(frame),
        }
    }
}

// ── what was written is what is read ────────────────────────────────────

proof fn lemma_single_name(m: (Seq<char>, Seq<u8>))
    ensures
        by_name(seq![m]).dom() == set![m.0],
{
    reveal_with_fuel(by_name, 2);
    assert(seq![m].drop_last() =~= Seq::empty());
    assert(by_name(seq![m]).dom() =~= set![m.0]);
}

proof fn lemma_quoted_name_is_closed(s: Seq<char>)
    requires
        needs_no_escape(s),
    ensures
        closed(quoted(s)),
{
    let inner = encode_utf8(s);
    assert(is_ascii_chars(s)) by {
        assert forall|i: int| 0 <= i < s.len() implies '\0' <= #[trigger] s[i] <= '\u{7f}' by {
            assert(' ' <= s[i] <= '~');
        }
    }
    is_ascii_chars_encode_utf8(s);
    assert forall|i: int| 0 <= i < inner.len() implies #[trigger] inner[i] != 0x22 && inner[i] != 0x5c by {
        assert(s[i] as u8 == inner[i]);
        assert(s[i] != '"' && s[i] != '\\');
    }
    lemma_quoted_is_closed(inner);
}

proof fn lemma_by_name_holds(members: Seq<(Seq<char>, Seq<u8>)>, i: int)
    requires
        distinct_names(members),
        0 <= i < members.len(),
    ensures
        by_name(members).dom().contains(members[i].0),
        by_name(members)[members[i].0] == members[i].1,
    decreases members.len(),
{
    let short = members.drop_last();
    if i < short.len() {
        assert forall|k: int, j: int| 0 <= k < j < short.len() implies (#[trigger] short[k]).0 != (#[trigger] short[j]).0 by {
            assert(members[k].0 != members[j].0);
        }
        assert(short[i] == members[i]);
        lemma_by_name_holds(short, i);
        assert(members[i].0 != members[members.len() - 1].0);
    }
}

proof fn lemma_by_name_is_held(members: Seq<(Seq<char>, Seq<u8>)>, name: Seq<char>)
    requires
        by_name(members).dom().contains(name),
    ensures
        exists|i: int| 0 <= i < members.len() && #[trigger] members[i] == (name, by_name(members)[name]),
    decreases members.len(),
{
    let short = members.drop_last();
    if members.last().0 == name {
        assert(members[members.len() - 1] == (name, by_name(members)[name]));
    } else {
        lemma_by_name_is_held(short, name);
        let i = choose|i: int| 0 <= i < short.len() && #[trigger] short[i] == (name, by_name(short)[name]);
        assert(members[i] == (name, by_name(members)[name]));
    }
}

/// What was read of a text has the values that the text was made of.
proof fn lemma_read_values_are_closed(members: Seq<(Seq<char>, Seq<u8>)>, read: Seq<Member>)
    requires
        distinct_names(members),
        by_name(pairs(read)) == by_name(members),
        forall|i: int| 0 <= i < read.len() ==> closed((#[trigger] read[i]).raw@),
    ensures
        closed_values(members),
{
    assert forall|i: int| 0 <= i < members.len() implies closed((#[trigger] members[i]).1) by {
        let name = members[i].0;
        lemma_by_name_holds(members, i);
        lemma_by_name_is_held(pairs(read), name);
        let k = choose|k: int|
            0 <= k < pairs(read).len() && #[trigger] pairs(read)[k] == (name, by_name(pairs(read))[name]);
        assert(read[k].raw@ == members[i].1);
    }
}

/// The text of each of `members`.
spec fn member_texts(members: Seq<(Seq<char>, Seq<u8>)>) -> Seq<Seq<u8>> {
    Seq::new(members.len(), |i: int| member_text(members[i]))
}

proof fn lemma_members_text(members: Seq<(Seq<char>, Seq<u8>)>)
    ensures
        members_text(members) == comma_separated(member_texts(members)),
    decreases members.len(),
{
    if members.len() > 1 {
        lemma_members_text(members.drop_last());
        assert(member_texts(members).drop_last() =~= member_texts(members.drop_last()));
    }
}

proof fn lemma_member_is_closed(m: (Seq<char>, Seq<u8>))
    requires
        needs_no_escape(m.0),
        closed(m.1),
    ensures
        closed(member_text(m)),
{
    lemma_quoted_name_is_closed(m.0);
    lemma_plain_byte_is_closed(0x3a);
    lemma_closed_concat(quoted(m.0), seq![0x3au8], outside());
    lemma_closed_concat(quoted(m.0) + seq![0x3au8], m.1, outside());
}

/// An object text is in the pieces that it was made of.
proof fn lemma_object_in_pieces(members: Seq<(Seq<char>, Seq<u8>)>)
    requires
        value_members(members),
        closed_values(members),
        members.len() > 0,
    ensures
        pieces_of(inside(object_text(members))) == member_texts(members),
{
    let texts = member_texts(members);
    assert forall|i: int| 0 <= i < texts.len() implies closed(#[trigger] texts[i]) by {
        assert(needs_no_escape(members[i].0) && closed(members[i].1));
        lemma_member_is_closed(members[i]);
    }
    lemma_members_text(members);
    lemma_pieces_read_back(texts);
    let text = object_text(members);
    assert(text[0] == 0x7b);
    assert(text.last() == 0x7d);
    assert(text.subrange(1, text.len() - 1) =~= members_text(members));
}

pub proof fn lemma_quoted_reads_back(s: Seq<char>)
    requires
        needs_no_escape(s),
    ensures
        unquoted(quoted(s)) == Some(s),
{
    let raw = quoted(s);
    let inner = encode_utf8(s);
    assert(raw.subrange(1, raw.len() - 1) =~= inner);
    encode_utf8_valid_utf8(s);
    encode_utf8_decode_utf8(s);
    assert(is_ascii_chars(s)) by {
        assert forall|i: int| 0 <= i < s.len() implies '\0' <= #[trigger] s[i] <= '\u{7f}' by {
            assert(' ' <= s[i] <= '~');
        }
    }
    is_ascii_chars_encode_utf8(s);
    assert(!inner.contains(0x5cu8)) by {
        if inner.contains(0x5cu8) {
            let i = inner.index_of(0x5cu8);
            assert(s[i] as u8 == inner[i]);
            assert(s[i] != '\\');
        }
    }
}

pub proof fn lemma_number_reads_back(n: u64)
    ensures
        whole_number(decimal_bytes(n as nat)) == Some(n as nat),
        n <= i64::MAX ==> signed_number(decimal_bytes(n as nat)) == Some(n as int),
        decimal_bytes(n as nat) != null_text(),
        simple_value(decimal_bytes(n as nat)),
{
    text::lemma_decimal_bytes(n as nat);
    lemma_decimal_reads_back(n as nat, u64::MAX as nat);
    encode_utf8_valid_utf8(decimal(n as nat));
    encode_utf8_decode_utf8(decimal(n as nat));
    assert(null_text()[0] == 0x6e);
}

proof fn lemma_names()
    ensures
        needs_no_escape("jsonrpc"@),
        needs_no_escape("2.0"@),
        needs_no_escape("method"@),
        needs_no_escape("params"@),
        needs_no_escape("id"@),
        needs_no_escape("result"@),
        needs_no_escape("error"@),
        needs_no_escape("code"@),
        needs_no_escape("message"@),
        needs_no_escape("data"@),
        needs_no_escape("application error"@),
        "jsonrpc"@.len() == 7,
        "method"@.len() == 6,
        "params"@.len() == 6,
        "result"@.len() == 6,
        "error"@.len() == 5,
        "id"@.len() == 2,
        "code"@.len() == 4,
        "data"@.len() == 4,
        "message"@.len() == 7,
        "method"@[0] == 'm',
        "params"@[0] == 'p',
        "code"@[0] == 'c',
        "data"@[0] == 'd',
{
    reveal_strlit("jsonrpc");
    reveal_strlit("2.0");
    reveal_strlit("method");
    reveal_strlit("params");
    reveal_strlit("id");
    reveal_strlit("result");
    reveal_strlit("error");
    reveal_strlit("code");
    reveal_strlit("message");
    reveal_strlit("data");
    reveal_strlit("application error");
}

proof fn lemma_request_frame(method: Seq<char>, id: u64, params: Seq<u8>)
    requires
        needs_no_escape(method),
        value_text(params),
    ensures
        value_members(request_members(method, id, params)),
        distinct_names(request_members(method, id, params)),
        request_in(by_name(request_members(method, id, params))) == Some(
            RequestView { call: CallView::Name(method), request_id: id, params },
        ),
{
    let ms = request_members(method, id, params);
    lemma_names();
    lemma_quoted_reads_back(method);
    lemma_number_reads_back(id);
    assert(simple_value(quoted("2.0"@)));
    assert(simple_value(quoted(method)));
    assert(value_members(ms)) by {
        assert forall|i: int| 0 <= i < ms.len() implies needs_no_escape((#[trigger] ms[i]).0) && value_text(
            ms[i].1,
        ) by {
            assert(i == 0 || i == 1 || i == 2 || i == 3);
        }
    }
    reveal_with_fuel(by_name, 5);
    assert(ms.drop_last().drop_last().drop_last().drop_last() =~= Seq::empty());
}

proof fn lemma_ok_frame(id: u64, payload: Seq<u8>)
    requires
        payload.len() == 0 || value_text(payload),
    ensures
        value_members(ok_members(id, payload)),
        distinct_names(ok_members(id, payload)),
        value_or_null(by_name(ok_members(id, payload)), "error"@) == null_text(),
        response_in(by_name(ok_members(id, payload)), None) == Some((id, EnvelopeView::Success(or_null(payload)))),
{
    let ms = ok_members(id, payload);
    lemma_names();
    lemma_number_reads_back(id);
    assert(simple_value(null_text()));
    assert(simple_value(quoted("2.0"@)));
    assert(value_members(ms)) by {
        assert forall|i: int| 0 <= i < ms.len() implies needs_no_escape((#[trigger] ms[i]).0) && value_text(
            ms[i].1,
        ) by {
            assert(i == 0 || i == 1 || i == 2);
        }
    }
    reveal_with_fuel(by_name, 4);
    assert(ms.drop_last().drop_last().drop_last() =~= Seq::empty());
}

proof fn lemma_err_frame(id: u64, code: u16, body: Seq<u8>)
    requires
        body.len() == 0 || simple_value(body),
    ensures
        value_members(err_members(id, code, body)),
        value_members(error_members(code, body)),
        distinct_names(err_members(id, code, body)),
        distinct_names(error_members(code, body)),
        value_or_null(by_name(err_members(id, code, body)), "error"@) == object_text(error_members(code, body)),
        by_name(err_members(id, code, body)).dom().contains("error"@),
        object_text(error_members(code, body)) != null_text(),
        response_in(by_name(err_members(id, code, body)), Some(by_name(error_members(code, body)))) == Some(
            (id, EnvelopeView::Failure { id: code, body: or_null(body) }),
        ),
{
    let ms = err_members(id, code, body);
    let es = error_members(code, body);
    lemma_names();
    lemma_number_reads_back(id);
    lemma_number_reads_back(code as u64);
    assert(simple_value(null_text()));
    assert(simple_value(quoted("2.0"@)));
    assert(simple_value(quoted("application error"@)));
    assert forall|i: int| 0 <= i < es.len() implies needs_no_escape((#[trigger] es[i]).0) && simple_value(
        es[i].1,
    ) by {
        assert(i == 0 || i == 1 || i == 2);
    }
    assert(simple_members(es));
    assert(value_text(object_text(es)));
    assert(value_members(ms)) by {
        assert forall|i: int| 0 <= i < ms.len() implies needs_no_escape((#[trigger] ms[i]).0) && value_text(
            ms[i].1,
        ) by {
            assert(i == 0 || i == 1 || i == 2);
        }
    }
    assert(object_text(es)[0] == 0x7b);
    assert(null_text()[0] == 0x6e);
    reveal_with_fuel(by_name, 4);
    assert(ms.drop_last().drop_last().drop_last() =~= Seq::empty());
    assert(es.drop_last().drop_last().drop_last() =~= Seq::empty());
}

} // verus!

//! JSON values. The simulation carries them as `serde_json` values; what one of
//! them holds is a [`Json`], and every contract that speaks of a value speaks of
//! that. The functions here build values and look into them, one level at a
//! time.

use serde_json::Value;
use vstd::arithmetic::power2::pow2;
use vstd::prelude::*;
use vstd::utf8::{encode_utf8, valid_utf8};
use crate::double::{in_53_bits, Double};
use crate::text::utf8_text;

verus! {

/// A JSON number: an integer where it is one, else the bits of a double.
pub ghost enum JsonNumber {
    Pos(u64),
    /// Below zero.
    Neg(i64),
    /// Finite.
    Float(u64),
}

/// What a JSON value holds.
#[verifier::ext_equal]
pub ghost enum Json {
    Null,
    Bool(bool),
    Number(JsonNumber),
    Text(Seq<char>),
    Array(Seq<Json>),
    Object(Map<Seq<char>, Json>),
}

impl Json {
    /// The whole number `n`.
    pub open spec fn whole(n: u64) -> Json {
        Json::Number(JsonNumber::Pos(n))
    }

    /// The member `key`, of an object that has it.
    pub open spec fn member(self, key: Seq<char>) -> Option<Json> {
        match self {
            Json::Object(members) if members.dom().contains(key) => Some(members[key]),
            _ => None,
        }
    }

    /// With `key` set to `value`, where this is an object.
    pub open spec fn with_member(self, key: Seq<char>, value: Json) -> Json {
        match self {
            Json::Object(members) => Json::Object(members.insert(key, value)),
            other => other,
        }
    }

    /// An object with one member.
    pub open spec fn single(key: Seq<char>, value: Json) -> Json {
        Json::Object(Map::empty().insert(key, value))
    }

    /// Whether this holds no float, is nested at most `depth` deep, and has no
    /// member whose name starts with a dollar sign. Such a value comes through an
    /// encoding and a decoding unchanged.
    pub open spec fn plain(self, depth: nat) -> bool
        decreases depth,
    {
        match self {
            Json::Number(JsonNumber::Float(_)) => false,
            Json::Array(items) => depth > 0 && forall|i: int|
                0 <= i < items.len() ==> (#[trigger] items[i]).plain((depth - 1) as nat),
            Json::Object(members) => depth > 0 && forall|k: Seq<char>| #[trigger]
                members.dom().contains(k) ==> !(k.len() > 0 && k[0] == '$') && members[k].plain(
                    (depth - 1) as nat,
                ),
            _ => true,
        }
    }
}

/// How deep a value may be nested to come through an encoding unchanged.
pub open spec fn max_depth() -> nat {
    127
}

/// `serde_json::Value`.
#[verifier::external_type_specification]
#[verifier::external_body]
pub struct ExValue(Value);

/// What a `serde_json::Value` holds.
pub uninterp spec fn content(v: Value) -> Json;

/// What a sequence of values holds.
pub open spec fn contents(values: Seq<Value>) -> Seq<Json> {
    Seq::new(values.len(), |i: int| content(values[i]))
}

/// `Value::clone`: a value that holds the same.
pub assume_specification[ <Value as Clone>::clone ](v: &Value) -> (r: Value)
    ensures
        content(r) == content(*v),
;

// ── building ────────────────────────────────────────────────────────────

/// `Value::Null`.
#[verifier::external_body]
pub(crate) fn null() -> (r: Value)
    ensures
        content(r) == Json::Null,
{
    Value::Null
}

/// `Value::Bool`.
#[verifier::external_body]
pub(crate) fn boolean(b: bool) -> (r: Value)
    ensures
        content(r) == Json::Bool(b),
{
    Value::Bool(b)
}

/// `Value::from` on a `u64`: the number itself.
#[verifier::external_body]
pub(crate) fn whole(n: u64) -> (r: Value)
    ensures
        content(r) == Json::whole(n),
{
    Value::from(n)
}

/// `Value::from` on an `i64`: below zero a negative number, else the number that
/// a `u64` gives.
#[verifier::external_body]
pub(crate) fn signed(n: i64) -> (r: Value)
    ensures
        content(r) == (if n < 0 {
            Json::Number(JsonNumber::Neg(n))
        } else {
            Json::whole(n as u64)
        }),
{
    Value::from(n)
}

/// `Value::String`.
#[verifier::external_body]
pub(crate) fn text(s: String) -> (r: Value)
    ensures
        content(r) == Json::Text(s@),
{
    Value::String(s)
}

/// `Value::Array`.
#[verifier::external_body]
pub(crate) fn array(items: Vec<Value>) -> (r: Value)
    ensures
        content(r) == Json::Array(contents(items@)),
{
    Value::Array(items)
}

/// What an object made of `members` holds: of two with one name, the later one.
pub open spec fn members_of(members: Seq<(String, Value)>) -> Map<Seq<char>, Json>
    decreases members.len(),
{
    if members.len() == 0 {
        Map::empty()
    } else {
        members_of(members.drop_last()).insert(members.last().0@, content(members.last().1))
    }
}

/// `Value::from_iter` on pairs: an object with these members.
#[verifier::external_body]
pub(crate) fn object(members: Vec<(String, Value)>) -> (r: Value)
    ensures
        content(r) == Json::Object(members_of(members@)),
{
    members.into_iter().collect()
}

/// `Map::insert` on the members of an object; any other value stays as it is.
#[verifier::external_body]
pub(crate) fn with_member(v: Value, key: String, member: Value) -> (r: Value)
    ensures
        content(r) == content(v).with_member(key@, content(member)),
{
    match v {
        Value::Object(mut members) => {
            members.insert(key, member);
            Value::Object(members)
        },
        other => other,
    }
}

/// An object with the one member `key`.
pub(crate) fn single(key: &str, value: Value) -> (r: Value)
    ensures
        content(r) == Json::single(key@, content(value)),
{
    let ghost held = content(value);
    let mut members: Vec<(String, Value)> = Vec::new();
    members.push((key.to_owned(), value));
    proof {
        reveal_with_fuel(members_of, 2);
        assert(members@.drop_last() =~= Seq::empty());
    }
    object(members)
}

// ── looking in ──────────────────────────────────────────────────────────

/// `Value::get` with a text: the member of that name, where the value is an
/// object that has one.
#[verifier::external_body]
pub(crate) fn member<'a>(v: &'a Value, key: &str) -> (r: Option<&'a Value>)
    ensures
        match r {
            Some(m) => content(*v).member(key@) == Some(content(*m)),
            None => content(*v).member(key@) is None,
        },
{
    v.get(key)
}

/// `Value::as_str`: the text, where the value is one.
#[verifier::external_body]
pub(crate) fn as_text(v: &Value) -> (r: Option<&str>)
    ensures
        match r {
            Some(s) => content(*v) == Json::Text(s@),
            None => content(*v) !is Text,
        },
{
    v.as_str()
}

/// `Value::as_u64`: the number, where the value is an integer of zero or more.
#[verifier::external_body]
pub(crate) fn as_whole(v: &Value) -> (r: Option<u64>)
    ensures
        match r {
            Some(n) => content(*v) == Json::whole(n),
            None => !(content(*v) matches Json::Number(JsonNumber::Pos(_))),
        },
{
    v.as_u64()
}

/// `Value::as_i64`: the number, where the value is an integer that an `i64`
/// holds.
#[verifier::external_body]
pub(crate) fn as_signed(v: &Value) -> (r: Option<i64>)
    ensures
        match r {
            Some(n) => content(*v) == (if n < 0 {
                Json::Number(JsonNumber::Neg(n))
            } else {
                Json::whole(n as u64)
            }),
            None => match content(*v) {
                Json::Number(JsonNumber::Pos(n)) => n > i64::MAX,
                Json::Number(JsonNumber::Neg(_)) => false,
                _ => true,
            },
        },
{
    v.as_i64()
}

/// Whether `d` is the double of a number. That of a float is the float itself; that
/// of an integer is the double nearest to it, the even one of two that are equally
/// near.
pub open spec fn is_double_of(d: Double, n: JsonNumber) -> bool {
    match n {
        JsonNumber::Float(bits) => d.bits == bits,
        JsonNumber::Pos(n) => !d.is_nan() && !d.negative() && d.scaled() == in_53_bits(n as nat, 1) * pow2(1074),
        JsonNumber::Neg(n) => !d.is_nan() && d.negative() && d.scaled() == -(in_53_bits((-n) as nat, 1) * pow2(1074)),
    }
}

/// The double of a number.
pub open spec fn number_double(n: JsonNumber) -> Double {
    choose|d: Double| is_double_of(d, n)
}

/// A number has no second double.
pub proof fn law_a_number_has_one_double(d: Double, n: JsonNumber)
    requires
        is_double_of(d, n),
    ensures
        number_double(n) == d,
{
    let other = number_double(n);
    assert(is_double_of(other, n));
    if n !is Float {
        Double::law_values_tell_doubles_apart(d, other);
    }
}

/// `Value::as_f64`, by its bits: the double of a number.
#[verifier::external_body]
pub(crate) fn as_double(v: &Value) -> (r: Option<Double>)
    ensures
        match r {
            Some(d) => content(*v) matches Json::Number(n) && is_double_of(d, n),
            None => content(*v) !is Number,
        },
{
    v.as_f64().map(|x| Double { bits: x.to_bits() })
}

// ── bytes ───────────────────────────────────────────────────────────────

/// What `serde_json::from_slice` reads as a value.
pub uninterp spec fn parsed_json(bytes: Seq<u8>) -> Option<Json>;

/// `serde_json::from_slice` into a value.
#[verifier::external_body]
pub(crate) fn parse_json(bytes: &[u8]) -> (r: Option<Value>)
    ensures
        match r {
            Some(v) => parsed_json(bytes@) == Some(content(v)),
            None => parsed_json(bytes@) is None,
        },
{
    serde_json::from_slice(bytes).ok()
}

/// What `serde_json::from_str` reads as a value, or the message of its error.
pub uninterp spec fn read_json(text: Seq<char>) -> Result<Json, Seq<char>>;

/// `serde_json::from_str` into a value, with the text of the error that it gives
/// for what is no JSON.
#[verifier::external_body]
pub(crate) fn parse_text(text: &str) -> (r: Result<Value, String>)
    ensures
        match r {
            Ok(v) => read_json(text@) == Ok::<Json, Seq<char>>(content(v)),
            Err(message) => read_json(text@) == Err::<Json, Seq<char>>(message@),
        },
{
    serde_json::from_str(text).map_err(|e| e.to_string())
}

/// What `serde_json::to_vec` writes of a value.
pub uninterp spec fn written_json(value: Json) -> Option<Seq<u8>>;

/// `serde_json::to_vec` on a value. Every value is written, and a plain one reads
/// back as itself; the bytes are a text that neither starts nor ends with white
/// space. What is written of a float is left to the name.
#[verifier::external_body]
pub(crate) fn write_json(v: &Value) -> (r: Option<Vec<u8>>)
    ensures
        match r {
            Some(bytes) => written_json(content(*v)) == Some(bytes@),
            None => written_json(content(*v)) is None,
        },
        content(*v).plain(max_depth()) ==> r is Some && parsed_json(r->0@) == Some(content(*v)),
        r is Some && r->0@.len() > 0 && valid_utf8(r->0@) && !json_space(r->0@[0]) && !json_space(r->0@.last()),
{
    serde_json::to_vec(v).ok()
}

/// The text of a value.
pub(crate) fn json_text(v: &Value) -> (r: String)
    ensures
        written_json(content(*v)) == Some(encode_utf8(r@)),
{
    let bytes = match write_json(v) {
        Some(bytes) => bytes,
        None => Vec::new(),
    };
    match utf8_text(bytes.as_slice()) {
        Some(text) => text.to_owned(),
        None => String::new(),
    }
}

/// Whether `b` is white space to JSON.
pub open spec fn json_space(b: u8) -> bool {
    b == 0x20 || b == 0x09 || b == 0x0a || b == 0x0d
}

/// What `rmp_serde::from_slice` reads as a value.
pub uninterp spec fn parsed_msgpack(bytes: Seq<u8>) -> Option<Json>;

/// `rmp_serde::from_slice` into a value.
#[verifier::external_body]
pub(crate) fn parse_msgpack(bytes: &[u8]) -> (r: Option<Value>)
    ensures
        match r {
            Some(v) => parsed_msgpack(bytes@) == Some(content(v)),
            None => parsed_msgpack(bytes@) is None,
        },
{
    rmp_serde::from_slice(bytes).ok()
}

/// What `rmp_serde::to_vec` writes of a value.
pub uninterp spec fn written_msgpack(value: Json) -> Option<Seq<u8>>;

/// `rmp_serde::to_vec` on a value. Every value is written, in one byte or more; a
/// plain one of at most `u32::MAX` bytes reads back as itself.
#[verifier::external_body]
pub(crate) fn write_msgpack(v: &Value) -> (r: Option<Vec<u8>>)
    ensures
        match r {
            Some(bytes) => written_msgpack(content(*v)) == Some(bytes@),
            None => written_msgpack(content(*v)) is None,
        },
        r is Some && r->0@.len() > 0,
        content(*v).plain(max_depth()) && r->0@.len() <= u32::MAX ==> parsed_msgpack(r->0@) == Some(content(*v)),
{
    rmp_serde::to_vec(v).ok()
}

} // verus!

//! The wire formats a connection can carry its bodies in.

use serde_json::Value;
use vstd::prelude::*;
use vstd::utf8::*;
use crate::contract::RuntimeError;
use crate::framing::simple_value;
use crate::json::{
    content, json_space, max_depth, parse_json, parse_msgpack, parsed_json, parsed_msgpack, write_json, write_msgpack, written_json, written_msgpack, Json as Content,
};
use crate::text::same_text;

verus! {

/// JSON, appended straight into the frame buffer.
#[derive(Clone, Copy, Debug, PartialEq, Eq, Structural)]
pub struct Json;

/// The wire format of a connection.
#[derive(Clone, Copy, Debug, PartialEq, Eq, Structural)]
pub enum Codec {
    Json,
    Msgpack,
}

impl Default for Codec {
    fn default() -> (r: Self)
        ensures
            r == Codec::Json,
    {
        Codec::Json
    }
}

impl Codec {
    /// The bytes of a value in this format.
    pub open spec fn encoded(self, value: Content) -> Option<Seq<u8>> {
        match self {
            Codec::Json => written_json(value),
            Codec::Msgpack => written_msgpack(value),
        }
    }

    /// The value that the bytes hold in this format.
    pub open spec fn decoded(self, bytes: Seq<u8>) -> Option<Content> {
        match self {
            Codec::Json => parsed_json(bytes),
            Codec::Msgpack => parsed_msgpack(bytes),
        }
    }

    /// The name, as a handshake carries it.
    pub open spec fn label(self) -> Seq<char> {
        match self {
            Codec::Json => "json"@,
            Codec::Msgpack => "msgpack"@,
        }
    }

    /// The name, as a handshake carries it.
    pub fn name(self) -> (r: &'static str)
        ensures
            r@ == self.label(),
    {
        match self {
            Codec::Json => "json",
            Codec::Msgpack => "msgpack",
        }
    }

    /// The format of that name.
    pub fn parse(s: &str) -> (r: Option<Self>)
        ensures
            match r {
                Some(codec) => s@ == codec.label(),
                None => forall|codec: Codec| s@ != #[trigger] codec.label(),
            },
    {
        proof {
            reveal_strlit("json");
            reveal_strlit("msgpack");
        }
        if same_text(s, "json") {
            Some(Codec::Json)
        } else if same_text(s, "msgpack") {
            Some(Codec::Msgpack)
        } else {
            None
        }
    }

    /// The bytes of `value`, one or more; as JSON they are a text that neither starts
    /// nor ends with white space. What was encoded of a plain value decodes to that
    /// value, where the bytes are no more than a MessagePack length counts.
    pub fn encode(self, value: &Value) -> (r: Result<Vec<u8>, RuntimeError>)
        ensures
            match r {
                Ok(bytes) => self.encoded(content(*value)) == Some(bytes@),
                Err(e) => self.encoded(content(*value)) is None && e == RuntimeError::Serialization,
            },
            r is Ok && r->Ok_0@.len() > 0,
            self == Codec::Json ==> valid_utf8(r->Ok_0@) && !json_space(r->Ok_0@[0]) && !json_space(r->Ok_0@.last()),
            self == Codec::Json && content(*value).plain(max_depth()) ==> simple_value(r->Ok_0@),
            content(*value).plain(max_depth()) && (self == Codec::Json || r->Ok_0@.len() <= u32::MAX) ==> self.decoded(
                r->Ok_0@,
            ) == Some(content(*value)),
    {
        let bytes = match self {
            Codec::Json => write_json(value),
            Codec::Msgpack => write_msgpack(value),
        };
        match bytes {
            Some(bytes) => Ok(bytes),
            None => Err(RuntimeError::Serialization),
        }
    }

    /// The value that `bytes` hold.
    pub fn decode(self, bytes: &[u8]) -> (r: Result<Value, RuntimeError>)
        ensures
            match r {
                Ok(v) => self.decoded(bytes@) == Some(content(v)),
                Err(e) => self.decoded(bytes@) is None && e == RuntimeError::Serialization,
            },
    {
        let value = match self {
            Codec::Json => parse_json(bytes),
            Codec::Msgpack => parse_msgpack(bytes),
        };
        match value {
            Some(value) => Ok(value),
            None => Err(RuntimeError::Serialization),
        }
    }
}

} // verus!

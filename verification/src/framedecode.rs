//! Reads a raw tap [`Frame`] back into something the inspector can show: the
//! decoded framing or handshake, plus a decode of the sub-frame body. The host
//! decodes handshakes and datagrams with the runtime's own decoders; JSON-RPC
//! frames are decoded here.

use serde_json::Value;
use vstd::prelude::*;
use vstd::string::*;
use crate::contract::{maybe_request, maybe_response, CallView, Envelope, EnvelopeView, Request, RequestCall, RequestView};
use crate::format::Codec;
use crate::frame::{maybe_text, Frame, FrameView, HANDSHAKE_LEN};
use crate::framing::{request_of_frame, response_of_frame, WireFraming};
use crate::json;
use crate::json::{content, Json};
use crate::text::{append_decimal, decimal, same_text, tagged, tagged_text};

verus! {

// ── hex ─────────────────────────────────────────────────────────────────

/// The character of the hex digit `d`.
pub open spec fn hex_char(d: nat) -> char {
    if d < 10 {
        (0x30 + d) as char
    } else {
        (0x61 + (d - 10)) as char
    }
}

/// `n` in lower-case hex, filled up with zeros to `width` digits.
pub open spec fn hex(n: nat, width: nat) -> Seq<char>
    decreases n, width,
{
    if n < 16 && width <= 1 {
        seq![hex_char(n)]
    } else {
        hex(
            n / 16,
            if width > 0 {
                (width - 1) as nat
            } else {
                0
            },
        ).push(hex_char(n % 16))
    }
}

/// The bytes in hex, two digits each, with spaces between them.
pub open spec fn hex_list(bytes: Seq<u8>) -> Seq<char>
    decreases bytes.len(),
{
    if bytes.len() == 0 {
        Seq::empty()
    } else if bytes.len() == 1 {
        hex(bytes[0] as nat, 2)
    } else {
        hex_list(bytes.drop_last()) + " "@ + hex(bytes.last() as nat, 2)
    }
}

/// The hex digit `d` as a text.
fn hex_digit(d: u8) -> (r: &'static str)
    requires
        d < 16,
    ensures
        r@ == seq![hex_char(d as nat)],
{
    proof {
        reveal_strlit("0");
        reveal_strlit("1");
        reveal_strlit("2");
        reveal_strlit("3");
        reveal_strlit("4");
        reveal_strlit("5");
        reveal_strlit("6");
        reveal_strlit("7");
        reveal_strlit("8");
        reveal_strlit("9");
        reveal_strlit("a");
        reveal_strlit("b");
        reveal_strlit("c");
        reveal_strlit("d");
        reveal_strlit("e");
        reveal_strlit("f");
    }
    let r = match d {
        0 => "0",
        1 => "1",
        2 => "2",
        3 => "3",
        4 => "4",
        5 => "5",
        6 => "6",
        7 => "7",
        8 => "8",
        9 => "9",
        10 => "a",
        11 => "b",
        12 => "c",
        13 => "d",
        14 => "e",
        _ => "f",
    };
    assert(r@ =~= seq![hex_char(d as nat)]);
    r
}

/// Appends `n` in hex, filled up to `width` digits, to `out`.
fn append_hex(out: &mut String, n: u64, width: u8)
    ensures
        final(out)@ == old(out)@ + hex(n as nat, width as nat),
    decreases n, width,
{
    let ghost before = out@;
    if n >= 16 || width > 1 {
        append_hex(
            out,
            n / 16,
            if width > 0 {
                width - 1
            } else {
                0
            },
        );
    }
    out.append(hex_digit((n % 16) as u8));
    assert(out@ =~= before + hex(n as nat, width as nat));
}

/// `0x` and `n` in hex, filled up to `width` digits.
fn prefixed_hex(n: u64, width: u8) -> (r: String)
    ensures
        r@ == "0x"@ + hex(n as nat, width as nat),
{
    let mut r = "0x".to_owned();
    append_hex(&mut r, n, width);
    r
}

/// `de ad be ef`: space-separated hex, for the raw-bytes view.
pub fn to_hex(bytes: &[u8]) -> (r: String)
    ensures
        r@ == hex_list(bytes@),
{
    let mut r = String::new();
    let mut i: usize = 0;
    while i < bytes.len()
        invariant
            i <= bytes@.len(),
            r@ == hex_list(bytes@.take(i as int)),
        decreases bytes@.len() - i,
    {
        let ghost before = r@;
        if i > 0 {
            r.append(" ");
        }
        append_hex(&mut r, bytes[i] as u64, 2);
        proof {
            let t = bytes@.take(i + 1);
            assert(t.drop_last() =~= bytes@.take(i as int));
            assert(t.last() == bytes@[i as int]);
            assert(r@ =~= hex_list(t));
        }
        i = i + 1;
    }
    assert(bytes@.take(i as int) =~= bytes@);
    r
}

// ── what the inspector shows ────────────────────────────────────────────

/// Everything the inspector renders for one frame.
#[derive(Debug)]
pub struct FrameDetail {
    /// `"handshake"` | `"request"` | `"response"` | `"unknown"`.
    pub kind: &'static str,
    /// The framing name, or `"undecodable"` when the body would not parse.
    pub framing: String,
    /// request: the function name (resolved from the call address).
    pub function: Option<String>,
    pub request_id: Option<String>,
    /// request: the decoded params.
    pub params: Option<Value>,
    /// response: the decoded success body.
    pub ok: Option<Value>,
    /// response: a raised error.
    pub err: Option<ErrDetail>,
    /// handshake: the fields it carries (names resolved where known).
    pub handshake: Option<HandshakeDetail>,
}

#[derive(Debug)]
pub struct ErrDetail {
    pub ordinal: u16,
    pub body: Value,
}

#[derive(Debug)]
pub struct HandshakeDetail {
    pub ir_hash: String,
    pub wire_format: String,
    pub framing: String,
    pub caps: u32,
}

/// The fields of a handshake frame, as the runtime decodes them.
#[derive(Clone, Copy, Debug, PartialEq, Eq, Structural)]
pub struct HandshakeFields {
    pub ir_hash: u64,
    pub wire_format: u64,
    pub framing: u64,
    pub capabilities: u32,
}

/// A name and the hash that a handshake carries it as.
#[derive(Debug)]
pub struct NamedHash {
    pub hash: u64,
    pub name: String,
}

/// What the decoder needs from the connection to resolve a frame.
pub struct DecodeCtx<'a> {
    pub client_name: &'a str,
    pub server_name: &'a str,
    pub framing: WireFraming,
    pub codec: Codec,
    /// Function names in protocol order: resolves a datagram request's call id.
    pub fn_names: &'a Vec<&'a str>,
    /// What the runtime calls its own framing.
    pub datagram: &'a str,
    /// The names that a handshake can carry.
    pub names: &'a Vec<NamedHash>,
}

#[verifier::ext_equal]
pub ghost struct DetailView {
    pub kind: Seq<char>,
    pub framing: Seq<char>,
    pub function: Option<Seq<char>>,
    pub request_id: Option<Seq<char>>,
    pub params: Option<Json>,
    pub ok: Option<Json>,
    pub err: Option<(u16, Json)>,
    pub handshake: Option<HandshakeView>,
}

#[verifier::ext_equal]
pub ghost struct HandshakeView {
    pub ir_hash: Seq<char>,
    pub wire_format: Seq<char>,
    pub framing: Seq<char>,
    pub caps: u32,
}

#[verifier::ext_equal]
pub ghost struct CtxView {
    pub client_name: Seq<char>,
    pub framing: WireFraming,
    pub codec: Codec,
    pub fn_names: Seq<Seq<char>>,
    pub datagram: Seq<char>,
    pub names: Seq<(u64, Seq<char>)>,
}

/// What an optional value holds.
pub open spec fn maybe_value(v: Option<Value>) -> Option<Json> {
    match v {
        Some(v) => Some(content(v)),
        None => None,
    }
}

impl View for HandshakeDetail {
    type V = HandshakeView;

    open spec fn view(&self) -> HandshakeView {
        HandshakeView {
            ir_hash: self.ir_hash@,
            wire_format: self.wire_format@,
            framing: self.framing@,
            caps: self.caps,
        }
    }
}

impl View for FrameDetail {
    type V = DetailView;

    open spec fn view(&self) -> DetailView {
        DetailView {
            kind: self.kind@,
            framing: self.framing@,
            function: maybe_text(self.function),
            request_id: maybe_text(self.request_id),
            params: maybe_value(self.params),
            ok: maybe_value(self.ok),
            err: match self.err {
                Some(e) => Some((e.ordinal, content(e.body))),
                None => None,
            },
            handshake: match self.handshake {
                Some(h) => Some(h@),
                None => None,
            },
        }
    }
}

impl<'a> View for DecodeCtx<'a> {
    type V = CtxView;

    open spec fn view(&self) -> CtxView {
        CtxView {
            client_name: self.client_name@,
            framing: self.framing,
            codec: self.codec,
            fn_names: Seq::new(self.fn_names@.len(), |i: int| self.fn_names@[i]@),
            datagram: self.datagram@,
            names: Seq::new(self.names@.len(), |i: int| (self.names@[i].hash, self.names@[i].name@)),
        }
    }
}

impl DetailView {
    /// A detail with nothing but its kind and its framing.
    pub open spec fn bare(kind: Seq<char>, framing: Seq<char>) -> DetailView {
        DetailView {
            kind,
            framing,
            function: None,
            request_id: None,
            params: None,
            ok: None,
            err: None,
            handshake: None,
        }
    }
}

/// The name that a hash stands for: the first of that hash, else the hash itself
/// in hex.
pub open spec fn name_for(hash: u64, names: Seq<(u64, Seq<char>)>) -> Seq<char>
    decreases names.len(),
{
    if names.len() == 0 {
        "0x"@ + hex(hash as nat, 1)
    } else if names[0].0 == hash {
        names[0].1
    } else {
        name_for(hash, names.drop_first())
    }
}

/// What a body shows as, and whether it could be decoded: nothing is null, what
/// cannot be decoded is a note of its length.
pub open spec fn shown(bytes: Seq<u8>, codec: Codec) -> (Json, bool) {
    if bytes.len() == 0 {
        (Json::Null, true)
    } else {
        match codec.decoded(bytes) {
            Some(v) => (v, true),
            None => (Json::Text("<"@ + decimal(bytes.len()) + " undecodable bytes>"@), false),
        }
    }
}

impl CtxView {
    /// The name of the connection's framing.
    pub open spec fn framing_name(self) -> Seq<char> {
        match self.framing {
            WireFraming::Datagram => self.datagram,
            WireFraming::Jsonrpc => "jsonrpc-2.0"@,
        }
    }

    /// The framing to show for a body that could be decoded, or not.
    pub open spec fn shown_framing(self, decoded: bool) -> Seq<char> {
        if decoded {
            self.framing_name()
        } else {
            "undecodable"@
        }
    }

    /// The function that a request addresses.
    pub open spec fn called(self, call: CallView) -> Seq<char> {
        match call {
            CallView::Id(id) => if id < self.fn_names.len() {
                self.fn_names[id as int]
            } else {
                tagged("#"@, id as u64)
            },
            CallView::Name(name) => name,
        }
    }

    /// A handshake frame.
    pub open spec fn handshake(self, fields: HandshakeFields) -> DetailView {
        DetailView {
            handshake: Some(
                HandshakeView {
                    ir_hash: "0x"@ + hex(fields.ir_hash as nat, 16),
                    wire_format: name_for(fields.wire_format, self.names),
                    framing: name_for(fields.framing, self.names),
                    caps: fields.capabilities,
                },
            ),
            ..DetailView::bare("handshake"@, self.framing_name())
        }
    }

    /// A frame from the client, as it was decoded.
    pub open spec fn request(self, request: Option<RequestView>) -> DetailView {
        match request {
            None => DetailView::bare("unknown"@, self.framing_name()),
            Some(req) => {
                let (params, decoded) = shown(req.params, self.codec);
                DetailView {
                    function: Some(self.called(req.call)),
                    request_id: Some(decimal(req.request_id as nat)),
                    params: Some(params),
                    ..DetailView::bare("request"@, self.shown_framing(decoded))
                }
            },
        }
    }

    /// A frame from the server, as it was decoded.
    pub open spec fn response(self, response: Option<(u64, EnvelopeView)>) -> DetailView {
        match response {
            None => DetailView::bare("unknown"@, self.framing_name()),
            Some((id, EnvelopeView::Success(payload))) => {
                let (value, decoded) = shown(payload, self.codec);
                DetailView {
                    request_id: Some(decimal(id as nat)),
                    ok: Some(value),
                    ..DetailView::bare("response"@, self.shown_framing(decoded))
                }
            },
            Some((id, EnvelopeView::Failure { id: ordinal, body })) => {
                let (value, decoded) = shown(body, self.codec);
                DetailView {
                    request_id: Some(decimal(id as nat)),
                    err: Some((ordinal, value)),
                    ..DetailView::bare("response"@, self.shown_framing(decoded))
                }
            },
        }
    }

    /// A frame, given what the runtime's decoders make of its bytes.
    pub open spec fn described(
        self,
        frame: FrameView,
        handshake: Option<HandshakeFields>,
        request: Option<RequestView>,
        response: Option<(u64, EnvelopeView)>,
    ) -> DetailView {
        if frame.bytes.len() == HANDSHAKE_LEN && handshake is Some {
            self.handshake(handshake->0)
        } else if frame.from == self.client_name {
            self.request(
                match self.framing {
                    WireFraming::Datagram => request,
                    WireFraming::Jsonrpc => request_of_frame(frame.bytes),
                },
            )
        } else {
            self.response(
                match self.framing {
                    WireFraming::Datagram => response,
                    WireFraming::Jsonrpc => response_of_frame(frame.bytes),
                },
            )
        }
    }
}

impl FrameDetail {
    fn bare(kind: &'static str, framing: String) -> (r: Self)
        ensures
            r@ == DetailView::bare(kind@, framing@),
    {
        FrameDetail {
            kind,
            framing,
            function: None,
            request_id: None,
            params: None,
            ok: None,
            err: None,
            handshake: None,
        }
    }
}

/// The name that a hash stands for.
fn name_of(hash: u64, names: &Vec<NamedHash>) -> (r: String)
    ensures
        r@ == name_for(hash, Seq::new(names@.len(), |i: int| (names@[i].hash, names@[i].name@))),
{
    let ghost all = Seq::new(names@.len(), |i: int| (names@[i].hash, names@[i].name@));
    let mut i: usize = 0;
    assert(all.skip(0) =~= all);
    while i < names.len()
        invariant
            i <= names@.len(),
            all == Seq::new(names@.len(), |i: int| (names@[i].hash, names@[i].name@)),
            name_for(hash, all) == name_for(hash, all.skip(i as int)),
        decreases names@.len() - i,
    {
        assert(all.skip(i as int)[0] == all[i as int]);
        assert(all.skip(i as int).drop_first() =~= all.skip(i + 1));
        if names[i].hash == hash {
            return names[i].name.clone();
        }
        i = i + 1;
    }
    assert(all.skip(i as int) =~= Seq::empty());
    prefixed_hex(hash, 1)
}

/// What a body shows as, and whether it could be decoded.
fn json_of(bytes: &[u8], codec: Codec) -> (r: (Value, bool))
    ensures
        (content(r.0), r.1) == shown(bytes@, codec),
{
    if bytes.len() == 0 {
        return (json::null(), true);
    }
    match codec.decode(bytes) {
        Ok(v) => (v, true),
        Err(_) => {
            let mut note = "<".to_owned();
            append_decimal(&mut note, bytes.len() as u64);
            note.append(" undecodable bytes>");
            (json::text(note), false)
        },
    }
}

impl<'a> DecodeCtx<'a> {
    fn framing_name(&self) -> (r: String)
        ensures
            r@ == self@.framing_name(),
    {
        match self.framing {
            WireFraming::Datagram => self.datagram.to_owned(),
            WireFraming::Jsonrpc => "jsonrpc-2.0".to_owned(),
        }
    }

    fn shown_framing(&self, decoded: bool) -> (r: String)
        ensures
            r@ == self@.shown_framing(decoded),
    {
        if decoded {
            self.framing_name()
        } else {
            "undecodable".to_owned()
        }
    }

    fn called(&self, call: &RequestCall) -> (r: String)
        ensures
            r@ == self@.called(call@),
    {
        match call {
            RequestCall::Id(id) => if (*id as usize) < self.fn_names.len() {
                self.fn_names[*id as usize].to_owned()
            } else {
                tagged_text("#", *id as u64)
            },
            RequestCall::Name(name) => name.clone(),
        }
    }

    /// The detail of a handshake frame.
    pub fn describe_handshake(&self, fields: HandshakeFields) -> (r: FrameDetail)
        ensures
            r@ == self@.handshake(fields),
    {
        let mut d = FrameDetail::bare("handshake", self.framing_name());
        d.handshake = Some(
            HandshakeDetail {
                ir_hash: prefixed_hex(fields.ir_hash, 16),
                wire_format: name_of(fields.wire_format, self.names),
                framing: name_of(fields.framing, self.names),
                caps: fields.capabilities,
            },
        );
        d
    }

    /// The detail of a frame from the client.
    pub fn describe_request(&self, request: &Option<Request>) -> (r: FrameDetail)
        ensures
            r@ == self@.request(maybe_request(*request)),
    {
        match request {
            None => FrameDetail::bare("unknown", self.framing_name()),
            Some(req) => {
                let (params, decoded) = json_of(req.params.as_slice(), self.codec);
                let mut d = FrameDetail::bare("request", self.shown_framing(decoded));
                d.function = Some(self.called(&req.call));
                d.request_id = Some(number_text(req.request_id));
                d.params = Some(params);
                d
            },
        }
    }

    /// The detail of a frame from the server.
    pub fn describe_response(&self, response: &Option<(u64, Envelope)>) -> (r: FrameDetail)
        ensures
            r@ == self@.response(maybe_response(*response)),
    {
        match response {
            None => FrameDetail::bare("unknown", self.framing_name()),
            Some((id, envelope)) => match envelope {
                Envelope::Success(payload) => {
                    let (value, decoded) = json_of(payload.as_slice(), self.codec);
                    let mut d = FrameDetail::bare("response", self.shown_framing(decoded));
                    d.request_id = Some(number_text(*id));
                    d.ok = Some(value);
                    d
                },
                Envelope::Failure { id: ordinal, body } => {
                    let (value, decoded) = json_of(body.as_slice(), self.codec);
                    let mut d = FrameDetail::bare("response", self.shown_framing(decoded));
                    d.request_id = Some(number_text(*id));
                    d.err = Some(ErrDetail { ordinal: *ordinal, body: value });
                    d
                },
            },
        }
    }
}

/// `n`, written out in decimal.
fn number_text(n: u64) -> (r: String)
    ensures
        r@ == decimal(n as nat),
{
    let mut r = String::new();
    append_decimal(&mut r, n);
    assert(r@ =~= decimal(n as nat));
    r
}

/// Decodes `frame` against `ctx`. `handshake`, `request` and `response` are what
/// the runtime's decoders make of the frame's bytes.
pub fn describe_frame(
    frame: &Frame,
    ctx: &DecodeCtx<'_>,
    handshake: Option<HandshakeFields>,
    request: Option<Request>,
    response: Option<(u64, Envelope)>,
) -> (r: FrameDetail)
    ensures
        r@ == ctx@.described(frame@, handshake, maybe_request(request), maybe_response(response)),
{
    // a handshake is unambiguous: fixed length and magic
    if frame.bytes.len() == HANDSHAKE_LEN {
        if let Some(fields) = handshake {
            return ctx.describe_handshake(fields);
        }
    }
    if same_text(frame.from.as_str(), ctx.client_name) {
        let request = ctx.framing.decode_request(frame.bytes.as_slice(), request);
        ctx.describe_request(&request)
    } else {
        let response = ctx.framing.decode_response(frame.bytes.as_slice(), response);
        ctx.describe_response(&response)
    }
}

} // verus!

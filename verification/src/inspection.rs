//! What the inspector shows of a frame, and the text of a JSON-RPC one.

use vstd::prelude::*;
use vstd::utf8::*;
use crate::contract::{CallView, EnvelopeView, RequestView};
use crate::engine::{fn_names, jsonrpc_response, EngineView};
use crate::frame::{looks_like, method_key, FrameKind, FrameView};
use crate::framedecode::{hex, name_for, CtxView, DetailView, HandshakeFields};
use crate::framing::{
    error_members, members_text, member_text, needs_no_escape, object_text, quoted, reads_request, request_frame,
    request_members, ok_members, err_members, request_of_frame, response_of_frame, value_text, WireFraming,
};
use crate::json::Json;
use crate::shape::law_functions_are_found_by_name;
use crate::text::{decimal, decimal_bytes, occurs, stands_at};

verus! {

// ── requests ────────────────────────────────────────────────────────────

/// Whether the inspector takes `frame` for a call: it comes from the client, and is no
/// handshake.
pub open spec fn from_client(ctx: CtxView, frame: FrameView, handshake: Option<HandshakeFields>) -> bool {
    &&& frame.from == ctx.client_name
    &&& frame.bytes.len() != 31 || handshake is None
}

/// Whether the inspector takes `frame` for an answer.
pub open spec fn from_server(ctx: CtxView, frame: FrameView, handshake: Option<HandshakeFields>) -> bool {
    &&& frame.from != ctx.client_name
    &&& frame.bytes.len() != 31 || handshake is None
}

/// The name of the framing that the inspector shows where a body was read.
pub open spec fn framing_shown(ctx: CtxView) -> Seq<char> {
    match ctx.framing {
        WireFraming::Datagram => ctx.datagram,
        WireFraming::Jsonrpc => "jsonrpc-2.0"@,
    }
}

/// The inspector names the function that was called: for a call of the function at
/// place `i` the name at place `i`, for a place behind the last the number itself. It
/// shows the id in decimal and what the parameters decode to.
pub proof fn law_the_inspector_names_the_function_at_its_place(
    ctx: CtxView,
    frame: FrameView,
    handshake: Option<HandshakeFields>,
    req: RequestView,
    response: Option<(u64, EnvelopeView)>,
    i: u16,
)
    requires
        ctx.framing == WireFraming::Datagram,
        from_client(ctx, frame, handshake),
        req.call == CallView::Id(i),
    ensures
        ({
            let shown = ctx.described(frame, handshake, Some(req), response);
            &&& shown.kind == "request"@
            &&& i < ctx.fn_names.len() ==> shown.function == Some(ctx.fn_names[i as int])
            &&& i >= ctx.fn_names.len() ==> shown.function == Some(seq!['#'] + decimal(i as nat))
            &&& shown.request_id == Some(decimal(req.request_id as nat))
            &&& shown.ok is None
            &&& shown.err is None
            &&& shown.handshake is None
            &&& req.params.len() == 0 ==> shown.params == Some(Json::Null)
            &&& req.params.len() > 0 ==> (ctx.codec.decoded(req.params) matches Some(v) ==> shown.params == Some(v)
                && shown.framing == ctx.datagram)
            &&& req.params.len() > 0 && ctx.codec.decoded(req.params) is None ==> shown.framing == "undecodable"@
                && shown.params == Some(
                Json::Text("<"@ + decimal(req.params.len()) + " undecodable bytes>"@),
            )
        }),
{
    reveal_strlit("#");
    assert("#"@ =~= seq!['#']);
}

/// A call by name is shown under that name.
pub proof fn law_the_inspector_shows_the_name_of_a_call(
    ctx: CtxView,
    frame: FrameView,
    handshake: Option<HandshakeFields>,
    req: RequestView,
    response: Option<(u64, EnvelopeView)>,
    name: Seq<char>,
)
    requires
        ctx.framing == WireFraming::Datagram,
        from_client(ctx, frame, handshake),
        req.call == CallView::Name(name),
    ensures
        ctx.described(frame, handshake, Some(req), response).function == Some(name),
        ctx.described(frame, handshake, Some(req), response).request_id == Some(decimal(req.request_id as nat)),
{
}

/// What the inspector shows of a call that the engine made of a function is the name of
/// that function, on a wire whose functions are numbered by their places.
pub proof fn law_the_inspector_names_what_was_called(
    e: EngineView,
    conn: Seq<char>,
    fn_name: Seq<char>,
    params: Json,
    i: int,
    ctx: CtxView,
    frame: FrameView,
    handshake: Option<HandshakeFields>,
    response: Option<(u64, EnvelopeView)>,
)
    requires
        e.outgoing(conn, fn_name, params) is Ok,
        e.wires[conn].framing == WireFraming::Datagram,
        0 <= i < e.wires[conn].proto.functions.len() <= 0x1_0000,
        e.wires[conn].proto.functions[i].name == fn_name,
        forall|j: int| 0 <= j < i ==> (#[trigger] e.wires[conn].proto.functions[j]).name != fn_name,
        e.wires[conn].proto.functions[i].index == i,
        ctx.framing == WireFraming::Datagram,
        ctx.fn_names == fn_names(e.wires[conn].proto),
        from_client(ctx, frame, handshake),
    ensures
        ({
            let job = e.outgoing(conn, fn_name, params)->Ok_0;
            let req = RequestView { call: CallView::Id(job.call_id), request_id: job.request_id, params: job.body };
            let shown = ctx.described(frame, handshake, Some(req), response);
            &&& shown.function == Some(fn_name)
            &&& shown.request_id == Some(decimal(job.request_id as nat))
        }),
{
    law_functions_are_found_by_name(e.wires[conn].proto, fn_name, i);
    let job = e.outgoing(conn, fn_name, params)->Ok_0;
    assert(job.call_id == i);
    let req = RequestView { call: CallView::Id(job.call_id), request_id: job.request_id, params: job.body };
    law_the_inspector_names_the_function_at_its_place(ctx, frame, handshake, req, response, job.call_id);
}

/// Of the frame of a JSON-RPC call the inspector shows its method, its id and what its
/// parameters decode to.
pub proof fn law_the_inspector_reads_jsonrpc_calls(
    ctx: CtxView,
    frame: FrameView,
    method: Seq<char>,
    id: u64,
    params: Seq<u8>,
    request: Option<RequestView>,
    response: Option<(u64, EnvelopeView)>,
)
    requires
        ctx.framing == WireFraming::Jsonrpc,
        frame.from == ctx.client_name,
        frame.bytes == request_frame(method, id, params),
        needs_no_escape(method),
        value_text(params),
        params.len() > 0,
        reads_request(frame.bytes),
    ensures
        ({
            let shown = ctx.described(frame, None, request, response);
            &&& shown.kind == "request"@
            &&& shown.function == Some(method)
            &&& shown.request_id == Some(decimal(id as nat))
            &&& ctx.codec.decoded(params) matches Some(v) ==> shown.params == Some(v) && shown.framing
                == "jsonrpc-2.0"@
        }),
{
}

// ── responses ───────────────────────────────────────────────────────────

/// Of an answer the inspector shows the id, and the value of a success or the ordinal
/// and the value of an error: `null` for an empty body.
pub proof fn law_the_inspector_shows_what_was_answered(
    ctx: CtxView,
    frame: FrameView,
    handshake: Option<HandshakeFields>,
    request: Option<RequestView>,
    id: u64,
    body: Seq<u8>,
    ordinal: u16,
    value: Json,
)
    requires
        ctx.framing == WireFraming::Datagram,
        from_server(ctx, frame, handshake),
        body.len() == 0 && value is Null || body.len() > 0 && ctx.codec.decoded(body) == Some(value),
    ensures
        ({
            let shown = ctx.described(frame, handshake, request, Some((id, EnvelopeView::Success(body))));
            &&& shown.kind == "response"@
            &&& shown.framing == ctx.datagram
            &&& shown.request_id == Some(decimal(id as nat))
            &&& shown.ok == Some(value)
            &&& shown.err is None
            &&& shown.function is None
            &&& shown.params is None
        }),
        ({
            let shown = ctx.described(frame, handshake, request, Some((id, EnvelopeView::Failure { id: ordinal, body })));
            &&& shown.kind == "response"@
            &&& shown.request_id == Some(decimal(id as nat))
            &&& shown.err == Some((ordinal, value))
            &&& shown.ok is None
            &&& shown.function is None
            &&& shown.params is None
        }),
{
}

/// What the decoders make nothing of is shown as unknown, under the framing of the
/// connection.
pub proof fn law_the_inspector_admits_what_it_cannot_read(
    ctx: CtxView,
    frame: FrameView,
    handshake: Option<HandshakeFields>,
)
    requires
        ctx.framing == WireFraming::Datagram,
        frame.bytes.len() != 31 || handshake is None,
    ensures
        ({
            let shown = ctx.described(frame, handshake, None, None);
            &&& shown.kind == "unknown"@
            &&& shown.framing == ctx.datagram
            &&& shown.function is None
            &&& shown.request_id is None
            &&& shown.params is None
            &&& shown.ok is None
            &&& shown.err is None
            &&& shown.handshake is None
        }),
{
}

/// Of a JSON-RPC frame the inspector shows what is read in it, and admits what is not.
pub proof fn law_the_inspector_reads_jsonrpc_frames(
    ctx: CtxView,
    frame: FrameView,
    request: Option<RequestView>,
    response: Option<(u64, EnvelopeView)>,
    id: u64,
    ordinal: u16,
    body: Seq<u8>,
    value: Json,
)
    requires
        ctx.framing == WireFraming::Jsonrpc,
        body.len() > 0,
        ctx.codec.decoded(body) == Some(value),
    ensures
        ({
            let shown = ctx.described(frame, None, request, response);
            &&& frame.from == ctx.client_name && request_of_frame(frame.bytes) is None ==> shown == DetailView::bare(
                "unknown"@,
                "jsonrpc-2.0"@,
            )
            &&& frame.from != ctx.client_name && response_of_frame(frame.bytes) is None ==> shown == DetailView::bare(
                "unknown"@,
                "jsonrpc-2.0"@,
            )
            &&& frame.from != ctx.client_name && response_of_frame(frame.bytes) == Some(
                (id, EnvelopeView::Success(body)),
            ) ==> shown.kind == "response"@ && shown.request_id == Some(decimal(id as nat)) && shown.ok == Some(value)
                && shown.err is None
            &&& frame.from != ctx.client_name && response_of_frame(frame.bytes) == Some(
                (id, EnvelopeView::Failure { id: ordinal, body }),
            ) ==> shown.kind == "response"@ && shown.request_id == Some(decimal(id as nat)) && shown.err == Some(
                (ordinal, value),
            ) && shown.ok is None
        }),
{
}

// ── handshakes ──────────────────────────────────────────────────────────

/// A hash stands for the first name of that hash, and for itself in hex where no name
/// has it.
pub proof fn law_hashes_stand_for_their_names(hash: u64, names: Seq<(u64, Seq<char>)>, k: int)
    ensures
        0 <= k < names.len() && names[k].0 == hash && (forall|j: int| 0 <= j < k ==> (#[trigger] names[j]).0 != hash)
            ==> name_for(hash, names) == names[k].1,
        (forall|j: int| 0 <= j < names.len() ==> (#[trigger] names[j]).0 != hash) ==> name_for(hash, names) == seq![
            '0',
            'x',
        ] + hex(hash as nat, 1),
    decreases names.len(),
{
    reveal_strlit("0x");
    assert("0x"@ =~= seq!['0', 'x']);
    if names.len() > 0 {
        let rest = names.drop_first();
        law_hashes_stand_for_their_names(hash, rest, k - 1);
        if forall|j: int| 0 <= j < names.len() ==> (#[trigger] names[j]).0 != hash {
            assert(names[0].0 != hash);
            assert forall|j: int| 0 <= j < rest.len() implies (#[trigger] rest[j]).0 != hash by {
                assert(names[j + 1].0 != hash);
            }
        }
        if 0 < k < names.len() && names[k].0 == hash && (forall|j: int| 0 <= j < k ==> (#[trigger] names[j]).0 != hash) {
            assert(names[0].0 != hash);
            assert(rest[k - 1] == names[k]);
            assert forall|j: int| 0 <= j < k - 1 implies (#[trigger] rest[j]).0 != hash by {
                assert(names[j + 1].0 != hash);
            }
        }
    }
}

/// Of a handshake the inspector shows the hash in 16 hex digits, the names of its format
/// and its framing, and its capabilities.
pub proof fn law_the_inspector_shows_handshakes(
    ctx: CtxView,
    frame: FrameView,
    fields: HandshakeFields,
    request: Option<RequestView>,
    response: Option<(u64, EnvelopeView)>,
    f: int,
    g: int,
)
    requires
        frame.bytes.len() == 31,
        0 <= f < ctx.names.len(),
        0 <= g < ctx.names.len(),
        ctx.names[f].0 == fields.wire_format,
        ctx.names[g].0 == fields.framing,
        forall|j: int| 0 <= j < f ==> (#[trigger] ctx.names[j]).0 != fields.wire_format,
        forall|j: int| 0 <= j < g ==> (#[trigger] ctx.names[j]).0 != fields.framing,
    ensures
        ({
            let shown = ctx.described(frame, Some(fields), request, response);
            &&& shown.kind == "handshake"@
            &&& shown.framing == framing_shown(ctx)
            &&& shown.function is None
            &&& shown.request_id is None
            &&& shown.handshake matches Some(h)
            &&& h.ir_hash == seq!['0', 'x'] + hex(fields.ir_hash as nat, 16)
            &&& h.wire_format == ctx.names[f].1
            &&& h.framing == ctx.names[g].1
            &&& h.caps == fields.capabilities
        }),
{
    reveal_strlit("0x");
    assert("0x"@ =~= seq!['0', 'x']);
    law_hashes_stand_for_their_names(fields.wire_format, ctx.names, f);
    law_hashes_stand_for_their_names(fields.framing, ctx.names, g);
}

// ── what a frame looks like ─────────────────────────────────────────────

/// Whether `"method"` stands at `at`, in its quotes.
pub open spec fn method_at(bytes: Seq<u8>, at: int) -> bool {
    &&& 0 <= at <= bytes.len() - 8
    &&& bytes[at] == 0x22
    &&& bytes[at + 1] == 0x6d
    &&& bytes[at + 2] == 0x65
    &&& bytes[at + 3] == 0x74
    &&& bytes[at + 4] == 0x68
    &&& bytes[at + 5] == 0x6f
    &&& bytes[at + 6] == 0x64
    &&& bytes[at + 7] == 0x22
}

proof fn lemma_method_at(bytes: Seq<u8>, at: int)
    ensures
        stands_at(bytes, method_key(), at) == method_at(bytes, at),
{
    let key = method_key();
    if 0 <= at <= bytes.len() - 8 {
        let part = bytes.subrange(at, at + 8);
        if method_at(bytes, at) {
            assert(part =~= key);
        }
        if part == key {
            assert forall|k: int| 0 <= k < 8 implies bytes[at + k] == #[trigger] key[k] by {
                assert(part[k] == bytes[at + k]);
            }
            assert(bytes[at + 0] == key[0]);
            assert(bytes[at + 1] == key[1]);
            assert(bytes[at + 2] == key[2]);
            assert(bytes[at + 3] == key[3]);
            assert(bytes[at + 4] == key[4]);
            assert(bytes[at + 5] == key[5]);
            assert(bytes[at + 6] == key[6]);
            assert(bytes[at + 7] == key[7]);
        }
    }
}

/// 31 bytes that start with `CO` look like a handshake. Of the rest, a text that starts
/// with a brace and has no `"method"` in it looks like a response, and all else like a
/// request.
pub proof fn law_what_bytes_look_like(bytes: Seq<u8>)
    ensures
        bytes.len() == 31 && bytes[0] == 0x43 && bytes[1] == 0x4f ==> looks_like(bytes) == FrameKind::Handshake,
        bytes.len() == 0 || (bytes[0] != 0x7b && !(bytes.len() == 31 && bytes[0] == 0x43 && bytes[1] == 0x4f))
            ==> looks_like(bytes) == FrameKind::Request,
        bytes.len() > 0 && bytes[0] == 0x7b && !valid_utf8(bytes) ==> looks_like(bytes) == FrameKind::Request,
        bytes.len() > 0 && bytes[0] == 0x7b && (exists|at: int| #[trigger] method_at(bytes, at)) ==> looks_like(bytes)
            == FrameKind::Request,
        bytes.len() > 0 && bytes[0] == 0x7b && valid_utf8(bytes) && (forall|at: int| !#[trigger] method_at(bytes, at))
            ==> looks_like(bytes) == FrameKind::Response,
{
    if exists|at: int| #[trigger] method_at(bytes, at) {
        let at = choose|at: int| #[trigger] method_at(bytes, at);
        lemma_method_at(bytes, at);
        assert(occurs(bytes, method_key()));
    }
    if occurs(bytes, method_key()) {
        let at = choose|at: int| stands_at(bytes, method_key(), at);
        lemma_method_at(bytes, at);
    }
}

// ── the text of a JSON-RPC frame ────────────────────────────────────────

/// The bytes of a text of ASCII characters.
pub open spec fn ascii(s: Seq<char>) -> Seq<u8> {
    Seq::new(s.len(), |i: int| s[i] as u8)
}

proof fn lemma_ascii(s: Seq<char>)
    requires
        forall|i: int| 0 <= i < s.len() ==> ' ' <= #[trigger] s[i] <= '~',
    ensures
        encode_utf8(s) == ascii(s),
{
    assert(is_ascii_chars(s));
    is_ascii_chars_encode_utf8(s);
    assert(encode_utf8(s) =~= ascii(s));
}

proof fn lemma_names()
    ensures
        encode_utf8("jsonrpc"@) == ascii("jsonrpc"@),
        encode_utf8("2.0"@) == ascii("2.0"@),
        encode_utf8("method"@) == ascii("method"@),
        encode_utf8("params"@) == ascii("params"@),
        encode_utf8("id"@) == ascii("id"@),
        encode_utf8("result"@) == ascii("result"@),
        encode_utf8("error"@) == ascii("error"@),
        encode_utf8("code"@) == ascii("code"@),
        encode_utf8("message"@) == ascii("message"@),
        encode_utf8("application error"@) == ascii("application error"@),
        encode_utf8("data"@) == ascii("data"@),
{
    reveal_strlit("jsonrpc");
    reveal_strlit("2.0");
    reveal_strlit("method");
    reveal_strlit("params");
    reveal_strlit("id");
    reveal_strlit("result");
    reveal_strlit("error");
    reveal_strlit("code");
    reveal_strlit("message");
    reveal_strlit("application error");
    reveal_strlit("data");
    lemma_ascii("jsonrpc"@);
    lemma_ascii("2.0"@);
    lemma_ascii("method"@);
    lemma_ascii("params"@);
    lemma_ascii("id"@);
    lemma_ascii("result"@);
    lemma_ascii("error"@);
    lemma_ascii("code"@);
    lemma_ascii("message"@);
    lemma_ascii("application error"@);
    lemma_ascii("data"@);
}

proof fn lemma_three(a: (Seq<char>, Seq<u8>), b: (Seq<char>, Seq<u8>), c: (Seq<char>, Seq<u8>))
    ensures
        object_text(seq![a, b, c]) == seq![0x7bu8] + (member_text(a) + seq![0x2cu8] + member_text(b) + seq![0x2cu8]
            + member_text(c)) + seq![0x7du8],
{
    let all = seq![a, b, c];
    let two = seq![a, b];
    reveal_with_fuel(members_text, 4);
    assert(all.drop_last() =~= two);
    assert(two.drop_last() =~= seq![a]);
}

/// The frame of a JSON-RPC call, letter for letter.
#[verifier::spinoff_prover]
#[verifier::rlimit(40)]
pub proof fn law_the_text_of_a_call(method: Seq<char>, id: u64, params: Seq<u8>)
    ensures
        request_frame(method, id, params) == ascii("{\"jsonrpc\":\"2.0\",\"method\":\""@) + encode_utf8(method) + ascii(
            "\",\"params\":"@,
        ) + params + ascii(",\"id\":"@) + decimal_bytes(id as nat) + ascii("}"@),
{
    lemma_names();
    reveal_strlit("jsonrpc");
    reveal_strlit("2.0");
    reveal_strlit("method");
    reveal_strlit("params");
    reveal_strlit("id");
    reveal_strlit("{\"jsonrpc\":\"2.0\",\"method\":\"");
    reveal_strlit("\",\"params\":");
    reveal_strlit(",\"id\":");
    reveal_strlit("}");
    let all = request_members(method, id, params);
    reveal_with_fuel(members_text, 5);
    assert(all.drop_last() =~= seq![all[0], all[1], all[2]]);
    assert(seq![all[0], all[1], all[2]].drop_last() =~= seq![all[0], all[1]]);
    assert(seq![all[0], all[1]].drop_last() =~= seq![all[0]]);
    let head = seq![0x7bu8] + member_text(all[0]) + seq![0x2cu8] + quoted("method"@) + seq![0x3au8, 0x22u8];
    assert(head =~= ascii("{\"jsonrpc\":\"2.0\",\"method\":\""@));
    let mid = seq![0x22u8, 0x2cu8] + quoted("params"@) + seq![0x3au8];
    assert(mid =~= ascii("\",\"params\":"@));
    let tail = seq![0x2cu8] + quoted("id"@) + seq![0x3au8];
    assert(tail =~= ascii(",\"id\":"@));
    assert(seq![0x7du8] =~= ascii("}"@));
    assert(request_frame(method, id, params) =~= head + encode_utf8(method) + mid + params + tail + decimal_bytes(
        id as nat,
    ) + seq![0x7du8]);
}

/// The frame of a JSON-RPC answer, letter for letter.
#[verifier::spinoff_prover]
#[verifier::rlimit(40)]
pub proof fn law_the_text_of_an_answer(id: u64, payload: Seq<u8>)
    requires
        payload.len() > 0,
    ensures
        jsonrpc_response(id, EnvelopeView::Success(payload)) == ascii("{\"jsonrpc\":\"2.0\",\"result\":"@) + payload
            + ascii(",\"id\":"@) + decimal_bytes(id as nat) + ascii("}"@),
{
    lemma_names();
    reveal_strlit("jsonrpc");
    reveal_strlit("2.0");
    reveal_strlit("result");
    reveal_strlit("id");
    reveal_strlit("{\"jsonrpc\":\"2.0\",\"result\":");
    reveal_strlit(",\"id\":");
    reveal_strlit("}");
    let all = ok_members(id, payload);
    lemma_three(all[0], all[1], all[2]);
    assert(all =~= seq![all[0], all[1], all[2]]);
    let head = seq![0x7bu8] + member_text(all[0]) + seq![0x2cu8] + quoted("result"@) + seq![0x3au8];
    assert(head =~= ascii("{\"jsonrpc\":\"2.0\",\"result\":"@));
    let tail = seq![0x2cu8] + quoted("id"@) + seq![0x3au8];
    assert(tail =~= ascii(",\"id\":"@));
    assert(seq![0x7du8] =~= ascii("}"@));
    assert(object_text(all) =~= head + payload + tail + decimal_bytes(id as nat) + seq![0x7du8]);
}

/// The frame of a JSON-RPC error, letter for letter.
#[verifier::spinoff_prover]
#[verifier::rlimit(60)]
pub proof fn law_the_text_of_an_error(id: u64, ordinal: u16, body: Seq<u8>)
    requires
        body.len() > 0,
    ensures
        jsonrpc_response(id, EnvelopeView::Failure { id: ordinal, body }) == ascii(
            "{\"jsonrpc\":\"2.0\",\"error\":{\"code\":"@,
        ) + decimal_bytes(ordinal as nat) + ascii(",\"message\":\"application error\",\"data\":"@) + body + ascii(
            "},\"id\":"@,
        ) + decimal_bytes(id as nat) + ascii("}"@),
{
    lemma_names();
    reveal_strlit("jsonrpc");
    reveal_strlit("2.0");
    reveal_strlit("error");
    reveal_strlit("code");
    reveal_strlit("message");
    reveal_strlit("application error");
    reveal_strlit("data");
    reveal_strlit("id");
    reveal_strlit("{\"jsonrpc\":\"2.0\",\"error\":{\"code\":");
    reveal_strlit(",\"message\":\"application error\",\"data\":");
    reveal_strlit("},\"id\":");
    reveal_strlit("}");
    let all = err_members(id, ordinal, body);
    let inner = error_members(ordinal, body);
    lemma_three(all[0], all[1], all[2]);
    lemma_three(inner[0], inner[1], inner[2]);
    assert(all =~= seq![all[0], all[1], all[2]]);
    assert(inner =~= seq![inner[0], inner[1], inner[2]]);
    let head = seq![0x7bu8] + member_text(all[0]) + seq![0x2cu8] + quoted("error"@) + seq![0x3au8, 0x7bu8] + quoted(
        "code"@,
    ) + seq![0x3au8];
    assert(head =~= ascii("{\"jsonrpc\":\"2.0\",\"error\":{\"code\":"@));
    let mid = seq![0x2cu8] + member_text(inner[1]) + seq![0x2cu8] + quoted("data"@) + seq![0x3au8];
    assert(mid =~= ascii(",\"message\":\"application error\",\"data\":"@));
    let tail = seq![0x7du8, 0x2cu8] + quoted("id"@) + seq![0x3au8];
    assert(tail =~= ascii("},\"id\":"@));
    assert(seq![0x7du8] =~= ascii("}"@));
    assert(object_text(all) =~= head + decimal_bytes(ordinal as nat) + mid + body + tail + decimal_bytes(id as nat)
        + seq![0x7du8]);
}

} // verus!

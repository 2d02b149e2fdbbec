//! What a pump over one connection does.

use vstd::prelude::*;
use crate::answers::says_error;
use crate::behavior::{HandlerView, OutcomeView, StepView};
use crate::contract::{EnvelopeView, RequestView, RuntimeError};
use crate::edits::last_named;
use crate::engine::enveloped;
use crate::format::Codec;
use crate::generic::dispatched;
use crate::json::Json;
use crate::pump::{result_of, zero_replies, PumpCallView, PumpView, PumpWorkView, ResultView};
use crate::shape::{zero_of, FnView, ProtocolView, TypeDefView};

verus! {

proof fn lemma_zero_replies(functions: Seq<FnView>, types: Seq<TypeDefView>, j: int)
    requires
        last_named(functions, j),
    ensures
        zero_replies(functions, types).contains_key(functions[j].name),
        zero_replies(functions, types)[functions[j].name] == HandlerView::Reply(
            match functions[j].returns {
                Some(ty) => zero_of(ty, types, Seq::empty()),
                None => Json::Null,
            },
        ),
    decreases functions.len(),
{
    if j < functions.len() - 1 {
        let short = functions.drop_last();
        assert forall|i: int| j < i < short.len() implies (#[trigger] short[i]).name != short[j].name by {
            assert(functions[i].name != functions[j].name);
        }
        lemma_zero_replies(short, types, j);
        assert(functions[functions.len() - 1].name != functions[j].name);
    }
}

/// A pump starts with a clean wire from `client` to `server` at time zero, no call made,
/// and replies to each function of its protocol with the zero of what it returns.
pub proof fn law_a_pump_starts_with_zero_replies(proto: ProtocolView, types: Seq<TypeDefView>, j: int)
    requires
        last_named(proto.functions, j),
    ensures
        ({
            let p = PumpView::over(proto, types);
            let f = proto.functions[j];
            &&& p.proto == proto
            &&& p.behaviors.contains_key(f.name)
            &&& p.behaviors[f.name] == HandlerView::Reply(
                match f.returns {
                    Some(ty) => zero_of(ty, types, Seq::empty()),
                    None => Json::Null,
                },
            )
            &&& p.clock.now == 0
            &&& p.clock.queue.len() == 0
            &&& p.rng == 1
            &&& p.next_request_id == 0
            &&& p.channel.client == "client"@
            &&& p.channel.server == "server"@
            &&& p.channel.tap.frames.len() == 0
            &&& p.channel.latency_ms.bits == 0
            &&& p.channel.faults.drop_prob.bits == 0
            &&& p.channel.faults.corrupt_prob.bits == 0
            &&& p.channel.faults.delay_max.bits == 0
            &&& p.channel.faults.reorder_window == 0
            &&& !p.channel.faults.partition
            &&& forall|id: u64| !#[trigger] p.results.contains_key(id)
        }),
{
    lemma_zero_replies(proto.functions, types, j);
}

/// A call goes out where the protocol has the function and the parameters encode as
/// JSON, with the place of the function, a new id and those bytes.
pub proof fn law_a_pump_call_goes_out(p: PumpView, fn_name: Seq<char>, params: Json)
    requires
        p.next_request_id < u64::MAX,
    ensures
        match p.proto.function(fn_name) {
            None => p.outgoing(fn_name, params) == Err::<PumpCallView, RuntimeError>(RuntimeError::UnknownCall)
                && p.prepared(fn_name) == p,
            Some(f) => {
                &&& p.prepared(fn_name).next_request_id == p.next_request_id + 1
                &&& match Codec::Json.encoded(params) {
                    None => p.outgoing(fn_name, params) == Err::<PumpCallView, RuntimeError>(
                        RuntimeError::Serialization,
                    ),
                    Some(body) => {
                        let out = p.outgoing(fn_name, params);
                        &&& out is Ok
                        &&& f.index < 0x1_0000 ==> out->Ok_0.call_id == f.index
                        &&& out->Ok_0.request_id == p.next_request_id + 1
                        &&& out->Ok_0.body == body
                        &&& out->Ok_0.one_way == f.oneway
                    },
                }
            },
        },
{
}

/// A forward on a pump is answered with an error that says that there is nothing to
/// forward on.
pub proof fn law_a_pump_does_not_forward(p: PumpView, req: RequestView)
    requires
        dispatched(p.proto, req.call, req.params, Codec::Json, p.behaviors) matches Ok(StepView::Forward { .. }),
    ensures
        exists|data: Json|
            #![trigger says_error(data, "forwarding is only available in the engine"@)]
            says_error(data, "forwarding is only available in the engine"@) && p.served(Some(req)).work == (
            match enveloped(OutcomeView::Failure { ordinal: 0, data }, Codec::Json) {
                Some(envelope) => Some(PumpWorkView::FrameReply { request_id: req.request_id, envelope }),
                None => None,
            }),
{
    let why = "forwarding is only available in the engine"@;
    let data = Json::single("error"@, Json::Text(why));
    assert(says_error(data, why));
}

/// An answer comes out at the client of a pump as it went in.
pub proof fn law_a_pump_answer_comes_out_as_it_went_in(value: Json, ordinal: u16, body: Seq<u8>)
    requires
        Codec::Json.encoded(value) == Some(body),
        body.len() > 0,
        Codec::Json.decoded(body) == Some(value),
    ensures
        enveloped(OutcomeView::Success(value), Codec::Json) is Some,
        result_of(enveloped(OutcomeView::Success(value), Codec::Json)->0) == ResultView::Success(value),
        enveloped(OutcomeView::Failure { ordinal, data: value }, Codec::Json) is Some,
        result_of(enveloped(OutcomeView::Failure { ordinal, data: value }, Codec::Json)->0) == (ResultView::Failure {
            ordinal,
            body: value,
        }),
{
}

/// A success whose body does not decode is told as that; an error keeps its ordinal.
pub proof fn law_what_does_not_decode_at_a_pump(ordinal: u16, body: Seq<u8>)
    requires
        Codec::Json.decoded(body) is None,
    ensures
        result_of(EnvelopeView::Success(body)) == ResultView::Undecodable("ok body did not decode"@),
        result_of(EnvelopeView::Failure { id: ordinal, body }) == (ResultView::Failure { ordinal, body: Json::Null }),
{
}

} // verus!

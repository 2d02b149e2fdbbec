//! What the host gets to see, and what its edits do to a simulation.

use vstd::arithmetic::power2::pow2;
use vstd::prelude::*;
use crate::answers::says_error;
use crate::arith::law_whole_differences;
use crate::behavior::{BehaviorKind, OutcomeView};
use crate::compare::{matrix, params_of, run_of};
use crate::contract::EnvelopeView;
use crate::engine::{enveloped, relayed, result_of, EngineView, GreetingView, ResultView};
use crate::facade::{catalogue, catalogue_entry, result_json, SimEdit, SimView};
use crate::faults::FaultSpec;
use crate::format::Codec;
use crate::json::{
    parsed_json, parsed_msgpack, read_json, written_json, written_msgpack, Json, JsonNumber,
};
use crate::model::{FramingChoice, SessionView, SettingView};
use crate::record::{
    effect_of, goal, latest, replay_refusal, schema_of, InputView, Phase, RecorderView, RecordingView, ReplayView,
};
use crate::shape::FnView;
use crate::text::decimal;

verus! {

// ── results ─────────────────────────────────────────────────────────────

/// The host sees what a call came to: `ok` and the value; `err`, the ordinal and the
/// body; `undecodable` and why; `timeout`. And nothing beside it.
pub proof fn law_the_host_sees_what_a_call_came_to(value: Json, ordinal: u16, message: Seq<char>, key: Seq<char>)
    ensures
        ({
            let ok = result_json(ResultView::Success(value));
            &&& ok is Object
            &&& ok->Object_0.contains_key(key) <==> key == "status"@ || key == "value"@
            &&& ok->Object_0["status"@] == Json::Text("ok"@)
            &&& ok->Object_0["value"@] == value
        }),
        ({
            let err = result_json(ResultView::Failure { ordinal, body: value });
            &&& err is Object
            &&& err->Object_0.contains_key(key) <==> key == "status"@ || key == "ordinal"@ || key == "body"@
            &&& err->Object_0["status"@] == Json::Text("err"@)
            &&& err->Object_0["ordinal"@] == Json::Number(JsonNumber::Pos(ordinal as u64))
            &&& err->Object_0["body"@] == value
        }),
        ({
            let lost = result_json(ResultView::Undecodable(message));
            &&& lost is Object
            &&& lost->Object_0.contains_key(key) <==> key == "status"@ || key == "message"@
            &&& lost->Object_0["status"@] == Json::Text("undecodable"@)
            &&& lost->Object_0["message"@] == Json::Text(message)
        }),
        ({
            let late = result_json(ResultView::Timeout);
            &&& late is Object
            &&& late->Object_0.contains_key(key) <==> key == "status"@
            &&& late->Object_0["status"@] == Json::Text("timeout"@)
        }),
{
    lemma_names_differ();
}

proof fn lemma_names_differ()
    ensures
        "status"@ != "value"@,
        "status"@ != "ordinal"@,
        "status"@ != "body"@,
        "ordinal"@ != "body"@,
        "status"@ != "message"@,
        "kind"@ != "label"@,
        "kind"@ != "applies"@,
        "label"@ != "applies"@,
{
    reveal_strlit("status");
    reveal_strlit("value");
    reveal_strlit("ordinal");
    reveal_strlit("body");
    reveal_strlit("message");
    reveal_strlit("kind");
    reveal_strlit("label");
    reveal_strlit("applies");
    assert("status"@.len() == 6 && "value"@.len() == 5 && "ordinal"@.len() == 7 && "body"@.len() == 4);
    assert("message"@.len() == 7);
    assert("kind"@.len() == 4 && "label"@.len() == 5 && "applies"@.len() == 7);
}

/// A value that encodes and decodes comes out at the client as it was answered, and so
/// does an error, under its ordinal. Nothing is sent for no answer.
pub proof fn law_an_answer_comes_out_as_it_went_in(value: Json, ordinal: u16, codec: Codec, body: Seq<u8>)
    requires
        codec.encoded(value) == Some(body),
        body.len() > 0,
        codec.decoded(body) == Some(value),
    ensures
        enveloped(OutcomeView::Success(value), codec) is Some,
        result_of(enveloped(OutcomeView::Success(value), codec)->0, codec) == ResultView::Success(value),
        enveloped(OutcomeView::Failure { ordinal, data: value }, codec) is Some,
        result_of(enveloped(OutcomeView::Failure { ordinal, data: value }, codec)->0, codec) == (ResultView::Failure {
            ordinal,
            body: value,
        }),
        enveloped(OutcomeView::Nothing, codec) is None,
{
}

/// A success whose body does not decode is told as that; an error keeps its ordinal,
/// with `null` where it has no body or one that does not decode.
pub proof fn law_what_does_not_decode(ordinal: u16, codec: Codec, body: Seq<u8>)
    requires
        codec.decoded(body) is None,
    ensures
        result_of(EnvelopeView::Success(body), codec) == ResultView::Undecodable("ok body did not decode"@),
        result_of(EnvelopeView::Failure { id: ordinal, body }, codec) == (ResultView::Failure {
            ordinal,
            body: Json::Null,
        }),
{
}

/// The caller of a forwarded call gets what the inner call came to: its value, its error,
/// or an error of ordinal 0 that says that it did not decode or timed out.
pub proof fn law_what_is_relayed(value: Json, ordinal: u16, message: Seq<char>)
    ensures
        relayed(ResultView::Success(value)) == OutcomeView::Success(value),
        relayed(ResultView::Failure { ordinal, body: value }) == (OutcomeView::Failure { ordinal, data: value }),
        relayed(ResultView::Undecodable(message)) is Failure,
        relayed(ResultView::Undecodable(message))->ordinal == 0,
        says_error(relayed(ResultView::Undecodable(message))->data, message),
        relayed(ResultView::Timeout) is Failure,
        relayed(ResultView::Timeout)->ordinal == 0,
        says_error(relayed(ResultView::Timeout)->data, "forward: upstream timed out"@),
{
}

// ── the picker ──────────────────────────────────────────────────────────

/// The picker has one entry for each kind, in which it stands under its tag and its
/// title, and says whether it suits the function.
pub proof fn law_the_picker_lists_every_kind(f: FnView, kind: BehaviorKind, key: Seq<char>)
    ensures
        catalogue(Some(f)) is Array,
        catalogue(Some(f))->Array_0.len() == 8,
        exists|i: int|
            #![trigger catalogue(Some(f))->Array_0[i]]
            0 <= i < 8 && catalogue(Some(f))->Array_0[i] == catalogue_entry(kind, f),
        catalogue_entry(kind, f) is Object,
        catalogue_entry(kind, f)->Object_0.contains_key(key) <==> key == "kind"@ || key == "label"@ || key == "applies"@,
        catalogue_entry(kind, f)->Object_0["kind"@] == Json::Text(kind.tag()),
        catalogue_entry(kind, f)->Object_0["label"@] == Json::Text(kind.title()),
        catalogue_entry(kind, f)->Object_0["applies"@] == Json::Bool(kind.suits(f)),
        catalogue(None) is Array,
        catalogue(None)->Array_0.len() == 0,
{
    lemma_names_differ();
    let all = BehaviorKind::catalogue();
    let i: int = match kind {
        BehaviorKind::Reply => 0,
        BehaviorKind::Echo => 1,
        BehaviorKind::Increment => 2,
        BehaviorKind::Delay => 3,
        BehaviorKind::Raise => 4,
        BehaviorKind::Drop => 5,
        BehaviorKind::Forward => 6,
        BehaviorKind::Script => 7,
    };
    assert(all[i] == kind);
    assert(catalogue(Some(f))->Array_0[i] == catalogue_entry(kind, f));
}

// ── edits ───────────────────────────────────────────────────────────────

/// What a wire was opened with takes a reopening: the shape, the latency, the timeout
/// and the transport. Instances and connections that come and go take a matching, which
/// leaves the wires that stay as they were. The rest leaves every wire as it was. No edit
/// touches the session or what is recorded.
pub proof fn law_what_an_edit_does_to_the_wires(sim: SimView, edit: SimEdit, greetings: Seq<GreetingView>)
    ensures
        edit == SimEdit::Shape || edit == SimEdit::Latency || edit == SimEdit::CallTimeout || edit == SimEdit::Transport
            ==> sim.followed(edit, greetings).engine == sim.engine.rebuilt(sim.session, greetings),
        edit == SimEdit::AddInstance || edit == SimEdit::RemoveInstance || edit == SimEdit::AddConnection || edit
            == SimEdit::RemoveConnection ==> sim.followed(edit, greetings).engine == sim.engine.synced(
            sim.session,
            greetings,
        ),
        !(edit == SimEdit::Shape || edit == SimEdit::Latency || edit == SimEdit::CallTimeout || edit
            == SimEdit::Transport || edit == SimEdit::AddInstance || edit == SimEdit::RemoveInstance || edit
            == SimEdit::AddConnection || edit == SimEdit::RemoveConnection) ==> sim.followed(edit, greetings).engine
            == sim.engine,
        sim.followed(edit, greetings).session == sim.session,
        sim.followed(edit, greetings).recorder == sim.recorder,
{
}

/// Faults that the host sets are in the session and on the live wire, and are recorded
/// where the session has the connection.
pub proof fn law_the_host_sets_faults(sim: SimView, conn: Seq<char>, faults: FaultSpec)
    ensures
        ({
            let after = sim.with_faults(conn, faults);
            &&& after.session == sim.session.with_faults(conn, faults)
            &&& sim.engine.wires.contains_key(conn) ==> after.engine.wires[conn].channel.faults == faults
            &&& after.engine.clock == sim.engine.clock
            &&& after.engine.rng == sim.engine.rng
            &&& !sim.recorder.recording ==> after.recorder == sim.recorder
            &&& after.session.connection(conn) is None ==> after.recorder == sim.recorder
            &&& sim.recorder.recording && after.session.connection(conn) is Some ==> after.recorder.events.len()
                == sim.recorder.events.len() + 1 && after.recorder.events.last().input == (InputView::Fault {
                conn,
                faults,
            })
        }),
{
}

/// A behaviour that the host sets is in the session, is what every live wire of the
/// instance does for that function, and is recorded.
pub proof fn law_the_host_sets_a_behaviour(
    sim: SimView,
    instance: Seq<char>,
    fn_name: Seq<char>,
    setting: SettingView,
    conn: Seq<char>,
)
    requires
        schema_of(sim.session.with_behavior(instance, fn_name, setting), instance) is Some,
        sim.engine.wires.contains_key(conn),
        sim.engine.wires[conn].server_id == instance,
        sim.engine.wires[conn].proto.function(fn_name) is Some,
    ensures
        ({
            let after = sim.with_behavior(instance, fn_name, setting);
            let schema = schema_of(after.session, instance)->0;
            let f = sim.engine.wires[conn].proto.function(fn_name)->0;
            &&& after.session == sim.session.with_behavior(instance, fn_name, setting)
            &&& after.engine.wires.contains_key(conn)
            &&& after.engine.wires[conn].behaviors.contains_key(fn_name)
            &&& after.engine.wires[conn].behaviors[fn_name] == setting.kind.made(setting.config, f, schema)
            &&& sim.recorder.recording ==> after.recorder.events.len() == sim.recorder.events.len() + 1
                && after.recorder.events.last().input == (InputView::Behavior { instance, function: fn_name, setting })
            &&& !sim.recorder.recording ==> after.recorder == sim.recorder
        }),
{
    let session = sim.session.with_behavior(instance, fn_name, setting);
    let conns = sim.engine.connections_of(instance);
    assert(conns.contains(conn));
}

/// A call that goes out is recorded with its connection, its function and its
/// parameters; one that is refused is not.
pub proof fn law_calls_are_recorded(sim: SimView, conn: Seq<char>, fn_name: Seq<char>, params: Json)
    ensures
        ({
            let (after, called) = sim.called(conn, fn_name, params);
            &&& after.session == sim.session
            &&& called is Ok <==> sim.engine.outgoing(conn, fn_name, params) is Ok
            &&& called is Err ==> after.recorder == sim.recorder
            &&& !sim.recorder.recording ==> after.recorder == sim.recorder
            &&& called is Ok && sim.recorder.recording ==> after.recorder.events.len() == sim.recorder.events.len() + 1
                && after.recorder.events.last().input == (InputView::Call { conn, function: fn_name, params })
        }),
{
}

// ── replayed inputs ─────────────────────────────────────────────────────

/// What is replayed does what the host's own edit did: faults are set in the session and
/// on the wire, a behaviour that the session takes is set in it, and one that it refuses
/// leaves it as it was.
pub proof fn law_a_replayed_input_does_what_it_did(
    e: EngineView,
    s: SessionView,
    conn: Seq<char>,
    faults: FaultSpec,
    instance: Seq<char>,
    fn_name: Seq<char>,
    setting: SettingView,
    recorder: RecorderView,
)
    ensures
        ({
            let sim = SimView { session: s, engine: e, recorder };
            let effect = effect_of(e, s, InputView::Fault { conn, faults });
            &&& effect.session == sim.with_faults(conn, faults).session
            &&& effect.engine == sim.with_faults(conn, faults).engine
            &&& effect.ask is None
        }),
        ({
            let sim = SimView { session: s, engine: e, recorder };
            let effect = effect_of(e, s, InputView::Behavior { instance, function: fn_name, setting });
            &&& s.behavior_refusal(instance, fn_name) is None ==> effect.session == sim.with_behavior(
                instance,
                fn_name,
                setting,
            ).session && effect.engine == sim.with_behavior(instance, fn_name, setting).engine
            &&& s.behavior_refusal(instance, fn_name) is Some ==> effect.session == s
            &&& effect.ask is None
        }),
{
    reveal(effect_of);
}

/// A replayed call does what the call did.
pub proof fn law_a_replayed_call_does_what_it_did(
    sim: SimView,
    conn: Seq<char>,
    fn_name: Seq<char>,
    params: Json,
)
    ensures
        effect_of(sim.engine, sim.session, InputView::Call { conn, function: fn_name, params }).engine == sim.called(
            conn,
            fn_name,
            params,
        ).0.engine,
        effect_of(sim.engine, sim.session, InputView::Call { conn, function: fn_name, params }).session == sim.session,
{
    reveal(effect_of);
}

/// A replay has 5 seconds behind its last input for everything to land.
pub proof fn law_a_replay_leaves_time_to_settle(r: ReplayView, times: Seq<int>)
    requires
        r.phase == Phase::Settling || r.phase == Phase::Over,
    ensures
        goal(r, times) == latest(times, r.place) + 5000,
{
}

// ── comparisons ─────────────────────────────────────────────────────────

/// A run over a transport is labelled with it, and has the frames of its connection and
/// the result of its call, where there is one.
pub proof fn law_a_run_is_what_its_engine_came_to(
    e: EngineView,
    conn: Seq<char>,
    framing: FramingChoice,
    codec: Codec,
    id: u64,
)
    requires
        e.wires.contains_key(conn),
    ensures
        run_of(e, conn, framing, codec, Some(id)).frames == e.wires[conn].channel.tap.frames,
        e.results.contains_key(id) ==> run_of(e, conn, framing, codec, Some(id)).result == Some(e.results[id]),
        !e.results.contains_key(id) ==> run_of(e, conn, framing, codec, Some(id)).result is None,
        run_of(e, conn, framing, codec, None).result is None,
        run_of(e, conn, framing, codec, Some(id)).label == (if framing == FramingChoice::Jsonrpc {
            "jsonrpc"@
        } else {
            "datagram"@
        }) + "/"@ + (if codec == Codec::Msgpack {
            "msgpack"@
        } else {
            "json"@
        }),
{
}

/// The transports that are compared: each framing with each format that it can carry,
/// once.
pub proof fn law_every_transport_is_compared(framing: FramingChoice, codec: Codec)
    requires
        framing != FramingChoice::Auto,
        !(framing == FramingChoice::Jsonrpc && codec == Codec::Msgpack),
    ensures
        matrix().contains((framing, codec)),
        matrix().len() == 3,
        !matrix().contains((FramingChoice::Jsonrpc, Codec::Msgpack)),
        forall|i: int, j: int| 0 <= i < j < matrix().len() ==> matrix()[i] != matrix()[j],
{
    assert(matrix()[0] == (FramingChoice::Datagram, Codec::Json));
    assert(matrix()[1] == (FramingChoice::Datagram, Codec::Msgpack));
    assert(matrix()[2] == (FramingChoice::Jsonrpc, Codec::Json));
}

/// The parameters of a comparison are what their text says, or the reader's complaint.
pub proof fn law_the_parameters_of_a_comparison(text: Seq<char>)
    ensures
        read_json(text) matches Ok(v) ==> params_of(text) == Ok::<Json, Seq<char>>(v),
        read_json(text) matches Err(why) ==> params_of(text) == Err::<Json, Seq<char>>("bad params json: "@ + why),
{
}

// ── recordings ──────────────────────────────────────────────────────────

/// While it records, a recorder keeps each input behind those before it, and goes on
/// recording from the same start. While it does not, it keeps none.
pub proof fn law_a_recorder_keeps_inputs_in_order(r: RecorderView, input: InputView, now: Option<int>)
    ensures
        r.recording ==> r.captured(input, now).recording && r.captured(input, now).snapshot == r.snapshot && r.captured(
            input,
            now,
        ).t0 == r.t0 && r.captured(input, now).events.len() == r.events.len() + 1 && r.captured(
            input,
            now,
        ).events.drop_last() == r.events && r.captured(input, now).events.last().input == input,
        !r.recording ==> r.captured(input, now) == r,
        !r.stopped().recording,
        r.stopped().events == r.events,
        r.stopped().snapshot == r.snapshot,
{
    if r.recording {
        assert(r.captured(input, now).events.drop_last() =~= r.events);
    }
}

/// A recording has the version 1, the link that it was started with, and what was
/// captured since.
pub proof fn law_a_recording_is_what_was_captured(
    r: RecorderView,
    link: Seq<char>,
    t0: Option<int>,
    first: InputView,
    second: InputView,
    t1: Option<int>,
    t2: Option<int>,
)
    ensures
        ({
            let rec = r.started(link, t0).captured(first, t1).captured(second, t2).stopped().taken();
            &&& rec.v == 1
            &&& rec.session == link
            &&& rec.events.len() == 2
            &&& rec.events[0].input == first
            &&& rec.events[1].input == second
        }),
{
}

/// What is captured on whole milliseconds is recorded as late as it came after the
/// start, and at the start where the clock went back.
pub proof fn law_times_are_recorded_from_the_start(r: RecorderView, input: InputView, start: nat, t: nat)
    requires
        r.recording,
        r.t0 == Some((start * pow2(1074)) as int),
        start * 1000 <= 0x100_0000_0000_0000,
        t * 1000 <= 0x100_0000_0000_0000,
    ensures
        t >= start ==> r.captured(input, Some((t * pow2(1074)) as int)).events.last().at == Some(
            (t - start) * pow2(1074),
        ),
        t < start ==> r.captured(input, Some((t * pow2(1074)) as int)).events.last().at == Some(0int),
{
    law_whole_differences(t as int, start);
    if t == start {
        assert((t - start) * pow2(1074) == 0) by (nonlinear_arith)
            requires
                t == start,
        ;
    }
}

/// A recording can be replayed exactly where it is of version 1 and its link decodes.
pub proof fn law_which_recordings_can_be_replayed(rec: RecordingView, decoded: bool)
    ensures
        replay_refusal(rec, decoded) is None <==> rec.v == 1 && decoded,
        rec.v != 1 ==> replay_refusal(rec, decoded) == Some(
            "replay: unknown recording version "@ + decimal(rec.v as nat),
        ),
        rec.v == 1 && !decoded ==> replay_refusal(rec, decoded) == Some(
            "replay: the recording's session did not decode"@,
        ),
{
}

// ── formats ─────────────────────────────────────────────────────────────

/// A value is written and read in the format of its connection.
pub proof fn law_formats_write_and_read_their_own(value: Json, bytes: Seq<u8>)
    ensures
        Codec::Json.encoded(value) == written_json(value),
        Codec::Json.decoded(bytes) == parsed_json(bytes),
        Codec::Msgpack.encoded(value) == written_msgpack(value),
        Codec::Msgpack.decoded(bytes) == parsed_msgpack(bytes),
{
}

// ── refusals ────────────────────────────────────────────────────────────

/// The host can set a behaviour exactly where its tag is that of a kind, its
/// configuration parses, and the session takes it; it is refused in this order.
pub proof fn law_what_the_host_may_set(
    sim: SimView,
    instance: Seq<char>,
    fn_name: Seq<char>,
    kind: BehaviorKind,
    tag: Seq<char>,
    config: Result<Json, Seq<char>>,
)
    ensures
        sim.behavior_refusal(instance, fn_name, kind.tag(), config) is None <==> config is Ok
            && sim.session.behavior_refusal(instance, fn_name) is None,
        config matches Err(why) ==> sim.behavior_refusal(instance, fn_name, kind.tag(), config) == Some(why),
        config is Ok ==> sim.behavior_refusal(instance, fn_name, kind.tag(), config) == sim.session.behavior_refusal(
            instance,
            fn_name,
        ),
        (forall|k: BehaviorKind| tag != #[trigger] k.tag()) ==> sim.behavior_refusal(instance, fn_name, tag, config)
            == Some("unknown behaviour "@ + tag),
{
    assert(!(forall|k: BehaviorKind| kind.tag() != #[trigger] k.tag())) by {
        assert(kind.tag() == kind.tag());
    }
}

} // verus!

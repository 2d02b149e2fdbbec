//! What a call comes to from end to end: over a clean wire it is answered, and
//! settled with that answer; over a chain of clean wires it is relayed; and where no
//! answer comes, it times out.

use vstd::arithmetic::mul::lemma_mul_is_associative;
use vstd::arithmetic::power2::{lemma2_to64, lemma2_to64_rest, lemma_pow2_adds, lemma_pow2_pos, pow2};
use vstd::prelude::*;
use crate::arith::{law_whole_milliseconds, millis_of};
use crate::behavior::{scripted, AskedView, HandlerView, OutcomeView, StepView};
use crate::clock::{free_until, instant_after, lemma_goes_first, lemma_slot, next_number, slot, Schedule, Timer};
use crate::contract::{CallView, EnvelopeView, RequestView, RuntimeError};
use crate::dict::{lemma_filter_keeps_all, lemma_filter_skips};
use crate::double::Double;
use crate::engine::{
    chosen_framing, deliveries, delivery, enveloped, jsonrpc_response, opened, opened_all, relayed, result_of, wire_behaviors,
    ContView, EngineView, EventView, GreetingView, OutgoingView, ResultView, Turn, WireView, WorkView,
};
use crate::faults::Direction;
use crate::format::Codec;
use crate::framing::{
    err_members, needs_no_escape, object_text, ok_members, reads_request, reads_response, request_frame,
    request_of_frame, response_of_frame, simple_value, value_text, WireFraming,
};
use crate::generic::{behaviors_after, dispatched, resolved};
use crate::json::Json;
use crate::model::{ConnectionView, InstanceView, SessionView, DEFAULT_CALL_TIMEOUT_BITS};
use crate::runs::{carried, stepped_on, Reply};
use crate::shape::{FnView, ProjectView, SchemaView};
use crate::wire::{law_clean_wire_passes_through, ChannelView};

verus! {

// ── a frame on its way ──────────────────────────────────────────────────

/// A wire that is up, and drops, delays and corrupts nothing.
pub open spec fn clean(wire: WireView) -> bool {
    &&& wire.error is None
    &&& !wire.dead
    &&& !wire.channel.faults.active()
}

/// The instant at which a frame that leaves at `now` arrives over `wire`.
pub open spec fn arrival(now: i64, wire: WireView) -> i64 {
    instant_after(now, wire.channel.latency_ms.micros() as i64)
}

/// Whether no event is queued under a handle that is still to be given.
pub open spec fn handles_given(clock: Schedule<EventView>) -> bool {
    forall|k: int| 0 <= k < clock.queue.len() ==> (#[trigger] clock.queue[k]).handle <= clock.seq
}

/// Whether the next handles are unlike those in use.
pub open spec fn handles_left(clock: Schedule<EventView>) -> bool {
    handles_given(clock) && (clock.queue.len() > 0 ==> clock.seq < u64::MAX)
}

/// The engine with its first event taken out, and the time at its due instant.
pub open spec fn advanced(e: EngineView) -> EngineView {
    EngineView { clock: e.clock.popped(), ..e }
}

/// The engine once a frame has gone over a clean wire, and is at hand at the other
/// end.
pub open spec fn delivered(e: EngineView, conn: Seq<char>, dir: Direction, frame: Seq<u8>) -> EngineView {
    let wire = e.wires[conn];
    let sent = wire.channel.sent(dir, frame, e.clock.millis(), e.rng);
    EngineView {
        wires: e.wires.insert(conn, WireView { channel: sent.channel, ..wire }),
        rng: sent.rng,
        clock: Schedule {
            now: arrival(e.clock.now, wire),
            seq: next_number(e.clock.seq),
            queue: e.clock.queue,
        },
        ..e
    }
}

/// A frame on a clean wire: its arrival is the next event.
proof fn lemma_delivered(e: EngineView, conn: Seq<char>, dir: Direction, frame: Seq<u8>)
    requires
        e.wires.dom().contains(conn),
        !e.wires[conn].channel.faults.active(),
        free_until(e.clock, arrival(e.clock.now, e.wires[conn])),
    ensures
        ({
            let after = e.emitted(conn, dir, frame);
            let due = arrival(e.clock.now, e.wires[conn]);
            let timer = Timer { due, handle: next_number(e.clock.seq), event: delivery(conn, dir, frame) };
            &&& after == (EngineView { clock: after.clock, ..delivered(e, conn, dir, frame) })
            &&& after.clock.now == e.clock.now
            &&& after.clock.seq == next_number(e.clock.seq)
            &&& after.clock.queue == seq![timer] + e.clock.queue
            &&& after.clock.queue[0].event == delivery(conn, dir, frame)
            &&& advanced(after) == delivered(e, conn, dir, frame)
        }),
{
    let c = e.wires[conn].channel;
    c.latency_ms.lemma_micros();
    law_clean_wire_passes_through(c, dir, frame, e.clock.millis(), e.rng);
    reveal_with_fuel(deliveries, 2);
    assert(seq![frame].drop_last() =~= Seq::<Seq<u8>>::empty());
    let delay = c.latency_ms.micros() as i64;
    assert(e.emitted(conn, dir, frame).clock == e.clock.scheduled(delay, delivery(conn, dir, frame)));
    lemma_goes_first(e.clock, delay, delivery(conn, dir, frame));
}

/// What a frame on a clean wire leaves of it.
proof fn lemma_delivered_wire(e: EngineView, conn: Seq<char>, dir: Direction, frame: Seq<u8>)
    requires
        e.wires.dom().contains(conn),
        !e.wires[conn].channel.faults.active(),
    ensures
        ({
            let before = e.wires[conn].channel;
            let after = delivered(e, conn, dir, frame).wires[conn].channel;
            &&& after.faults == before.faults
            &&& after.latency_ms == before.latency_ms
            &&& after.tap.frames.len() == before.tap.frames.len() + 1
        }),
{
    law_clean_wire_passes_through(e.wires[conn].channel, dir, frame, e.clock.millis(), e.rng);
}

// ── a request on its way ────────────────────────────────────────────────

/// The instant at which the timeout window of a call that is made at `now` ends.
pub open spec fn window_end(now: i64, timeout: Double) -> i64 {
    instant_after(now, timeout.micros() as i64)
}

/// The handle that the timeout window of a call is queued under.
pub open spec fn window_handle(clock: Schedule<EventView>) -> u64 {
    next_number(next_number(clock.seq))
}

/// The queue with the timeout window of a call in it.
pub open spec fn windowed(clock: Schedule<EventView>, job: OutgoingView) -> Seq<Timer<EventView>> {
    let due = window_end(clock.now, job.timeout_ms);
    if job.timeout_ms.positive() {
        clock.queue.insert(
            slot(clock.queue, due),
            Timer {
                due,
                handle: window_handle(clock),
                event: EventView::Timeout { conn: job.conn, request_id: job.request_id },
            },
        )
    } else {
        clock.queue
    }
}

/// The engine once the frame of a call has gone over a clean wire, and is at hand at
/// the server: the call is in flight, under its timeout where there is one.
pub open spec fn at_server(e: EngineView, job: OutgoingView, frame: Seq<u8>) -> EngineView {
    let there = delivered(e, job.conn, Direction::Request, frame);
    EngineView {
        clock: Schedule {
            now: there.clock.now,
            seq: if job.timeout_ms.positive() {
                window_handle(e.clock)
            } else {
                next_number(e.clock.seq)
            },
            queue: windowed(e.clock, job),
        },
        in_flight: e.in_flight.insert(job.request_id),
        timeouts: if job.timeout_ms.positive() {
            e.timeouts.insert(job.request_id, window_handle(e.clock))
        } else {
            e.timeouts
        },
        forwards: match job.cont {
            Some(cont) => e.forwards.insert(job.request_id, cont),
            None => e.forwards,
        },
        ..there
    }
}

/// Behind an event that is due no later, the place of another is one further.
proof fn lemma_slot_behind(first: Timer<EventView>, queue: Seq<Timer<EventView>>, due: i64)
    requires
        first.due <= due,
    ensures
        slot(seq![first] + queue, due) == slot(queue, due) + 1,
    decreases queue.len(),
{
    let all = seq![first] + queue;
    if queue.len() == 0 {
        assert(all.last() == first);
    } else {
        assert(all.last() == queue.last());
        if queue.last().due > due {
            assert(all.drop_last() =~= seq![first] + queue.drop_last());
            lemma_slot_behind(first, queue.drop_last(), due);
        }
    }
}

/// A call that is put on a clean wire: its arrival at the server is the next event.
proof fn lemma_at_server(e: EngineView, job: OutgoingView, frame: Seq<u8>)
    requires
        e.wires.dom().contains(job.conn),
        !e.wires[job.conn].channel.faults.active(),
        free_until(e.clock, arrival(e.clock.now, e.wires[job.conn])),
        !job.one_way,
        job.timeout_ms.positive() ==> arrival(e.clock.now, e.wires[job.conn]) <= window_end(
            e.clock.now,
            job.timeout_ms,
        ),
    ensures
        ({
            let sent = e.issued(job, frame);
            &&& sent.clock.queue.len() > 0
            &&& sent.clock.queue[0].event == (EventView::DeliverToServer { conn: job.conn, frame })
            &&& advanced(sent) == at_server(e, job, frame)
            &&& sent.results == e.results
        }),
{
    lemma_delivered(e, job.conn, Direction::Request, frame);
    let out = e.emitted(job.conn, Direction::Request, frame);
    let sent = e.issued(job, frame);
    let first = out.clock.queue[0];
    assert(out.clock.queue =~= seq![first] + e.clock.queue);
    if job.timeout_ms.positive() {
        let due = window_end(e.clock.now, job.timeout_ms);
        lemma_slot(e.clock.queue, due);
        lemma_slot_behind(first, e.clock.queue, due);
        assert(sent.clock.queue[0] == first);
        assert(sent.clock.queue.drop_first() =~= windowed(e.clock, job));
    } else {
        assert(sent.clock.queue.drop_first() =~= windowed(e.clock, job));
    }
    assert(advanced(sent) =~= at_server(e, job, frame));
}

/// The timeout window of a call leaves the queue as free as it was, up to its end.
proof fn lemma_windowed(clock: Schedule<EventView>, job: OutgoingView, t: i64)
    requires
        free_until(clock, t),
        handles_left(clock),
        job.timeout_ms.positive() ==> t < window_end(clock.now, job.timeout_ms),
    ensures
        forall|k: int| 0 <= k < windowed(clock, job).len() ==> (#[trigger] windowed(clock, job)[k]).due > t,
        forall|k: int|
            0 <= k < windowed(clock, job).len() ==> (#[trigger] windowed(clock, job)[k]).handle <= window_handle(clock),
        forall|k: int| 0 <= k < clock.queue.len() ==> (#[trigger] clock.queue[k]).handle < window_handle(clock),
{
    let queue = windowed(clock, job);
    if job.timeout_ms.positive() {
        let due = window_end(clock.now, job.timeout_ms);
        let at = slot(clock.queue, due);
        lemma_slot(clock.queue, due);
        assert forall|k: int| 0 <= k < queue.len() implies (#[trigger] queue[k]).due > t && queue[k].handle
            <= window_handle(clock) by {
            if k < at {
                assert(queue[k] == clock.queue[k]);
            } else if k > at {
                assert(queue[k] == clock.queue[k - 1]);
            }
        }
    }
}

/// Without its window, the queue is what it was before the call.
proof fn lemma_window_cancelled(clock: Schedule<EventView>, job: OutgoingView, later: Schedule<EventView>)
    requires
        handles_left(clock),
        job.timeout_ms.positive(),
        later.queue == windowed(clock, job),
    ensures
        later.cancelled(window_handle(clock)).queue == clock.queue,
{
    let due = window_end(clock.now, job.timeout_ms);
    let at = slot(clock.queue, due);
    lemma_slot(clock.queue, due);
    let keep = |t: Timer<EventView>| t.handle != window_handle(clock);
    assert(later.queue.remove(at) =~= clock.queue);
    lemma_filter_skips(later.queue, at, keep);
    assert forall|k: int| 0 <= k < clock.queue.len() implies keep(#[trigger] clock.queue[k]) by {
        assert(clock.queue[k].handle <= clock.seq);
    }
    lemma_filter_keeps_all(clock.queue, keep);
}

// ── what is made of a frame, and what is read out of it ─────────────────

/// How a call addresses its function: by name over JSON-RPC, by place in a datagram.
pub open spec fn address(job: OutgoingView) -> CallView {
    match job.framing {
        WireFraming::Jsonrpc => CallView::Name(job.call_name),
        WireFraming::Datagram => CallView::Id(job.call_id),
    }
}

/// The request that a call is at the server.
pub open spec fn as_request(job: OutgoingView) -> RequestView {
    RequestView { call: address(job), request_id: job.request_id, params: job.body }
}

/// The frame of a call.
pub open spec fn call_frame(job: OutgoingView, host: spec_fn(WorkView) -> Reply) -> Seq<u8> {
    match job.framing {
        WireFraming::Jsonrpc => request_frame(job.call_name, job.request_id, job.body),
        WireFraming::Datagram => host(WorkView::FrameRequest(job))->Frame_0->0,
    }
}

/// Whether the frame of a call is read as that call. That of a datagram the host
/// makes and reads.
pub open spec fn call_is_read(job: OutgoingView, host: spec_fn(WorkView) -> Reply) -> bool {
    let frame = call_frame(job, host);
    match job.framing {
        WireFraming::Jsonrpc => request_of_frame(frame) == Some(as_request(job)),
        WireFraming::Datagram => {
            &&& host(WorkView::FrameRequest(job)) == Reply::Frame(Some(frame))
            &&& host(WorkView::DecodeRequest { conn: job.conn, frame }) == Reply::Request(Some(as_request(job)))
        },
    }
}

/// The frame of an answer.
pub open spec fn answer_frame(
    framing: WireFraming,
    conn: Seq<char>,
    id: u64,
    envelope: EnvelopeView,
    host: spec_fn(WorkView) -> Reply,
) -> Seq<u8> {
    match framing {
        WireFraming::Jsonrpc => jsonrpc_response(id, envelope),
        WireFraming::Datagram => host(WorkView::FrameReply { conn, request_id: id, envelope })->Frame_0->0,
    }
}

/// Whether the frame of an answer is read as that answer. That of a datagram the
/// host makes and reads.
pub open spec fn answer_is_read(
    framing: WireFraming,
    conn: Seq<char>,
    id: u64,
    envelope: EnvelopeView,
    host: spec_fn(WorkView) -> Reply,
) -> bool {
    let frame = answer_frame(framing, conn, id, envelope, host);
    match framing {
        WireFraming::Jsonrpc => response_of_frame(frame) == Some((id, envelope)),
        WireFraming::Datagram => {
            &&& host(WorkView::FrameReply { conn, request_id: id, envelope }) == Reply::Frame(Some(frame))
            &&& host(WorkView::DecodeResponse { conn, frame }) == Reply::Response(Some((id, envelope)))
        },
    }
}

/// The body of an answer.
pub open spec fn body_of(envelope: EnvelopeView) -> Seq<u8> {
    match envelope {
        EnvelopeView::Success(payload) => payload,
        EnvelopeView::Failure { body, .. } => body,
    }
}

/// Over JSON-RPC a call is read as that call, where its name needs no escape and its
/// params are the text of a value. The latter is what [`Codec::encode`] promises of
/// plain values, and `reads_request` what [`Engine::step`] promises of the frames that
/// it brings.
///
/// [`Engine::step`]: crate::engine::Engine::step
pub proof fn law_a_jsonrpc_call_is_read(job: OutgoingView, host: spec_fn(WorkView) -> Reply)
    requires
        job.framing == WireFraming::Jsonrpc,
        needs_no_escape(job.call_name),
        value_text(job.body),
        reads_request(request_frame(job.call_name, job.request_id, job.body)),
    ensures
        call_is_read(job, host),
{
}

/// Over JSON-RPC an answer is read as that answer, where its body is the text of a
/// value.
pub proof fn law_a_jsonrpc_answer_is_read(
    conn: Seq<char>,
    id: u64,
    envelope: EnvelopeView,
    host: spec_fn(WorkView) -> Reply,
)
    requires
        body_of(envelope).len() > 0,
        simple_value(body_of(envelope)),
        reads_response(jsonrpc_response(id, envelope)),
    ensures
        answer_is_read(WireFraming::Jsonrpc, conn, id, envelope, host),
{
    match envelope {
        EnvelopeView::Success(payload) => {
            assert(jsonrpc_response(id, envelope) == object_text(ok_members(id, payload)));
        },
        EnvelopeView::Failure { id: code, body } => {
            assert(jsonrpc_response(id, envelope) == object_text(err_members(id, code, body)));
        },
    }
}

/// A call that is read goes out, with the help of the host for a datagram.
proof fn lemma_goes_out(e: EngineView, job: OutgoingView, host: spec_fn(WorkView) -> Reply)
    requires
        call_is_read(job, host),
    ensures
        carried(e.dispatched_call(job), host) == e.issued(job, call_frame(job, host)),
{
    reveal_with_fuel(carried, 3);
}

/// A call that arrives is read, with the help of the host for a datagram.
proof fn lemma_comes_in(e: EngineView, job: OutgoingView, host: spec_fn(WorkView) -> Reply)
    requires
        call_is_read(job, host),
        e.clock.queue.len() > 0,
        e.clock.queue[0].event == (EventView::DeliverToServer { conn: job.conn, frame: call_frame(job, host) }),
        e.wires.dom().contains(job.conn),
        e.wires[job.conn].framing == job.framing,
    ensures
        carried(e.stepped(), host) == carried(advanced(e).served(job.conn, Some(as_request(job))), host),
{
    reveal(EngineView::applied);
    let work = WorkView::DecodeRequest { conn: job.conn, frame: call_frame(job, host) };
    if job.framing == WireFraming::Datagram {
        assert(e.stepped() == (Turn { engine: advanced(e), work: Some(work) }));
        assert(carried(e.stepped(), host) == carried(advanced(e).answered(work, host(work)), host));
    }
}

/// An answer that is read goes back, with the help of the host for a datagram.
proof fn lemma_goes_back(
    e: EngineView,
    conn: Seq<char>,
    id: u64,
    outcome: OutcomeView,
    host: spec_fn(WorkView) -> Reply,
)
    requires
        e.wires.dom().contains(conn),
        enveloped(outcome, e.wires[conn].codec) matches Some(envelope) && answer_is_read(
            e.wires[conn].framing,
            conn,
            id,
            envelope,
            host,
        ),
    ensures
        ({
            let envelope = enveloped(outcome, e.wires[conn].codec)->0;
            let frame = answer_frame(e.wires[conn].framing, conn, id, envelope, host);
            carried(e.replied(conn, id, outcome), host) == e.emitted(conn, Direction::Response, frame)
        }),
{
    reveal_with_fuel(carried, 3);
}

/// An answer that arrives is read, with the help of the host for a datagram.
proof fn lemma_comes_back(
    e: EngineView,
    conn: Seq<char>,
    id: u64,
    envelope: EnvelopeView,
    host: spec_fn(WorkView) -> Reply,
)
    requires
        e.wires.dom().contains(conn),
        answer_is_read(e.wires[conn].framing, conn, id, envelope, host),
        e.clock.queue.len() > 0,
        e.clock.queue[0].event == (EventView::DeliverToClient {
            conn,
            frame: answer_frame(e.wires[conn].framing, conn, id, envelope, host),
        }),
    ensures
        carried(e.stepped(), host) == carried(
            advanced(e).settled(id, result_of(envelope, e.wires[conn].codec)),
            host,
        ),
{
    reveal(EngineView::applied);
    let frame = answer_frame(e.wires[conn].framing, conn, id, envelope, host);
    let work = WorkView::DecodeResponse { conn, frame };
    if e.wires[conn].framing == WireFraming::Datagram {
        assert(e.stepped() == (Turn { engine: advanced(e), work: Some(work) }));
        assert(carried(e.stepped(), host) == carried(advanced(e).answered(work, host(work)), host));
    }
}

// ── a call and its answer ───────────────────────────────────────────────

/// Whether a value is what its encoding decodes to.
pub open spec fn comes_through(codec: Codec, value: Json) -> bool {
    codec.encoded(value) matches Some(bytes) && bytes.len() > 0 && codec.decoded(bytes) == Some(value)
}

/// Whether an outcome is one that is sent, and its value is what its encoding decodes
/// to.
pub open spec fn comes_back(codec: Codec, outcome: OutcomeView) -> bool {
    match outcome {
        OutcomeView::Success(value) => comes_through(codec, value),
        OutcomeView::Failure { data, .. } => comes_through(codec, data),
        OutcomeView::Nothing => false,
    }
}

/// What a call comes to that is answered with `outcome`.
pub open spec fn answered_with(outcome: OutcomeView) -> ResultView {
    match outcome {
        OutcomeView::Success(value) => ResultView::Success(value),
        OutcomeView::Failure { ordinal, data } => ResultView::Failure { ordinal, body: data },
        OutcomeView::Nothing => ResultView::Success(Json::Null),
    }
}

/// What a step of a behaviour answers with by itself: at once, or after a while.
pub open spec fn answer_in(step: StepView) -> Option<OutcomeView> {
    match step {
        StepView::Now(outcome) => Some(outcome),
        StepView::After { outcome, .. } => Some(outcome),
        _ => None,
    }
}

/// What a step of a behaviour answers with to the call `id` on `conn`: by itself, or
/// with what the host says that its script came to.
pub open spec fn answer_from(
    step: StepView,
    conn: Seq<char>,
    id: u64,
    host: spec_fn(WorkView) -> Reply,
) -> Option<OutcomeView> {
    match step {
        StepView::Script { source, params, oneway } => match host(
            WorkView::RunScript { conn, request_id: id, source, params, oneway },
        ) {
            Reply::Script(ran) => Some(scripted(oneway, ran)),
            _ => None,
        },
        _ => answer_in(step),
    }
}

/// The instant at which a step that is made at `now` gives its answer.
pub open spec fn answer_at(now: i64, step: StepView) -> i64 {
    match step {
        StepView::After { delay_ms, .. } => instant_after(now, delay_ms.micros() as i64),
        _ => now,
    }
}

/// How many events there are from a call to its settlement: the arrivals of the
/// request and of the response, and between them the end of the wait, where there is
/// one.
pub open spec fn events_of(step: StepView) -> nat {
    match step {
        StepView::After { .. } => 3,
        _ => 2,
    }
}

/// The step that the server's behaviour for `function` makes of a call.
pub open spec fn step_for(wire: WireView, function: FnView, params: Json) -> StepView {
    wire.behaviors[function.name].step(AskedView { params, function, protocol: wire.proto })
}

/// The server's behaviours after that step.
pub open spec fn behaviors_for(wire: WireView, function: FnView, params: Json) -> Map<
    Seq<char>,
    HandlerView,
> {
    wire.behaviors.insert(
        function.name,
        wire.behaviors[function.name].stepped(AskedView { params, function, protocol: wire.proto }),
    )
}

/// The instant at which the answer to a call that is made at `now` is back.
pub open spec fn home_at(now: i64, wire: WireView, step: StepView) -> i64 {
    arrival(answer_at(arrival(now, wire), step), wire)
}

/// Whether the books do not know the id.
pub open spec fn fresh(e: EngineView, id: u64) -> bool {
    &&& !e.in_flight.contains(id)
    &&& !e.timeouts.dom().contains(id)
    &&& !e.forwards.dom().contains(id)
}

/// Whether a call of `function` goes out over a clean wire to a server that has a
/// behaviour for it, with params that come through the wire's codec.
pub open spec fn can_ask(e: EngineView, conn: Seq<char>, function: FnView, params: Json) -> bool {
    let wire = e.wires[conn];
    &&& e.wires.dom().contains(conn)
    &&& clean(wire)
    &&& wire.proto.function(function.name) == Some(function)
    &&& wire.framing == WireFraming::Datagram ==> {
        &&& function.index < wire.proto.functions.len()
        &&& function.index <= u16::MAX
        &&& wire.proto.functions[function.index as int] == function
    }
    &&& !function.oneway
    &&& wire.behaviors.dom().contains(function.name)
    &&& comes_through(wire.codec, params)
    &&& fresh(e, next_number(e.next_request_id))
}

/// Whether a call that is over at `end` is over before its window ends, and before
/// anything else that is queued.
pub open spec fn in_time(e: EngineView, wire: WireView, end: i64) -> bool {
    &&& free_until(e.clock, end)
    &&& handles_left(e.clock)
    &&& wire.timeout_ms.positive() ==> end < window_end(e.clock.now, wire.timeout_ms)
}

/// With the step of the server's behaviour made.
spec fn asked(e: EngineView, conn: Seq<char>, function: FnView, params: Json) -> EngineView {
    EngineView {
        wires: e.wires.insert(
            conn,
            WireView { behaviors: behaviors_for(e.wires[conn], function, params), ..e.wires[conn] },
        ),
        ..e
    }
}

/// What a request comes to at a server that has a behaviour for it.
proof fn lemma_asked(wire: WireView, function: FnView, call: CallView, params: Json)
    requires
        resolved(wire.proto, call) == Some(function),
        wire.behaviors.dom().contains(function.name),
        comes_through(wire.codec, params),
    ensures
        ({
            let body = wire.codec.encoded(params)->0;
            &&& dispatched(wire.proto, call, body, wire.codec, wire.behaviors) == Ok::<
                StepView,
                RuntimeError,
            >(step_for(wire, function, params))
            &&& behaviors_after(wire.proto, call, body, wire.codec, wire.behaviors) == behaviors_for(
                wire,
                function,
                params,
            )
        }),
{
}

/// The instants on the way are no later than the end of it.
proof fn lemma_on_the_way(now: i64, wire: WireView, step: StepView)
    ensures
        now <= arrival(now, wire) <= answer_at(arrival(now, wire), step) <= home_at(now, wire, step),
{
}

/// The way of a call to the server.
proof fn lemma_asks(e: EngineView, job: OutgoingView, host: spec_fn(WorkView) -> Reply)
    requires
        e.wires.dom().contains(job.conn),
        !e.wires[job.conn].channel.faults.active(),
        e.wires[job.conn].framing == job.framing,
        free_until(e.clock, arrival(e.clock.now, e.wires[job.conn])),
        job.timeout_ms.positive() ==> arrival(e.clock.now, e.wires[job.conn]) <= window_end(
            e.clock.now,
            job.timeout_ms,
        ),
        !job.one_way,
        call_is_read(job, host),
    ensures
        ({
            let sent = carried(e.dispatched_call(job), host);
            let there = at_server(e, job, call_frame(job, host));
            &&& sent.results == e.results
            &&& carried(sent.stepped(), host) == carried(there.served(job.conn, Some(as_request(job))), host)
        }),
{
    lemma_goes_out(e, job, host);
    lemma_at_server(e, job, call_frame(job, host));
    let sent = e.issued(job, call_frame(job, host));
    assert(sent.wires.dom().contains(job.conn) && sent.wires[job.conn].framing == job.framing) by {
        assert(advanced(sent).wires == sent.wires);
    }
    lemma_comes_in(sent, job, host);
}

/// The way of an answer to the client.
proof fn lemma_answers(
    e: EngineView,
    conn: Seq<char>,
    id: u64,
    outcome: OutcomeView,
    host: spec_fn(WorkView) -> Reply,
)
    requires
        e.wires.dom().contains(conn),
        !e.wires[conn].channel.faults.active(),
        free_until(e.clock, arrival(e.clock.now, e.wires[conn])),
        comes_back(e.wires[conn].codec, outcome),
        answer_is_read(
            e.wires[conn].framing,
            conn,
            id,
            enveloped(outcome, e.wires[conn].codec)->0,
            host,
        ),
    ensures
        ({
            let envelope = enveloped(outcome, e.wires[conn].codec)->0;
            let frame = answer_frame(e.wires[conn].framing, conn, id, envelope, host);
            let back = carried(e.replied(conn, id, outcome), host);
            carried(back.stepped(), host) == carried(
                delivered(e, conn, Direction::Response, frame).settled(id, answered_with(outcome)),
                host,
            )
        }),
{
    let envelope = enveloped(outcome, e.wires[conn].codec)->0;
    let frame = answer_frame(e.wires[conn].framing, conn, id, envelope, host);
    lemma_goes_back(e, conn, id, outcome, host);
    lemma_delivered(e, conn, Direction::Response, frame);
    let back = e.emitted(conn, Direction::Response, frame);
    assert(back.wires[conn].codec == e.wires[conn].codec && back.wires[conn].framing == e.wires[conn].framing);
    lemma_comes_back(back, conn, id, envelope, host);
}

/// From the request at the server to the answer at the client: what is queued stays
/// there, and what the server waits for passes.
#[verifier::spinoff_prover]
#[verifier::rlimit(40)]
proof fn lemma_served_and_answered(
    p: EngineView,
    conn: Seq<char>,
    function: FnView,
    request: RequestView,
    params: Json,
    host: spec_fn(WorkView) -> Reply,
)
    requires
        p.wires.dom().contains(conn),
        !p.wires[conn].channel.faults.active(),
        resolved(p.wires[conn].proto, request.call) == Some(function),
        p.wires[conn].behaviors.dom().contains(function.name),
        comes_through(p.wires[conn].codec, params),
        request.params == p.wires[conn].codec.encoded(params)->0,
        answer_from(step_for(p.wires[conn], function, params), conn, request.request_id, host) matches Some(outcome)
            && comes_back(
            p.wires[conn].codec,
            outcome,
        ) && answer_is_read(
            p.wires[conn].framing,
            conn,
            request.request_id,
            enveloped(outcome, p.wires[conn].codec)->0,
            host,
        ),
        free_until(
            p.clock,
            arrival(answer_at(p.clock.now, step_for(p.wires[conn], function, params)), p.wires[conn]),
        ),
    ensures
        ({
            let step = step_for(p.wires[conn], function, params);
            let outcome = answer_from(step, conn, request.request_id, host)->0;
            let envelope = enveloped(outcome, p.wires[conn].codec)->0;
            let frame = answer_frame(p.wires[conn].framing, conn, request.request_id, envelope, host);
            let ready = ready_to_reply(p, conn, function, params);
            stepped_on(carried(p.served(conn, Some(request)), host), host, (events_of(step) - 1) as nat) == carried(
                delivered(ready, conn, Direction::Response, frame).settled(
                    request.request_id,
                    answered_with(outcome),
                ),
                host,
            )
        }),
{
    let wire = p.wires[conn];
    let step = step_for(wire, function, params);
    let id = request.request_id;
    let outcome = answer_from(step, conn, id, host)->0;
    lemma_asked(wire, function, request.call, params);
    let ran = asked(p, conn, function, params);
    let ready = ready_to_reply(p, conn, function, params);
    assert(ready.wires[conn].codec == wire.codec && ready.wires[conn].framing == wire.framing);
    lemma_answers(ready, conn, id, outcome, host);
    reveal_with_fuel(stepped_on, 3);
    match step {
        StepView::Now(_) => {
            assert(ready =~= ran);
            assert(p.served(conn, Some(request)) == ran.replied(conn, id, outcome));
        },
        StepView::After { delay_ms, .. } => {
            let delay = delay_ms.micros() as i64;
            let event = EventView::CompleteReply { conn, request_id: id, outcome };
            let waiting = EngineView { clock: ran.clock.scheduled(delay, event), ..ran };
            assert(p.served(conn, Some(request)) == (Turn { engine: waiting, work: None }));
            lemma_goes_first(ran.clock, delay, event);
            assert(advanced(waiting) =~= ready);
            reveal(EngineView::applied);
            assert(waiting.stepped() == ready.replied(conn, id, outcome));
        },
        StepView::Script { source, params, oneway } => {
            let work = WorkView::RunScript { conn, request_id: id, source, params, oneway };
            assert(ready =~= ran);
            assert(p.served(conn, Some(request)) == (Turn { engine: ran, work: Some(work) }));
            assert(carried(p.served(conn, Some(request)), host) == carried(ran.answered(work, host(work)), host));
            assert(ran.answered(work, host(work)) == ran.replied(conn, id, outcome));
        },
        _ => {},
    }
}

/// The server when it gives its answer.
spec fn ready_to_reply(p: EngineView, conn: Seq<char>, function: FnView, params: Json) -> EngineView {
    let step = step_for(p.wires[conn], function, params);
    let ran = asked(p, conn, function, params);
    EngineView {
        clock: Schedule {
            now: answer_at(p.clock.now, step),
            seq: if step is After {
                next_number(p.clock.seq)
            } else {
                p.clock.seq
            },
            queue: p.clock.queue,
        },
        ..ran
    }
}

/// The call of `function` on `conn`, as it goes out.
pub open spec fn job_of(e: EngineView, conn: Seq<char>, function: FnView, params: Json) -> OutgoingView {
    e.outgoing(conn, function.name, params)->Ok_0
}

/// The channel of a clean wire after a request was made at one instant, and answered
/// at another: both frames are on the tap.
pub open spec fn exchanged(wire: WireView, asked: Seq<u8>, now: i64, answered: Seq<u8>, later: i64) -> ChannelView {
    wire.channel.recorded(Direction::Request, asked, Some(millis_of(now as int)), None).recorded(
        Direction::Response,
        answered,
        Some(millis_of(later as int)),
        None,
    )
}

/// Whether `done` is `e` after a call of `function` that was settled with `outcome`
/// at `end`: the result is on record, the books and the queue are otherwise as they
/// were, so that the window of the call is gone, and of the wires one has exchanged
/// the two frames.
pub open spec fn round_tripped(
    done: EngineView,
    e: EngineView,
    conn: Seq<char>,
    function: FnView,
    params: Json,
    outcome: OutcomeView,
    host: spec_fn(WorkView) -> Reply,
) -> bool {
    let id = next_number(e.next_request_id);
    let wire = e.wires[conn];
    let step = step_for(wire, function, params);
    let replied_at = answer_at(arrival(e.clock.now, wire), step);
    let asked = call_frame(job_of(e, conn, function, params), host);
    let answered = answer_frame(wire.framing, conn, id, enveloped(outcome, wire.codec)->0, host);
    &&& done.results == e.results.insert(id, answered_with(outcome))
    &&& done.next_request_id == id
    &&& done.in_flight == e.in_flight
    &&& done.timeouts == e.timeouts
    &&& done.forwards == e.forwards
    &&& done.forwarding == e.forwarding
    &&& done.clock.queue == e.clock.queue
    &&& done.clock.now == home_at(e.clock.now, wire, step)
    &&& done.wires == e.wires.insert(
        conn,
        WireView {
            behaviors: behaviors_for(wire, function, params),
            channel: exchanged(wire, asked, e.clock.now, answered, replied_at),
            ..wire
        },
    )
    &&& done.wires[conn].channel.tap.frames.len() == wire.channel.tap.frames.len() + 2
}

/// Whether the frames of a call and of its answer are read as what they were made of.
pub open spec fn both_are_read(
    e: EngineView,
    conn: Seq<char>,
    function: FnView,
    params: Json,
    outcome: OutcomeView,
    host: spec_fn(WorkView) -> Reply,
) -> bool {
    let wire = e.wires[conn];
    &&& call_is_read(job_of(e, conn, function, params), host)
    &&& answer_is_read(
        wire.framing,
        conn,
        next_number(e.next_request_id),
        enveloped(outcome, wire.codec)->0,
        host,
    )
}

/// Whether a call of `function` on `conn` finds a server that answers it with
/// `outcome` in time, over frames that are read as what they were made of.
pub open spec fn will_answer(
    e: EngineView,
    conn: Seq<char>,
    function: FnView,
    params: Json,
    outcome: OutcomeView,
    host: spec_fn(WorkView) -> Reply,
) -> bool {
    let wire = e.wires[conn];
    let step = step_for(wire, function, params);
    &&& can_ask(e, conn, function, params)
    &&& answer_from(step, conn, next_number(e.next_request_id), host) == Some(outcome)
    &&& comes_back(wire.codec, outcome)
    &&& in_time(e, wire, home_at(e.clock.now, wire, step))
    &&& both_are_read(e, conn, function, params, outcome, host)
}

/// What goes out of a call.
proof fn lemma_job(e: EngineView, conn: Seq<char>, function: FnView, params: Json)
    requires
        can_ask(e, conn, function, params),
    ensures
        ({
            let wire = e.wires[conn];
            let job = job_of(e, conn, function, params);
            &&& e.outgoing(conn, function.name, params) is Ok
            &&& e.prepared(conn, function.name) == e.numbered()
            &&& job.conn == conn
            &&& job.call_name == function.name
            &&& job.request_id == next_number(e.next_request_id)
            &&& job.body == wire.codec.encoded(params)->0
            &&& job.framing == wire.framing
            &&& !job.one_way
            &&& job.timeout_ms == wire.timeout_ms
            &&& job.cont is None
            &&& resolved(wire.proto, address(job)) == Some(function)
        }),
{
}

/// The call arrives at the server, with the engine as it was but for the call.
#[verifier::spinoff_prover]
#[verifier::rlimit(40)]
proof fn lemma_call_arrives(
    e: EngineView,
    conn: Seq<char>,
    function: FnView,
    params: Json,
    end: i64,
    host: spec_fn(WorkView) -> Reply,
)
    requires
        can_ask(e, conn, function, params),
        in_time(e, e.wires[conn], end),
        arrival(e.clock.now, e.wires[conn]) <= end,
        call_is_read(job_of(e, conn, function, params), host),
    ensures
        ({
            let wire = e.wires[conn];
            let job = job_of(e, conn, function, params);
            let frame = call_frame(job, host);
            let p = at_server(e.numbered(), job, frame);
            let sent = carried(e.called(conn, function.name, params), host);
            &&& sent.results == e.results
            &&& carried(sent.stepped(), host) == carried(p.served(conn, Some(as_request(job))), host)
            &&& as_request(job).request_id == next_number(e.next_request_id)
            &&& as_request(job).params == wire.codec.encoded(params)->0
            &&& resolved(wire.proto, address(job)) == Some(function)
            &&& p.wires == e.wires.insert(
                conn,
                WireView {
                    channel: wire.channel.recorded(Direction::Request, frame, e.clock.millis(), None),
                    ..wire
                },
            )
            &&& p.clock.now == arrival(e.clock.now, wire)
            &&& free_until(p.clock, end)
            &&& handles_given(p.clock)
        }),
{
    let wire = e.wires[conn];
    let job = job_of(e, conn, function, params);
    let ready = e.numbered();
    lemma_job(e, conn, function, params);
    assert(e.called(conn, function.name, params) == ready.dispatched_call(job));
    assert(free_until(ready.clock, arrival(e.clock.now, wire)));
    lemma_asks(ready, job, host);
    lemma_windowed(ready.clock, job, end);
    law_clean_wire_passes_through(wire.channel, Direction::Request, call_frame(job, host), e.clock.millis(), e.rng);
}

/// The answer is at hand at the client: the settlement takes the window of the call
/// with it.
#[verifier::spinoff_prover]
#[verifier::rlimit(40)]
proof fn lemma_home(
    e: EngineView,
    conn: Seq<char>,
    function: FnView,
    params: Json,
    outcome: OutcomeView,
    host: spec_fn(WorkView) -> Reply,
)
    requires
        can_ask(e, conn, function, params),
        handles_left(e.clock),
    ensures
        ({
            let id = next_number(e.next_request_id);
            let wire = e.wires[conn];
            let job = job_of(e, conn, function, params);
            let p = at_server(e.numbered(), job, call_frame(job, host));
            let answer = answer_frame(wire.framing, conn, id, enveloped(outcome, wire.codec)->0, host);
            let home = delivered(ready_to_reply(p, conn, function, params), conn, Direction::Response, answer);
            let turn = home.settled(id, answered_with(outcome));
            &&& turn.work is None
            &&& round_tripped(turn.engine, e, conn, function, params, outcome, host)
        }),
{
    let id = next_number(e.next_request_id);
    let wire = e.wires[conn];
    let job = job_of(e, conn, function, params);
    let ask = call_frame(job, host);
    let answer = answer_frame(wire.framing, conn, id, enveloped(outcome, wire.codec)->0, host);
    let p = at_server(e.numbered(), job, ask);
    let replying = ready_to_reply(p, conn, function, params);
    let home = delivered(replying, conn, Direction::Response, answer);
    law_clean_wire_passes_through(wire.channel, Direction::Request, ask, e.clock.millis(), e.rng);
    law_clean_wire_passes_through(
        replying.wires[conn].channel,
        Direction::Response,
        answer,
        replying.clock.millis(),
        replying.rng,
    );
    if wire.timeout_ms.positive() {
        lemma_window_cancelled(e.numbered().clock, job, home.clock);
    }
    let done = home.settled(id, answered_with(outcome)).engine;
    assert(done.in_flight =~= e.in_flight);
    assert(done.timeouts =~= e.timeouts);
    assert(done.wires =~= e.wires.insert(
        conn,
        WireView {
            behaviors: behaviors_for(wire, function, params),
            channel: exchanged(wire, ask, e.clock.now, answer, replying.clock.now),
            ..wire
        },
    ));
}

/// A call round-trips over any framing and codec, with whatever timeout ends after
/// the answer is back: a few events later it is settled with what the server's
/// behaviour answers, be it a value or an error, at once, after a while or by a script.
#[verifier::spinoff_prover]
#[verifier::rlimit(40)]
pub proof fn law_a_call_round_trips(
    e: EngineView,
    conn: Seq<char>,
    function: FnView,
    params: Json,
    outcome: OutcomeView,
    host: spec_fn(WorkView) -> Reply,
)
    requires
        will_answer(e, conn, function, params, outcome, host),
    ensures
        ({
            let sent = carried(e.called(conn, function.name, params), host);
            let done = stepped_on(sent, host, events_of(step_for(e.wires[conn], function, params)));
            &&& sent.results == e.results
            &&& round_tripped(done, e, conn, function, params, outcome, host)
        }),
{
    let wire = e.wires[conn];
    let step = step_for(wire, function, params);
    let job = job_of(e, conn, function, params);
    let p = at_server(e.numbered(), job, call_frame(job, host));
    let sent = carried(e.called(conn, function.name, params), host);
    lemma_call_arrives(e, conn, function, params, home_at(e.clock.now, wire, step), host);
    lemma_on_the_way(e.clock.now, wire, step);
    lemma_served_and_answered(p, conn, function, as_request(job), params, host);
    lemma_home(e, conn, function, params, outcome, host);
    let n = events_of(step);
    assert(stepped_on(sent, host, n) == stepped_on(carried(sent.stepped(), host), host, (n - 1) as nat));
}

/// Whether the frames of a call over JSON-RPC and of its answer are made of a name
/// that needs no escape and of texts of values, and are frames that the engine reads.
pub open spec fn goes_as_text(
    e: EngineView,
    conn: Seq<char>,
    function: FnView,
    params: Json,
    outcome: OutcomeView,
) -> bool {
    let id = next_number(e.next_request_id);
    let body = e.wires[conn].codec.encoded(params)->0;
    let envelope = enveloped(outcome, e.wires[conn].codec)->0;
    &&& needs_no_escape(function.name)
    &&& value_text(body)
    &&& simple_value(body_of(envelope))
    &&& reads_request(request_frame(function.name, id, body))
    &&& reads_response(jsonrpc_response(id, envelope))
}

/// A call over JSON-RPC round-trips: the engine makes and reads the frames itself. That
/// the bodies are texts is what [`Codec::encode`] promises of plain values, and that the frames are
/// read as what they were made of is what [`Engine::step`] promises of those that it
/// brings.
///
/// [`Engine::step`]: crate::engine::Engine::step
pub proof fn law_a_call_round_trips_over_jsonrpc(
    e: EngineView,
    conn: Seq<char>,
    function: FnView,
    params: Json,
    outcome: OutcomeView,
    host: spec_fn(WorkView) -> Reply,
)
    requires
        can_ask(e, conn, function, params),
        e.wires[conn].framing == WireFraming::Jsonrpc,
        answer_from(
            step_for(e.wires[conn], function, params),
            conn,
            next_number(e.next_request_id),
            host,
        ) == Some(outcome),
        comes_back(e.wires[conn].codec, outcome),
        in_time(
            e,
            e.wires[conn],
            home_at(e.clock.now, e.wires[conn], step_for(e.wires[conn], function, params)),
        ),
        goes_as_text(e, conn, function, params, outcome),
    ensures
        ({
            let called = e.called(conn, function.name, params);
            let done = stepped_on(called.engine, host, events_of(step_for(e.wires[conn], function, params)));
            &&& called.work is None
            &&& called.engine.results == e.results
            &&& round_tripped(done, e, conn, function, params, outcome, host)
        }),
{
    let job = job_of(e, conn, function, params);
    let envelope = enveloped(outcome, e.wires[conn].codec)->0;
    lemma_job(e, conn, function, params);
    law_a_jsonrpc_call_is_read(job, host);
    law_a_jsonrpc_answer_is_read(conn, next_number(e.next_request_id), envelope, host);
    law_a_call_round_trips(e, conn, function, params, outcome, host);
}

/// The transports agree: one call, on two engines whose wires differ in whatever way,
/// in their framings, their codecs, their latencies or their timeouts, comes to one
/// result, where the servers answer alike.
pub proof fn law_transports_agree(
    a: EngineView,
    b: EngineView,
    conn: Seq<char>,
    function: FnView,
    params: Json,
    outcome: OutcomeView,
    a_host: spec_fn(WorkView) -> Reply,
    b_host: spec_fn(WorkView) -> Reply,
)
    requires
        will_answer(a, conn, function, params, outcome, a_host),
        will_answer(b, conn, function, params, outcome, b_host),
    ensures
        ({
            let a_sent = carried(a.called(conn, function.name, params), a_host);
            let b_sent = carried(b.called(conn, function.name, params), b_host);
            let a_done = stepped_on(a_sent, a_host, events_of(step_for(a.wires[conn], function, params)));
            let b_done = stepped_on(b_sent, b_host, events_of(step_for(b.wires[conn], function, params)));
            let a_id = next_number(a.next_request_id);
            let b_id = next_number(b.next_request_id);
            &&& a_done.results == a.results.insert(a_id, answered_with(outcome))
            &&& b_done.results == b.results.insert(b_id, answered_with(outcome))
            &&& a_done.results[a_id] == b_done.results[b_id]
        }),
{
    law_a_call_round_trips(a, conn, function, params, outcome, a_host);
    law_a_call_round_trips(b, conn, function, params, outcome, b_host);
}

/// On an engine at rest, an answer that comes at once is in time, where the window of
/// the call is longer than two latencies.
pub proof fn law_an_answer_at_once_is_in_time(e: EngineView, wire: WireView, step: StepView)
    requires
        e.clock.queue.len() == 0,
        step !is After,
        wire.timeout_ms.positive() ==> {
            &&& 2 * wire.channel.latency_ms.micros() < wire.timeout_ms.micros()
            &&& e.clock.now + wire.timeout_ms.micros() <= i64::MAX
        },
    ensures
        in_time(e, wire, home_at(e.clock.now, wire, step)),
{
    wire.timeout_ms.lemma_micros();
    wire.channel.latency_ms.lemma_micros();
}

// ── fresh sessions ──────────────────────────────────────────────────────

proof fn lemma_every_function_has_a_behaviour(functions: Seq<FnView>, server: InstanceView, schema: SchemaView, i: int)
    requires
        0 <= i < functions.len(),
    ensures
        wire_behaviors(functions, server, schema).dom().contains(functions[i].name),
    decreases functions.len(),
{
    if i < functions.len() - 1 {
        lemma_every_function_has_a_behaviour(functions.drop_last(), server, schema, i);
    }
}

/// A connection without faults between two ends of one schema opens clean, with the
/// latency and the timeout of the session, and a behaviour for every function.
pub proof fn law_a_fresh_wire_is_clean(s: SessionView, c: ConnectionView, g: GreetingView, rng: u32)
    requires
        s.can_open(c),
        !c.faults.active(),
        s.instance(c.client_id)->0.ir_hash == s.instance(c.server_id)->0.ir_hash,
        opened(s, c, g, rng).0.framing == WireFraming::Datagram || c.wire_format == Codec::Json,
    ensures
        ({
            let wire = opened(s, c, g, rng).0;
            &&& clean(wire)
            &&& wire.channel.latency_ms == s.latency_ms.above_zero()
            &&& wire.timeout_ms == s.call_timeout_ms.above_zero()
            &&& forall|i: int|
                0 <= i < wire.proto.functions.len() ==> wire.behaviors.dom().contains(
                    (#[trigger] wire.proto.functions[i]).name,
                )
        }),
{
    let client = s.instance(c.client_id)->0;
    let server = s.instance(c.server_id)->0;
    let (schema, proto) = s.shape.protocol(server.schema_ns, server.protocol)->0;
    let start = ChannelView {
        latency_ms: s.latency_ms.above_zero(),
        faults: c.faults,
        ..ChannelView::fresh(client.name, server.name)
    };
    let hello = start.sent(Direction::Request, g.client, Some(0), rng);
    law_clean_wire_passes_through(start, Direction::Request, g.client, Some(0), rng);
    law_clean_wire_passes_through(hello.channel, Direction::Response, g.server, Some(0), hello.rng);
    assert forall|i: int| 0 <= i < proto.functions.len() implies wire_behaviors(
        proto.functions,
        server,
        schema,
    ).dom().contains((#[trigger] proto.functions[i]).name) by {
        lemma_every_function_has_a_behaviour(proto.functions, server, schema, i);
    }
}

/// The latency and the timeout of a session that says nothing of them: none, and three
/// seconds.
pub proof fn law_the_default_timeout(shape: ProjectView)
    ensures
        ({
            let s = SessionView::empty(shape);
            &&& s.latency_ms.micros() == 0
            &&& s.call_timeout_ms.positive()
            &&& s.call_timeout_ms.micros() == 3_000_000
        }),
{
    let zero = Double { bits: 0 };
    let timeout = Double { bits: DEFAULT_CALL_TIMEOUT_BITS };
    lemma2_to64();
    lemma2_to64_rest();
    lemma_pow2_pos(1033);
    lemma_pow2_pos(1074);
    lemma_pow2_adds(41, 1033);
    assert(zero.significand() == 0);
    assert(0nat * pow2(0) == 0);
    assert(timeout.power() == 1033);
    assert(timeout.significand() == 3000 * pow2(41));
    lemma_mul_is_associative(3000, pow2(41) as int, pow2(1033) as int);
    assert(timeout.scaled() == 3000 * pow2(1074));
    law_whole_milliseconds(3000);
}

/// The first connection of an id is the one that is open under it.
proof fn lemma_opens(s: SessionView, greetings: Seq<GreetingView>, i: int, n: int, rng: u32)
    requires
        0 <= i < n <= s.connections.len(),
        s.leads(i),
    ensures
        ({
            let wires = opened_all(s, greetings, n, Map::empty(), rng).0;
            let c = s.connections[i];
            &&& wires.dom().contains(c.id)
            &&& exists|state: u32| wires[c.id] == (#[trigger] opened(s, c, greetings[i], state)).0
        }),
    decreases n,
{
    let c = s.connections[i];
    let (before, state) = opened_all(s, greetings, n - 1, Map::empty(), rng);
    if i < n - 1 {
        lemma_opens(s, greetings, i, n - 1, rng);
    } else {
        lemma_not_open_yet(s, greetings, i, n - 1, rng);
        assert(opened_all(s, greetings, n, Map::empty(), rng).0[c.id] == opened(s, c, greetings[i], state).0);
    }
}

proof fn lemma_not_open_yet(s: SessionView, greetings: Seq<GreetingView>, i: int, n: int, rng: u32)
    requires
        0 <= n <= i < s.connections.len(),
        s.leads(i),
    ensures
        !opened_all(s, greetings, n, Map::empty(), rng).0.dom().contains(s.connections[i].id),
    decreases n,
{
    if n > 0 {
        lemma_not_open_yet(s, greetings, i, n - 1, rng);
        assert(s.connections[n - 1].id != s.connections[i].id);
    }
}

/// Whether the connection at `i` is one without faults between two ends of one schema,
/// in a framing that its codec suits, and stands first under its id.
pub open spec fn well_connected(s: SessionView, i: int) -> bool {
    let c = s.connections[i];
    let server = s.instance(c.server_id)->0;
    let (_, proto) = s.shape.protocol(server.schema_ns, server.protocol)->0;
    &&& 0 <= i < s.connections.len()
    &&& s.leads(i)
    &&& s.can_open(c)
    &&& !c.faults.active()
    &&& s.instance(c.client_id)->0.ir_hash == server.ir_hash
    &&& chosen_framing(c.framing, proto.framing) == WireFraming::Datagram || c.wire_format == Codec::Json
}

/// A session with the default latency and timeout, wired for the first time, is ready
/// for a call: it goes out, and an answer that comes at once is in time.
pub proof fn law_a_default_session_is_ready(
    s: SessionView,
    greetings: Seq<GreetingView>,
    i: int,
    function: FnView,
    params: Json,
)
    requires
        s.latency_ms == SessionView::empty(s.shape).latency_ms,
        s.call_timeout_ms == SessionView::empty(s.shape).call_timeout_ms,
        well_connected(s, i),
        ({
            let c = s.connections[i];
            let server = s.instance(c.server_id)->0;
            let (_, proto) = s.shape.protocol(server.schema_ns, server.protocol)->0;
            &&& proto.function(function.name) == Some(function)
            &&& function.index < proto.functions.len()
            &&& function.index <= u16::MAX
            &&& proto.functions[function.index as int] == function
            &&& !function.oneway
            &&& comes_through(c.wire_format, params)
        }),
    ensures
        ({
            let e = EngineView::fresh().synced(s, greetings);
            let conn = s.connections[i].id;
            let step = step_for(e.wires[conn], function, params);
            &&& can_ask(e, conn, function, params)
            &&& step !is After ==> in_time(e, e.wires[conn], home_at(e.clock.now, e.wires[conn], step))
        }),
{
    let e = EngineView::fresh().synced(s, greetings);
    let c = s.connections[i];
    let wire = e.wires[c.id];
    let n = s.connections.len() as int;
    assert(EngineView::fresh().wires.restrict(s.connection_ids().to_set()) =~= Map::empty());
    lemma_opens(s, greetings, i, n, EngineView::fresh().rng);
    let state = choose|state: u32| wire == (#[trigger] opened(s, c, greetings[i], state)).0;
    law_a_fresh_wire_is_clean(s, c, greetings[i], state);
    law_the_default_timeout(s.shape);
    let step = step_for(wire, function, params);
    if step !is After {
        assert(wire.channel.latency_ms.micros() == 0);
        law_an_answer_at_once_is_in_time(e, wire, step);
    }
}

// ── no answer ───────────────────────────────────────────────────────────

/// Whether `done` is `e` after a call on `conn` that timed out: the result says so,
/// the wire is dead, the time is that of the end of its window, and the books and
/// the queue are otherwise as they were.
pub open spec fn timed_out_at(done: EngineView, e: EngineView, conn: Seq<char>) -> bool {
    let wire = e.wires[conn];
    &&& done.results == e.results.insert(next_number(e.next_request_id), ResultView::Timeout)
    &&& done.wires.dom() == e.wires.dom()
    &&& done.wires[conn].dead
    &&& done.in_flight == e.in_flight
    &&& done.timeouts == e.timeouts
    &&& done.forwards == e.forwards
    &&& done.forwarding == e.forwarding
    &&& done.clock.queue == e.clock.queue
    &&& done.clock.now == window_end(e.clock.now, wire.timeout_ms)
}

/// The end of a window that is the first event to come, of a call that is in flight.
proof fn lemma_window_ends(e: EngineView, p: EngineView, conn: Seq<char>, id: u64, handle: u64, due: i64)
    requires
        p.clock.queue == seq![
            Timer { due, handle, event: EventView::Timeout { conn, request_id: id } },
        ] + e.clock.queue,
        p.clock.now <= due,
        p.in_flight == e.in_flight.insert(id),
        p.timeouts == e.timeouts.insert(id, handle),
        p.forwards == e.forwards,
        p.wires.dom() == e.wires.dom(),
        e.wires.dom().contains(conn),
        fresh(e, id),
    ensures
        ({
            let turn = p.stepped();
            let done = turn.engine;
            &&& turn.work is None
            &&& done.results == p.results.insert(id, ResultView::Timeout)
            &&& done.wires.dom() == e.wires.dom()
            &&& done.wires[conn].dead
            &&& done.in_flight == e.in_flight
            &&& done.timeouts == e.timeouts
            &&& done.forwards == e.forwards
            &&& done.forwarding == p.forwarding
            &&& done.clock.queue == e.clock.queue
            &&& done.clock.now == due
        }),
{
    assert(p.clock.queue.drop_first() =~= e.clock.queue);
    reveal(EngineView::applied);
    let popped = advanced(p);
    let done = p.stepped().engine;
    assert(p.stepped() == popped.timed_out(conn, id));
    assert(done.wires.dom() =~= e.wires.dom());
    assert(done.in_flight =~= e.in_flight);
    assert(done.timeouts =~= e.timeouts);
}

/// A call that the server never answers times out: it arrives, and then its window
/// ends. So does every later call on that wire, at once, until the wire is opened
/// anew.
#[verifier::spinoff_prover]
#[verifier::rlimit(40)]
pub proof fn law_a_call_without_an_answer_times_out(
    e: EngineView,
    conn: Seq<char>,
    function: FnView,
    params: Json,
    host: spec_fn(WorkView) -> Reply,
)
    requires
        can_ask(e, conn, function, params),
        step_for(e.wires[conn], function, params) is Hang,
        e.wires[conn].timeout_ms.positive(),
        arrival(e.clock.now, e.wires[conn]) < window_end(e.clock.now, e.wires[conn].timeout_ms),
        free_until(e.clock, window_end(e.clock.now, e.wires[conn].timeout_ms)),
        handles_left(e.clock),
        call_is_read(job_of(e, conn, function, params), host),
    ensures
        timed_out_at(stepped_on(carried(e.called(conn, function.name, params), host), host, 2), e, conn),
{
    let wire = e.wires[conn];
    let job = job_of(e, conn, function, params);
    let there = arrival(e.clock.now, wire);
    let p = at_server(e.numbered(), job, call_frame(job, host));
    let sent = carried(e.called(conn, function.name, params), host);
    assert(in_time(e, wire, there));
    lemma_job(e, conn, function, params);
    lemma_call_arrives(e, conn, function, params, there, host);
    lemma_asked(p.wires[conn], function, address(job), params);
    let ran = asked(p, conn, function, params);
    assert(p.served(conn, Some(as_request(job))) == (Turn { engine: ran, work: None }));
    assert(carried(sent.stepped(), host) == ran);
    assert(ran.wires.dom() =~= e.wires.dom());
    let due = window_end(e.clock.now, wire.timeout_ms);
    lemma_slot(e.clock.queue, due);
    assert(slot(e.clock.queue, due) == 0);
    assert(ran.clock.queue =~= seq![ran.clock.queue[0]] + e.clock.queue);
    lemma_window_ends(e, ran, conn, job.request_id, window_handle(e.clock), due);
    reveal_with_fuel(stepped_on, 3);
    assert(carried(ran.stepped(), host) == ran.stepped().engine);
}

/// A call that is put on a wire that drops it: the end of its window is the next event.
proof fn lemma_lost(e: EngineView, job: OutgoingView, frame: Seq<u8>)
    requires
        e.wires.dom().contains(job.conn),
        e.wires[job.conn].channel.sent(Direction::Request, frame, e.clock.millis(), e.rng).fate is Dropped,
        !job.one_way,
        job.cont is None,
        job.timeout_ms.positive(),
        free_until(e.clock, window_end(e.clock.now, job.timeout_ms)),
    ensures
        ({
            let due = window_end(e.clock.now, job.timeout_ms);
            let event = EventView::Timeout { conn: job.conn, request_id: job.request_id };
            let sent = e.issued(job, frame);
            &&& sent.clock.queue == seq![Timer { due, handle: next_number(e.clock.seq), event }] + e.clock.queue
            &&& sent.clock.now == e.clock.now
            &&& sent.in_flight == e.in_flight.insert(job.request_id)
            &&& sent.timeouts == e.timeouts.insert(job.request_id, next_number(e.clock.seq))
            &&& sent.forwards == e.forwards
            &&& sent.forwarding == e.forwarding
            &&& sent.results == e.results
            &&& sent.wires.dom() == e.wires.dom()
        }),
{
    let event = EventView::Timeout { conn: job.conn, request_id: job.request_id };
    lemma_goes_first(e.clock, job.timeout_ms.micros() as i64, event);
    assert(e.issued(job, frame).wires.dom() =~= e.wires.dom());
}

/// A call whose request is lost on the way times out: nothing happens before its
/// window ends.
#[verifier::spinoff_prover]
#[verifier::rlimit(40)]
pub proof fn law_a_lost_call_times_out(
    e: EngineView,
    conn: Seq<char>,
    fn_name: Seq<char>,
    params: Json,
    host: spec_fn(WorkView) -> Reply,
)
    requires
        e.outgoing(conn, fn_name, params) is Ok,
        fresh(e, next_number(e.next_request_id)),
        !e.wires[conn].proto.function(fn_name)->0.oneway,
        e.wires[conn].timeout_ms.positive(),
        free_until(e.clock, window_end(e.clock.now, e.wires[conn].timeout_ms)),
        ({
            let job = e.outgoing(conn, fn_name, params)->Ok_0;
            let frame = call_frame(job, host);
            &&& e.wires[conn].channel.sent(Direction::Request, frame, e.clock.millis(), e.rng).fate is Dropped
            &&& job.framing == WireFraming::Datagram ==> host(WorkView::FrameRequest(job)) == Reply::Frame(Some(frame))
        }),
    ensures
        timed_out_at(stepped_on(carried(e.called(conn, fn_name, params), host), host, 1), e, conn),
{
    let wire = e.wires[conn];
    let job = e.outgoing(conn, fn_name, params)->Ok_0;
    let frame = call_frame(job, host);
    let ready = e.numbered();
    assert(e.called(conn, fn_name, params) == ready.dispatched_call(job));
    reveal_with_fuel(carried, 3);
    let sent = carried(e.called(conn, fn_name, params), host);
    assert(sent == ready.issued(job, frame));
    lemma_lost(ready, job, frame);
    let due = window_end(e.clock.now, wire.timeout_ms);
    lemma_window_ends(e, sent, conn, job.request_id, next_number(e.clock.seq), due);
    reveal_with_fuel(stepped_on, 2);
    assert(carried(sent.stepped(), host) == sent.stepped().engine);
}

// ── forwarding ──────────────────────────────────────────────────────────

/// The inner call of one on `conn` that is forwarded to `target` on `via`.
pub open spec fn inner_job(
    e: EngineView,
    conn: Seq<char>,
    via: Seq<char>,
    target: FnView,
    params: Json,
) -> OutgoingView {
    OutgoingView {
        cont: Some(
            ContView {
                outer_conn: conn,
                outer_request_id: next_number(e.next_request_id),
                via,
                target_fn: target.name,
            },
        ),
        ..job_of(e.numbered(), via, target, params)
    }
}

/// The instant at which the answer to a forwarded call is back.
pub open spec fn relayed_at(now: i64, outer: WireView, inner: WireView, step: StepView) -> i64 {
    arrival(home_at(arrival(now, outer), inner, step), outer)
}

/// Whether a call of `function` on `conn` is forwarded to `target` on `via`, where a
/// server answers it with `outcome`, in time for both calls, and all four frames are
/// read as what they were made of.
pub open spec fn will_relay(
    e: EngineView,
    conn: Seq<char>,
    function: FnView,
    via: Seq<char>,
    target: FnView,
    params: Json,
    outcome: OutcomeView,
    host: spec_fn(WorkView) -> Reply,
) -> bool {
    let outer = e.wires[conn];
    let inner = e.wires[via];
    let step = step_for(inner, target, params);
    let there = arrival(e.clock.now, outer);
    &&& can_ask(e, conn, function, params)
    &&& step_for(outer, function, params) == (StepView::Forward { via, target_fn: target.name, params })
    &&& can_ask(e.numbered(), via, target, params)
    &&& !e.forwarding.contains(via)
    &&& answer_from(step, via, next_number(next_number(e.next_request_id)), host) == Some(outcome)
    &&& comes_back(inner.codec, outcome)
    &&& comes_back(outer.codec, outcome)
    &&& in_time(e, outer, relayed_at(e.clock.now, outer, inner, step))
    &&& inner.timeout_ms.positive() ==> home_at(there, inner, step) < window_end(there, inner.timeout_ms)
    &&& e.next_request_id + 2 <= u64::MAX
    &&& e.clock.seq + 2 < u64::MAX
    &&& both_are_read(e, conn, function, params, outcome, host)
    &&& call_is_read(inner_job(e, conn, via, target, params), host)
    &&& answer_is_read(
        inner.framing,
        via,
        next_number(next_number(e.next_request_id)),
        enveloped(outcome, inner.codec)->0,
        host,
    )
}

/// Whether two wires differ in what was sent over them alone.
spec fn alike(a: WireView, b: WireView) -> bool {
    &&& a == (WireView { channel: a.channel, ..b })
    &&& a.channel.faults == b.channel.faults
    &&& a.channel.latency_ms == b.channel.latency_ms
}

/// What a forward comes to on a clean wire: the inner call goes out.
proof fn lemma_forwards(
    e: EngineView,
    p: EngineView,
    conn: Seq<char>,
    via: Seq<char>,
    target: FnView,
    params: Json,
)
    requires
        can_ask(e.numbered(), via, target, params),
        p.next_request_id == next_number(e.next_request_id),
        p.wires.dom().contains(via),
        alike(p.wires[via], e.wires[via]),
        !p.forwarding.contains(via),
    ensures
        ({
            let id = next_number(e.next_request_id);
            let marked = EngineView { forwarding: p.forwarding.insert(via), ..p }.numbered();
            p.forwarded(
                ContView { outer_conn: conn, outer_request_id: id, via, target_fn: target.name },
                params,
            ) == marked.dispatched_call(inner_job(e, conn, via, target, params))
        }),
{
    let cont = ContView {
        outer_conn: conn,
        outer_request_id: next_number(e.next_request_id),
        via,
        target_fn: target.name,
    };
    lemma_job(e.numbered(), via, target, params);
    reveal(EngineView::forwarded);
    let held = EngineView { forwarding: p.forwarding.insert(via), ..p };
    assert(p.forward_refusal(via) is None);
    assert(held.call_refusal(via, target.name) is None);
    let found = held.outgoing(via, target.name, params);
    assert(found is Ok);
    assert(OutgoingView { cont: Some(cont), ..found->Ok_0 } =~= inner_job(e, conn, via, target, params));
}

/// A step that forwards leaves the behaviours as they are.
proof fn lemma_served_forwards(
    p: EngineView,
    conn: Seq<char>,
    function: FnView,
    request: RequestView,
    params: Json,
    via: Seq<char>,
    target_fn: Seq<char>,
)
    requires
        p.wires.dom().contains(conn),
        resolved(p.wires[conn].proto, request.call) == Some(function),
        p.wires[conn].behaviors.dom().contains(function.name),
        comes_through(p.wires[conn].codec, params),
        request.params == p.wires[conn].codec.encoded(params)->0,
        step_for(p.wires[conn], function, params) == (StepView::Forward { via, target_fn, params }),
    ensures
        p.served(conn, Some(request)) == p.forwarded(
            ContView { outer_conn: conn, outer_request_id: request.request_id, via, target_fn },
            params,
        ),
{
    lemma_asked(p.wires[conn], function, request.call, params);
    let ran = asked(p, conn, function, params);
    assert(behaviors_for(p.wires[conn], function, params) =~= p.wires[conn].behaviors);
    assert(ran.wires =~= p.wires);
    assert(ran =~= p);
}

/// The outer call is at its server, which asks for the inner one.
#[verifier::spinoff_prover]
#[verifier::rlimit(40)]
proof fn lemma_relays(
    e: EngineView,
    conn: Seq<char>,
    function: FnView,
    via: Seq<char>,
    target: FnView,
    params: Json,
    outcome: OutcomeView,
    host: spec_fn(WorkView) -> Reply,
)
    requires
        will_relay(e, conn, function, via, target, params, outcome, host),
    ensures
        ({
            let job = job_of(e, conn, function, params);
            let p = at_server(e.numbered(), job, call_frame(job, host));
            let marked = EngineView { forwarding: p.forwarding.insert(via), ..p }.numbered();
            let sent = carried(e.called(conn, function.name, params), host);
            &&& sent.results == e.results
            &&& carried(sent.stepped(), host) == carried(
                marked.dispatched_call(inner_job(e, conn, via, target, params)),
                host,
            )
            &&& p.wires.dom() == e.wires.dom()
            &&& alike(p.wires[conn], e.wires[conn])
            &&& alike(p.wires[via], e.wires[via])
            &&& p.clock.now == arrival(e.clock.now, e.wires[conn])
            &&& free_until(
                p.clock,
                relayed_at(e.clock.now, e.wires[conn], e.wires[via], step_for(e.wires[via], target, params)),
            )
            &&& handles_left(p.clock)
        }),
{
    let outer = e.wires[conn];
    let inner = e.wires[via];
    let step = step_for(inner, target, params);
    let end = relayed_at(e.clock.now, outer, inner, step);
    let job = job_of(e, conn, function, params);
    let p = at_server(e.numbered(), job, call_frame(job, host));
    lemma_on_the_way(arrival(e.clock.now, outer), inner, step);
    lemma_call_arrives(e, conn, function, params, end, host);
    assert(p.wires.dom() =~= e.wires.dom());
    assert(alike(p.wires[conn], outer));
    assert(step_for(p.wires[conn], function, params) == step_for(outer, function, params));
    lemma_served_forwards(p, conn, function, as_request(job), params, via, target.name);
    lemma_forwards(e, p, conn, via, target, params);
}

proof fn lemma_stepped_on(e: EngineView, host: spec_fn(WorkView) -> Reply, n: nat, m: nat)
    ensures
        stepped_on(e, host, n + m) == stepped_on(stepped_on(e, host, n), host, m),
    decreases n,
{
    if n > 0 {
        lemma_stepped_on(carried(e.stepped(), host), host, (n - 1) as nat, m);
        assert((n - 1) as nat + m == (n + m - 1) as nat);
    }
}

/// The engine when the inner call goes out.
spec fn relaying(e: EngineView, conn: Seq<char>, function: FnView, via: Seq<char>, params: Json, host: spec_fn(
    WorkView,
) -> Reply) -> EngineView {
    let job = job_of(e, conn, function, params);
    let p = at_server(e.numbered(), job, call_frame(job, host));
    EngineView { forwarding: p.forwarding.insert(via), ..p }.numbered()
}

/// The engine when the answer to the inner call is at hand at the gateway.
spec fn inner_home(
    e: EngineView,
    conn: Seq<char>,
    function: FnView,
    via: Seq<char>,
    target: FnView,
    params: Json,
    outcome: OutcomeView,
    host: spec_fn(WorkView) -> Reply,
) -> EngineView {
    let inner = e.wires[via];
    let job = inner_job(e, conn, via, target, params);
    let p = at_server(relaying(e, conn, function, via, params, host), job, call_frame(job, host));
    let answer = answer_frame(inner.framing, via, job.request_id, enveloped(outcome, inner.codec)->0, host);
    delivered(ready_to_reply(p, via, target, params), via, Direction::Response, answer)
}

/// The inner call is made and answered.
#[verifier::spinoff_prover]
#[verifier::rlimit(40)]
proof fn lemma_inner_trip(
    e: EngineView,
    conn: Seq<char>,
    function: FnView,
    via: Seq<char>,
    target: FnView,
    params: Json,
    outcome: OutcomeView,
    host: spec_fn(WorkView) -> Reply,
)
    requires
        will_relay(e, conn, function, via, target, params, outcome, host),
    ensures
        ({
            let m = relaying(e, conn, function, via, params, host);
            let job = inner_job(e, conn, via, target, params);
            let sent = carried(m.dispatched_call(job), host);
            let home = inner_home(e, conn, function, via, target, params, outcome, host);
            stepped_on(sent, host, events_of(step_for(e.wires[via], target, params))) == carried(
                home.settled(job.request_id, answered_with(outcome)),
                host,
            )
        }),
{
    let inner = e.wires[via];
    let step = step_for(inner, target, params);
    let m = relaying(e, conn, function, via, params, host);
    let job = inner_job(e, conn, via, target, params);
    let end = home_at(m.clock.now, inner, step);
    lemma_relays(e, conn, function, via, target, params, outcome, host);
    lemma_job(e.numbered(), via, target, params);
    lemma_on_the_way(m.clock.now, inner, step);
    assert(end <= relayed_at(e.clock.now, e.wires[conn], inner, step));
    assert(free_until(m.clock, end));
    lemma_asks(m, job, host);
    lemma_windowed(m.clock, job, end);
    let p = at_server(m, job, call_frame(job, host));
    lemma_delivered_wire(m, via, Direction::Request, call_frame(job, host));
    assert(alike(p.wires[via], inner));
    assert(free_until(p.clock, end));
    lemma_served_and_answered(p, via, target, as_request(job), params, host);
    let sent = carried(m.dispatched_call(job), host);
    let n = events_of(step);
    assert(stepped_on(sent, host, n) == stepped_on(carried(sent.stepped(), host), host, (n - 1) as nat));
}

/// The engine when the gateway answers the outer call.
#[verifier::opaque]
spec fn relay_answers(
    e: EngineView,
    conn: Seq<char>,
    function: FnView,
    via: Seq<char>,
    target: FnView,
    params: Json,
    outcome: OutcomeView,
    host: spec_fn(WorkView) -> Reply,
) -> EngineView {
    let id = inner_job(e, conn, via, target, params).request_id;
    let landed = inner_home(e, conn, function, via, target, params, outcome, host).landed(id);
    EngineView { forwards: landed.forwards.remove(id), forwarding: landed.forwarding.remove(via), ..landed }
}

/// The settlement of the inner call answers the outer one, with the engine as it was
/// before the inner call.
#[verifier::spinoff_prover]
#[verifier::rlimit(40)]
proof fn lemma_inner_settled(
    e: EngineView,
    conn: Seq<char>,
    function: FnView,
    via: Seq<char>,
    target: FnView,
    params: Json,
    outcome: OutcomeView,
    host: spec_fn(WorkView) -> Reply,
)
    requires
        will_relay(e, conn, function, via, target, params, outcome, host),
    ensures
        ({
            let job = job_of(e, conn, function, params);
            let p = at_server(e.numbered(), job, call_frame(job, host));
            let id = inner_job(e, conn, via, target, params).request_id;
            let home = inner_home(e, conn, function, via, target, params, outcome, host);
            let q = relay_answers(e, conn, function, via, target, params, outcome, host);
            &&& home.settled(id, answered_with(outcome)) == q.replied(
                conn,
                next_number(e.next_request_id),
                outcome,
            )
            &&& q.clock.queue == p.clock.queue
            &&& q.clock.now == home_at(
                p.clock.now,
                e.wires[via],
                step_for(e.wires[via], target, params),
            )
            &&& q.in_flight == p.in_flight
            &&& q.timeouts == p.timeouts
            &&& q.forwards == e.forwards
            &&& q.forwarding == e.forwarding
            &&& q.results == e.results
            &&& q.next_request_id == id
        }),
{
    reveal(relay_answers);
    let inner = e.wires[via];
    let outer_job = job_of(e, conn, function, params);
    let p = at_server(e.numbered(), outer_job, call_frame(outer_job, host));
    let m = relaying(e, conn, function, via, params, host);
    let job = inner_job(e, conn, via, target, params);
    let home = inner_home(e, conn, function, via, target, params, outcome, host);
    let q = relay_answers(e, conn, function, via, target, params, outcome, host);
    lemma_relays(e, conn, function, via, target, params, outcome, host);
    lemma_job(e, conn, function, params);
    lemma_job(e.numbered(), via, target, params);
    let there = at_server(m, job, call_frame(job, host));
    lemma_delivered_wire(m, via, Direction::Request, call_frame(job, host));
    assert(alike(there.wires[via], inner));
    assert(home.forwards[job.request_id] == job.cont->0);
    if inner.timeout_ms.positive() {
        lemma_window_cancelled(m.clock, job, home.clock);
    }
    assert(q.in_flight =~= p.in_flight);
    assert(q.timeouts =~= p.timeouts);
    assert(q.forwards =~= e.forwards);
    assert(q.forwarding =~= e.forwarding);
    assert(relayed(answered_with(outcome)) == outcome);
}

/// What the inner call leaves of the wires.
#[verifier::spinoff_prover]
#[verifier::rlimit(40)]
proof fn lemma_relay_wires(
    e: EngineView,
    conn: Seq<char>,
    function: FnView,
    via: Seq<char>,
    target: FnView,
    params: Json,
    outcome: OutcomeView,
    host: spec_fn(WorkView) -> Reply,
)
    requires
        will_relay(e, conn, function, via, target, params, outcome, host),
    ensures
        ({
            let q = relay_answers(e, conn, function, via, target, params, outcome, host);
            let outer = e.wires[conn];
            let inner = e.wires[via];
            let step = step_for(inner, target, params);
            let ask = call_frame(job_of(e, conn, function, params), host);
            let job = inner_job(e, conn, via, target, params);
            let answer = answer_frame(inner.framing, via, job.request_id, enveloped(outcome, inner.codec)->0, host);
            let there = arrival(e.clock.now, outer);
            &&& q.wires.dom() == e.wires.dom()
            &&& q.wires[conn].codec == outer.codec
            &&& q.wires[conn].framing == outer.framing
            &&& q.wires[conn].channel.faults == outer.channel.faults
            &&& q.wires[conn].channel.latency_ms == outer.channel.latency_ms
            &&& conn != via ==> q.wires == e.wires.insert(
                conn,
                WireView {
                    channel: outer.channel.recorded(Direction::Request, ask, e.clock.millis(), None),
                    ..outer
                },
            ).insert(
                via,
                WireView {
                    behaviors: behaviors_for(inner, target, params),
                    channel: exchanged(
                        inner,
                        call_frame(job, host),
                        there,
                        answer,
                        answer_at(arrival(there, inner), step),
                    ),
                    ..inner
                },
            )
        }),
{
    reveal(relay_answers);
    let outer = e.wires[conn];
    let inner = e.wires[via];
    let m = relaying(e, conn, function, via, params, host);
    let q = relay_answers(e, conn, function, via, target, params, outcome, host);
    let ask = call_frame(job_of(e, conn, function, params), host);
    let job = inner_job(e, conn, via, target, params);
    let answer = answer_frame(inner.framing, via, job.request_id, enveloped(outcome, inner.codec)->0, host);
    lemma_job(e, conn, function, params);
    lemma_job(e.numbered(), via, target, params);
    law_clean_wire_passes_through(outer.channel, Direction::Request, ask, e.clock.millis(), e.rng);
    let line = m.wires[via].channel;
    assert(alike(m.wires[via], inner));
    law_clean_wire_passes_through(line, Direction::Request, call_frame(job, host), m.clock.millis(), m.rng);
    let there = at_server(m, job, call_frame(job, host));
    assert(alike(there.wires[via], inner));
    let replying = ready_to_reply(there, via, target, params);
    law_clean_wire_passes_through(
        replying.wires[via].channel,
        Direction::Response,
        answer,
        replying.clock.millis(),
        replying.rng,
    );
    assert(q.wires.dom() =~= e.wires.dom());
    if conn != via {
        assert(q.wires =~= e.wires.insert(
            conn,
            WireView { channel: outer.channel.recorded(Direction::Request, ask, e.clock.millis(), None), ..outer },
        ).insert(
            via,
            WireView {
                behaviors: behaviors_for(inner, target, params),
                channel: exchanged(inner, call_frame(job, host), m.clock.now, answer, replying.clock.now),
                ..inner
            },
        ));
    }
}

/// A forwarded call round-trips: over a clean wire to a gateway, from there over a
/// clean wire to a server that answers, and back. The outer call is settled with what
/// the inner one comes to. Nothing of the inner call stays on the books, no forward is
/// under way, and both timeout windows are gone.
#[verifier::spinoff_prover]
#[verifier::rlimit(40)]
pub proof fn law_a_forwarded_call_round_trips(
    e: EngineView,
    conn: Seq<char>,
    function: FnView,
    via: Seq<char>,
    target: FnView,
    params: Json,
    outcome: OutcomeView,
    host: spec_fn(WorkView) -> Reply,
)
    requires
        will_relay(e, conn, function, via, target, params, outcome, host),
    ensures
        ({
            let id = next_number(e.next_request_id);
            let outer = e.wires[conn];
            let inner = e.wires[via];
            let step = step_for(inner, target, params);
            let sent = carried(e.called(conn, function.name, params), host);
            let done = stepped_on(sent, host, events_of(step) + 2);
            &&& sent.results == e.results
            &&& done.results == e.results.insert(id, answered_with(outcome))
            &&& relayed(answered_with(outcome)) == outcome
            &&& done.next_request_id == next_number(id)
            &&& done.in_flight == e.in_flight
            &&& done.timeouts == e.timeouts
            &&& done.forwards == e.forwards
            &&& done.forwarding == e.forwarding
            &&& done.clock.queue == e.clock.queue
            &&& done.clock.now == relayed_at(e.clock.now, outer, inner, step)
            &&& done.wires.dom() == e.wires.dom()
            &&& conn != via ==> {
                &&& done.wires[conn].channel.tap.frames.len() == outer.channel.tap.frames.len() + 2
                &&& done.wires[via].channel.tap.frames.len() == inner.channel.tap.frames.len() + 2
            }
        }),
{
    let outer = e.wires[conn];
    let inner = e.wires[via];
    let q = relay_answers(e, conn, function, via, target, params, outcome, host);
    lemma_relay_course(e, conn, function, via, target, params, outcome, host);
    lemma_inner_settled(e, conn, function, via, target, params, outcome, host);
    lemma_relay_wires(e, conn, function, via, target, params, outcome, host);
    lemma_arrived_at(e, conn, function, params, host);
    lemma_outer_settled(e, conn, function, params, outcome, q, host);
}

proof fn lemma_arrived_at(
    e: EngineView,
    conn: Seq<char>,
    function: FnView,
    params: Json,
    host: spec_fn(WorkView) -> Reply,
)
    requires
        can_ask(e, conn, function, params),
    ensures
        ({
            let job = job_of(e, conn, function, params);
            at_server(e.numbered(), job, call_frame(job, host)).clock.now == arrival(e.clock.now, e.wires[conn])
        }),
{
    lemma_job(e, conn, function, params);
}

/// The course of a forwarded call, up to the settlement of it.
#[verifier::spinoff_prover]
#[verifier::rlimit(40)]
proof fn lemma_relay_course(
    e: EngineView,
    conn: Seq<char>,
    function: FnView,
    via: Seq<char>,
    target: FnView,
    params: Json,
    outcome: OutcomeView,
    host: spec_fn(WorkView) -> Reply,
)
    requires
        will_relay(e, conn, function, via, target, params, outcome, host),
    ensures
        ({
            let id = next_number(e.next_request_id);
            let sent = carried(e.called(conn, function.name, params), host);
            let q = relay_answers(e, conn, function, via, target, params, outcome, host);
            let envelope = enveloped(outcome, q.wires[conn].codec)->0;
            let frame = answer_frame(q.wires[conn].framing, conn, id, envelope, host);
            &&& sent.results == e.results
            &&& stepped_on(sent, host, events_of(step_for(e.wires[via], target, params)) + 2) == carried(
                delivered(q, conn, Direction::Response, frame).settled(id, answered_with(outcome)),
                host,
            )
        }),
{
    let id = next_number(e.next_request_id);
    let n = events_of(step_for(e.wires[via], target, params));
    let sent = carried(e.called(conn, function.name, params), host);
    let q = relay_answers(e, conn, function, via, target, params, outcome, host);
    let between = carried(sent.stepped(), host);
    let back = carried(q.replied(conn, id, outcome), host);
    assert(stepped_on(between, host, n) == back && sent.results == e.results) by {
        lemma_relays(e, conn, function, via, target, params, outcome, host);
        lemma_inner_trip(e, conn, function, via, target, params, outcome, host);
        lemma_inner_settled(e, conn, function, via, target, params, outcome, host);
    }
    assert(carried(back.stepped(), host) == carried(
        delivered(
            q,
            conn,
            Direction::Response,
            answer_frame(q.wires[conn].framing, conn, id, enveloped(outcome, q.wires[conn].codec)->0, host),
        ).settled(id, answered_with(outcome)),
        host,
    )) by {
        lemma_relays(e, conn, function, via, target, params, outcome, host);
        lemma_inner_settled(e, conn, function, via, target, params, outcome, host);
        lemma_relay_wires(e, conn, function, via, target, params, outcome, host);
        assert(free_until(q.clock, arrival(q.clock.now, q.wires[conn])));
        lemma_answers(q, conn, id, outcome, host);
    }
    lemma_stepped_on(between, host, n, 1);
    assert(stepped_on(sent, host, n + 2) == carried(back.stepped(), host)) by {
        assert((n + 2 - 1) as nat == n + 1);
        reveal_with_fuel(stepped_on, 2);
    }
}

/// The answer to the outer call is at hand at the client.
#[verifier::spinoff_prover]
#[verifier::rlimit(40)]
proof fn lemma_outer_settled(
    e: EngineView,
    conn: Seq<char>,
    function: FnView,
    params: Json,
    outcome: OutcomeView,
    q: EngineView,
    host: spec_fn(WorkView) -> Reply,
)
    requires
        can_ask(e, conn, function, params),
        handles_left(e.clock),
        ({
            let job = job_of(e, conn, function, params);
            let p = at_server(e.numbered(), job, call_frame(job, host));
            &&& q.clock.queue == p.clock.queue
            &&& q.in_flight == p.in_flight
            &&& q.timeouts == p.timeouts
            &&& q.forwards == e.forwards
            &&& q.wires.dom() == e.wires.dom()
            &&& !q.wires[conn].channel.faults.active()
        }),
    ensures
        ({
            let id = next_number(e.next_request_id);
            let answer = answer_frame(
                q.wires[conn].framing,
                conn,
                id,
                enveloped(outcome, q.wires[conn].codec)->0,
                host,
            );
            let home = delivered(q, conn, Direction::Response, answer);
            let turn = home.settled(id, answered_with(outcome));
            let done = turn.engine;
            &&& turn.work is None
            &&& done.results == q.results.insert(id, answered_with(outcome))
            &&& done.next_request_id == q.next_request_id
            &&& done.in_flight == e.in_flight
            &&& done.timeouts == e.timeouts
            &&& done.forwards == e.forwards
            &&& done.forwarding == q.forwarding
            &&& done.clock.queue == e.clock.queue
            &&& done.clock.now == arrival(q.clock.now, q.wires[conn])
            &&& done.wires == home.wires
            &&& done.wires.dom() == e.wires.dom()
            &&& forall|other: Seq<char>| other != conn ==> #[trigger] done.wires[other] == q.wires[other]
            &&& done.wires[conn].channel.tap.frames.len() == q.wires[conn].channel.tap.frames.len() + 1
        }),
{
    let id = next_number(e.next_request_id);
    let job = job_of(e, conn, function, params);
    let answer = answer_frame(q.wires[conn].framing, conn, id, enveloped(outcome, q.wires[conn].codec)->0, host);
    let home = delivered(q, conn, Direction::Response, answer);
    lemma_job(e, conn, function, params);
    lemma_delivered_wire(q, conn, Direction::Response, answer);
    if job.timeout_ms.positive() {
        lemma_window_cancelled(e.numbered().clock, job, home.clock);
    }
    let done = home.settled(id, answered_with(outcome)).engine;
    assert(done.in_flight =~= e.in_flight);
    assert(done.timeouts =~= e.timeouts);
    assert(done.wires.dom() =~= e.wires.dom());
}

} // verus!

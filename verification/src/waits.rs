//! That no call under a timeout waits for ever: over every run the end of its window
//! stays queued until the call is settled, and settles it where nothing else did.

use vstd::prelude::*;
use crate::behavior::{scripted, OutcomeView, StepView};
use crate::clock::{
    instant_after, law_firing_keeps_order, law_scheduling_keeps_order, lemma_slot, next_number, slot, Schedule, Timer,
};
use crate::contract::{EnvelopeView, RequestView};
use crate::dict::lemma_filtered;
use crate::engine::{
    deliveries, delivery, engine_failure, enveloped, jsonrpc_response, relayed, result_of, ContView, EngineView,
    EventView, OutgoingView, ResultView, Turn, WireView, WorkView,
};
use crate::faults::Direction;
use crate::framing::{request_frame, request_of_frame, response_of_frame};
use crate::generic::{behaviors_after, dispatched};
use crate::json::Json;
use crate::laws;
use crate::laws::{law_a_frame_touches_its_wire_alone, law_time_moves_with_events, lemma_settled_books};
use crate::runs::{
    carried, closes, fired, law_the_work_comes_to_an_end, rank, timeout_of, window, Act, Reply, Run,
};
use crate::wire::{delay_micros, Fate, REORDER_FLUSH};

verus! {

// ── handles ─────────────────────────────────────────────────────────────

/// Whether the queue is in order, and no two events are queued under one handle.
pub open spec fn numbered(clock: Schedule<EventView>) -> bool {
    &&& clock.ordered()
    &&& forall|k: int, l: int|
        0 <= k < l < clock.queue.len() ==> (#[trigger] clock.queue[k]).handle != (#[trigger] clock.queue[l]).handle
}

/// Whether `later` holds what `clock` holds, and events that were scheduled since.
spec fn grown(clock: Schedule<EventView>, later: Schedule<EventView>) -> bool {
    &&& clock.seq <= later.seq
    &&& numbered(clock) && later.seq < u64::MAX ==> {
        &&& numbered(later)
        &&& forall|k: int| 0 <= k < clock.queue.len() ==> later.queue.contains(#[trigger] clock.queue[k])
        &&& forall|k: int|
            0 <= k < later.queue.len() && (#[trigger] later.queue[k]).handle <= clock.seq ==> clock.queue.contains(
                later.queue[k],
            )
    }
}

proof fn lemma_grown_follows(a: Schedule<EventView>, b: Schedule<EventView>, c: Schedule<EventView>)
    requires
        grown(a, b),
        grown(b, c),
    ensures
        grown(a, c),
{
    if numbered(a) && c.seq < u64::MAX {
        assert forall|k: int| 0 <= k < a.queue.len() implies c.queue.contains(#[trigger] a.queue[k]) by {
            let j = b.queue.index_of(a.queue[k]);
            assert(c.queue.contains(b.queue[j]));
        }
        assert forall|k: int| 0 <= k < c.queue.len() && (#[trigger] c.queue[k]).handle <= a.seq implies a.queue.contains(
            c.queue[k],
        ) by {
            let j = b.queue.index_of(c.queue[k]);
            assert(a.queue.contains(b.queue[j]));
        }
    }
}

proof fn lemma_scheduled(clock: Schedule<EventView>, delay: i64, event: EventView)
    ensures
        grown(clock, clock.scheduled(delay, event)),
        clock.scheduled(delay, event).queue.contains(
            Timer { due: instant_after(clock.now, delay), handle: next_number(clock.seq), event },
        ),
{
    let due = instant_after(clock.now, delay);
    let at = slot(clock.queue, due);
    lemma_slot(clock.queue, due);
    let later = clock.scheduled(delay, event);
    let queue = later.queue;
    assert(queue[at] == (Timer { due, handle: next_number(clock.seq), event }));
    if numbered(clock) && later.seq < u64::MAX {
        law_scheduling_keeps_order(clock, delay, event);
        assert forall|k: int| 0 <= k < clock.queue.len() implies queue.contains(#[trigger] clock.queue[k]) by {
            let j = if k < at {
                k
            } else {
                k + 1
            };
            assert(queue[j] == clock.queue[k]);
        }
        assert forall|k: int| 0 <= k < queue.len() && k != at implies clock.queue.contains(#[trigger] queue[k])
            && queue[k].handle <= clock.seq by {
            let j = if k < at {
                k
            } else {
                k - 1
            };
            assert(queue[k] == clock.queue[j]);
        }
        assert forall|k: int, l: int| 0 <= k < l < queue.len() implies (#[trigger] queue[k]).handle
            != (#[trigger] queue[l]).handle by {
            let i = if k < at {
                k
            } else {
                k - 1
            };
            let j = if l < at {
                l
            } else {
                l - 1
            };
            if k != at {
                assert(queue[k] == clock.queue[i]);
            }
            if l != at {
                assert(queue[l] == clock.queue[j]);
            }
        }
    }
}

proof fn lemma_deliveries(
    clock: Schedule<EventView>,
    delay: i64,
    conn: Seq<char>,
    dir: Direction,
    frames: Seq<Seq<u8>>,
)
    ensures
        grown(clock, deliveries(clock, delay, conn, dir, frames)),
    decreases frames.len(),
{
    if frames.len() > 0 {
        let short = deliveries(clock, delay, conn, dir, frames.drop_last());
        lemma_deliveries(clock, delay, conn, dir, frames.drop_last());
        lemma_scheduled(short, delay, delivery(conn, dir, frames.last()));
        lemma_grown_follows(clock, short, deliveries(clock, delay, conn, dir, frames));
    } else {
        lemma_same(clock);
    }
}

proof fn lemma_same(clock: Schedule<EventView>)
    ensures
        grown(clock, clock),
{
}

// ── windows ─────────────────────────────────────────────────────────────

/// Whether the end of the timeout window of the call `id` is queued under `handle`.
pub open spec fn queued(queue: Seq<Timer<EventView>>, handle: u64, id: u64) -> bool {
    exists|k: int|
        0 <= k < queue.len() && (#[trigger] queue[k]).handle == handle && timeout_of(queue[k].event) == Some(id)
}

/// Whether the end of each window on record is queued, for a call that is in flight.
pub open spec fn awaited(e: EngineView) -> bool {
    &&& numbered(e.clock)
    &&& forall|id: u64| #[trigger]
        e.timeouts.dom().contains(id) ==> e.in_flight.contains(id) && queued(e.clock.queue, e.timeouts[id], id)
}

/// Whether `after` keeps what `e` has of this, and holds of what was queued under a
/// handle given by then nothing but what `e` holds.
spec fn steady(e: EngineView, after: EngineView) -> bool {
    &&& e.clock.seq <= after.clock.seq
    &&& awaited(e) && after.clock.seq < u64::MAX ==> {
        &&& awaited(after)
        &&& forall|k: int|
            0 <= k < after.clock.queue.len() && (#[trigger] after.clock.queue[k]).handle <= e.clock.seq
                ==> e.clock.queue.contains(after.clock.queue[k])
    }
}

proof fn lemma_steady_follows(a: EngineView, b: EngineView, c: EngineView)
    requires
        steady(a, b),
        steady(b, c),
    ensures
        steady(a, c),
{
    if awaited(a) && c.clock.seq < u64::MAX {
        assert forall|k: int|
            0 <= k < c.clock.queue.len() && (#[trigger] c.clock.queue[k]).handle <= a.clock.seq implies a.clock.queue.contains(
            c.clock.queue[k],
        ) by {
            let j = b.clock.queue.index_of(c.clock.queue[k]);
            assert(a.clock.queue.contains(b.clock.queue[j]));
        }
    }
}

/// What schedules events, and has the same calls in flight under the same windows.
proof fn lemma_added(e: EngineView, after: EngineView)
    requires
        grown(e.clock, after.clock),
        after.timeouts == e.timeouts,
        after.in_flight == e.in_flight,
    ensures
        steady(e, after),
{
    if awaited(e) && after.clock.seq < u64::MAX {
        assert forall|id: u64| #[trigger] after.timeouts.dom().contains(id) implies queued(
            after.clock.queue,
            after.timeouts[id],
            id,
        ) by {
            lemma_still_queued(e.clock, after.clock, e.timeouts[id], id);
        }
    }
}

proof fn lemma_still_queued(clock: Schedule<EventView>, later: Schedule<EventView>, handle: u64, id: u64)
    requires
        forall|k: int| 0 <= k < clock.queue.len() ==> later.queue.contains(#[trigger] clock.queue[k]),
        queued(clock.queue, handle, id),
    ensures
        queued(later.queue, handle, id),
{
    let k = choose|k: int|
        0 <= k < clock.queue.len() && (#[trigger] clock.queue[k]).handle == handle && timeout_of(clock.queue[k].event)
            == Some(id);
    assert(later.queue.contains(clock.queue[k]));
    let j = later.queue.index_of(clock.queue[k]);
    assert(later.queue[j].handle == handle);
}

proof fn lemma_emitted(e: EngineView, conn: Seq<char>, dir: Direction, frame: Seq<u8>)
    ensures
        grown(e.clock, e.emitted(conn, dir, frame).clock),
        e.emitted(conn, dir, frame).timeouts == e.timeouts,
        e.emitted(conn, dir, frame).in_flight == e.in_flight,
        steady(e, e.emitted(conn, dir, frame)),
{
    lemma_same(e.clock);
    if e.wires.dom().contains(conn) {
        match e.wires[conn].channel.sent(dir, frame, e.clock.millis(), e.rng).fate {
            Fate::Dropped => {},
            Fate::Deliver { frames, delay } => lemma_deliveries(e.clock, delay_micros(delay), conn, dir, frames),
            Fate::Buffered { schedule_flush } => if schedule_flush {
                lemma_scheduled(e.clock, REORDER_FLUSH, EventView::FlushReorder { conn, dir });
            },
        }
    }
    lemma_added(e, e.emitted(conn, dir, frame));
}

proof fn lemma_replied(e: EngineView, conn: Seq<char>, id: u64, outcome: OutcomeView)
    ensures
        steady(e, e.replied(conn, id, outcome).engine),
{
    lemma_same(e.clock);
    lemma_added(e, e);
    if e.wires.dom().contains(conn) {
        if let Some(envelope) = enveloped(outcome, e.wires[conn].codec) {
            lemma_emitted(e, conn, Direction::Response, jsonrpc_response(id, envelope));
        }
    }
}

// ── turns ───────────────────────────────────────────────────────────────

/// A call that goes out under a timeout waits: the end of its window is queued.
pub proof fn law_a_call_waits(e: EngineView, job: OutgoingView, frame: Seq<u8>)
    requires
        !job.one_way,
        job.timeout_ms.positive(),
    ensures
        ({
            let after = e.issued(job, frame);
            &&& after.in_flight.contains(job.request_id)
            &&& after.timeouts.dom().contains(job.request_id)
            &&& after.clock.queue.contains(
                Timer {
                    due: instant_after(e.clock.now, job.timeout_ms.micros() as i64),
                    handle: after.timeouts[job.request_id],
                    event: EventView::Timeout { conn: job.conn, request_id: job.request_id },
                },
            )
        }),
{
    let sent = e.emitted(job.conn, Direction::Request, frame);
    law_a_frame_touches_its_wire_alone(e, job.conn, Direction::Request, frame);
    lemma_scheduled(
        sent.clock,
        job.timeout_ms.micros() as i64,
        EventView::Timeout { conn: job.conn, request_id: job.request_id },
    );
}

proof fn lemma_issued(e: EngineView, job: OutgoingView, frame: Seq<u8>)
    ensures
        steady(e, e.issued(job, frame)),
{
    let sent = e.emitted(job.conn, Direction::Request, frame);
    let after = e.issued(job, frame);
    lemma_emitted(e, job.conn, Direction::Request, frame);
    if !job.one_way && job.timeout_ms.positive() {
        let id = job.request_id;
        let delay = job.timeout_ms.micros() as i64;
        let event = EventView::Timeout { conn: job.conn, request_id: id };
        let timer = Timer { due: instant_after(sent.clock.now, delay), handle: next_number(sent.clock.seq), event };
        lemma_scheduled(sent.clock, delay, event);
        lemma_grown_follows(e.clock, sent.clock, after.clock);
        if awaited(e) && after.clock.seq < u64::MAX {
            assert forall|other: u64| #[trigger] after.timeouts.dom().contains(other) implies queued(
                after.clock.queue,
                after.timeouts[other],
                other,
            ) by {
                if other == id {
                    let j = after.clock.queue.index_of(timer);
                    assert(after.clock.queue[j] == timer);
                } else {
                    assert(e.timeouts.dom().contains(other));
                    lemma_still_queued(e.clock, after.clock, e.timeouts[other], other);
                }
            }
        }
    } else if awaited(e) && after.clock.seq < u64::MAX {
        assert forall|other: u64| #[trigger] after.timeouts.dom().contains(other) implies queued(
            after.clock.queue,
            after.timeouts[other],
            other,
        ) by {
            assert(sent.timeouts.dom().contains(other));
        }
    }
}

proof fn lemma_landed(e: EngineView, id: u64)
    ensures
        steady(e, e.landed(id)),
{
    let after = e.landed(id);
    if e.timeouts.dom().contains(id) && awaited(e) {
        let queue = e.clock.queue;
        let handle = e.timeouts[id];
        let keep = |t: Timer<EventView>| t.handle != handle;
        let left = after.clock.queue;
        assert(left == queue.filter(keep));
        lemma_filtered(queue, keep);
        lemma_filter_numbered(e.clock, handle);
        assert forall|other: u64| #[trigger] after.timeouts.dom().contains(other) implies queued(
            left,
            after.timeouts[other],
            other,
        ) by {
            assert(e.timeouts.dom().contains(other));
            let k = choose|k: int|
                0 <= k < queue.len() && (#[trigger] queue[k]).handle == e.timeouts[other] && timeout_of(
                    queue[k].event,
                ) == Some(other);
            let l = choose|l: int|
                0 <= l < queue.len() && (#[trigger] queue[l]).handle == handle && timeout_of(queue[l].event) == Some(
                    id,
                );
            assert(k != l);
            assert(keep(queue[k]));
            let j = left.index_of(queue[k]);
            assert(left[j] == queue[k]);
        }
    }
}

proof fn lemma_filter_numbered(clock: Schedule<EventView>, handle: u64)
    requires
        numbered(clock),
    ensures
        numbered(clock.cancelled(handle)),
    decreases clock.queue.len(),
{
    let keep = |t: Timer<EventView>| t.handle != handle;
    lemma_filtered(clock.queue, keep);
    let left = clock.cancelled(handle).queue;
    law_firing_keeps_order(clock, handle, 0);
    reveal(Seq::filter);
    if clock.queue.len() > 0 {
        let queue = clock.queue;
        let short = Schedule { queue: queue.drop_last(), ..clock };
        assert(numbered(short)) by {
            assert forall|k: int, l: int| 0 <= k < l < short.queue.len() implies (#[trigger] short.queue[k]).handle
                != (#[trigger] short.queue[l]).handle by {
                assert(queue[k] == short.queue[k] && queue[l] == short.queue[l]);
            }
        }
        lemma_filter_numbered(short, handle);
        lemma_filtered(short.queue, keep);
        let rest = short.cancelled(handle).queue;
        assert forall|k: int, l: int| 0 <= k < l < left.len() implies (#[trigger] left[k]).handle
            != (#[trigger] left[l]).handle by {
            assert(left[k] == rest[k]);
            if l < rest.len() {
                assert(left[l] == rest[l]);
            } else {
                let i = short.queue.index_of(rest[k]);
                assert(queue[i] == left[k]);
                assert(queue[queue.len() - 1] == left[l]);
            }
        }
    }
}

proof fn lemma_settled(e: EngineView, id: u64, result: ResultView)
    ensures
        steady(e, e.settled(id, result).engine),
{
    lemma_same(e.clock);
    lemma_added(e, e);
    if e.in_flight.contains(id) {
        let landed = e.landed(id);
        lemma_landed(e, id);
        if landed.forwards.dom().contains(id) {
            let cont = landed.forwards[id];
            let freed = EngineView {
                forwards: landed.forwards.remove(id),
                forwarding: landed.forwarding.remove(cont.via),
                ..landed
            };
            lemma_replied(freed, cont.outer_conn, cont.outer_request_id, relayed(result));
            assert(steady(e, freed));
            lemma_steady_follows(e, freed, e.settled(id, result).engine);
        }
    }
}

proof fn lemma_dispatched(e: EngineView, job: OutgoingView)
    ensures
        steady(e, e.dispatched_call(job).engine),
{
    lemma_same(e.clock);
    lemma_added(e, e);
    lemma_issued(e, job, request_frame(job.call_name, job.request_id, job.body));
}

proof fn lemma_forward_failed(e: EngineView, cont: ContView)
    ensures
        steady(e, e.forward_failed(cont).engine),
{
    let freed = EngineView { forwarding: e.forwarding.remove(cont.via), ..e };
    lemma_replied(
        freed,
        cont.outer_conn,
        cont.outer_request_id,
        engine_failure("forward: "@ + cont.via + " has no "@ + cont.target_fn),
    );
}

proof fn lemma_forwarded(e: EngineView, cont: ContView, params: Json)
    ensures
        steady(e, e.forwarded(cont, params).engine),
{
    reveal(EngineView::forwarded);
    match e.forward_refusal(cont.via) {
        Some(message) => {
            lemma_replied(e, cont.outer_conn, cont.outer_request_id, engine_failure(message));
        },
        None => {
            let marked = EngineView { forwarding: e.forwarding.insert(cont.via), ..e };
            let ready = marked.prepared(cont.via, cont.target_fn);
            match marked.outgoing(cont.via, cont.target_fn, params) {
                Ok(job) => lemma_dispatched(ready, OutgoingView { cont: Some(cont), ..job }),
                Err(_) => lemma_forward_failed(ready, cont),
            }
        },
    }
}

proof fn lemma_served(e: EngineView, conn: Seq<char>, request: Option<RequestView>)
    ensures
        steady(e, e.served(conn, request).engine),
{
    lemma_same(e.clock);
    lemma_added(e, e);
    if e.wires.dom().contains(conn) && request is Some {
        let wire = e.wires[conn];
        let req = request->0;
        let ran = EngineView {
            wires: e.wires.insert(
                conn,
                WireView {
                    behaviors: behaviors_after(wire.proto, req.call, req.params, wire.codec, wire.behaviors),
                    ..wire
                },
            ),
            ..e
        };
        lemma_added(e, ran);
        match dispatched(wire.proto, req.call, req.params, wire.codec, wire.behaviors) {
            Ok(StepView::Now(outcome)) => {
                lemma_replied(ran, conn, req.request_id, outcome);
            },
            Ok(StepView::After { delay_ms, outcome }) => {
                lemma_scheduled(
                    ran.clock,
                    delay_ms.micros() as i64,
                    EventView::CompleteReply { conn, request_id: req.request_id, outcome },
                );
                lemma_added(e, e.served(conn, request).engine);
            },
            Ok(StepView::Forward { via, target_fn, params }) => {
                lemma_forwarded(
                    ran,
                    ContView { outer_conn: conn, outer_request_id: req.request_id, via, target_fn },
                    params,
                );
            },
            _ => {},
        }
        lemma_steady_follows(e, ran, e.served(conn, request).engine);
    }
}

proof fn lemma_received(e: EngineView, conn: Seq<char>, response: Option<(u64, EnvelopeView)>)
    ensures
        steady(e, e.received(conn, response).engine),
{
    lemma_same(e.clock);
    lemma_added(e, e);
    if e.wires.dom().contains(conn) && response is Some {
        let (id, envelope) = response->0;
        lemma_settled(e, id, result_of(envelope, e.wires[conn].codec));
    }
}

/// An event taken out of the queue leaves every window there, but for the one that it
/// is the end of.
proof fn lemma_fired(e: EngineView, after: EngineView)
    requires
        e.clock.queue.len() > 0,
        after.clock == e.clock.popped(),
        after.in_flight == e.in_flight,
        after.timeouts == e.timeouts || timeout_of(e.clock.queue[0].event) is Some && after.timeouts
            == e.timeouts.remove(timeout_of(e.clock.queue[0].event)->0),
        timeout_of(e.clock.queue[0].event) matches Some(id) ==> !after.timeouts.dom().contains(id),
    ensures
        steady(e, after),
{
    let queue = e.clock.queue;
    let left = after.clock.queue;
    assert(left == queue.drop_first());
    assert forall|k: int| 0 <= k < left.len() implies #[trigger] left[k] == queue[k + 1] && queue.contains(left[k]) by {
        assert(queue[k + 1] == left[k]);
    }
    if awaited(e) {
        assert(numbered(after.clock)) by {
            law_firing_keeps_order(e.clock, 0, 0);
            assert forall|k: int, l: int| 0 <= k < l < left.len() implies (#[trigger] left[k]).handle
                != (#[trigger] left[l]).handle by {
                assert(queue[k + 1].handle != queue[l + 1].handle);
            }
        }
        assert forall|id: u64| #[trigger] after.timeouts.dom().contains(id) implies after.in_flight.contains(id)
            && queued(left, after.timeouts[id], id) by {
            assert(e.timeouts.dom().contains(id));
            let k = choose|k: int|
                0 <= k < queue.len() && (#[trigger] queue[k]).handle == e.timeouts[id] && timeout_of(queue[k].event)
                    == Some(id);
            assert(k > 0);
            assert(left[k - 1] == queue[k]);
        }
    }
}

proof fn lemma_applied(e: EngineView, event: EventView)
    requires
        !(event is Timeout),
    ensures
        steady(e, e.applied(event).engine),
{
    reveal(EngineView::applied);
    lemma_same(e.clock);
    lemma_added(e, e);
    match event {
        EventView::DeliverToServer { conn, frame } => lemma_served(e, conn, request_of_frame(frame)),
        EventView::DeliverToClient { conn, frame } => lemma_received(e, conn, response_of_frame(frame)),
        EventView::FlushReorder { conn, dir } => {
            if e.wires.dom().contains(conn) {
                lemma_deliveries(e.clock, 0, conn, dir, e.wires[conn].channel.released(e.rng));
            }
            lemma_added(e, e.flushed(conn, dir));
        },
        EventView::CompleteReply { conn, request_id, outcome } => lemma_replied(e, conn, request_id, outcome),
        _ => {},
    }
}

proof fn lemma_stepped(e: EngineView)
    ensures
        steady(e, e.stepped().engine),
{
    lemma_same(e.clock);
    lemma_added(e, e);
    if e.clock.queue.len() > 0 {
        let popped = EngineView { clock: e.clock.popped(), ..e };
        match e.clock.queue[0].event {
            EventView::Timeout { conn, request_id } => {
                reveal(EngineView::applied);
                let after = e.stepped().engine;
                if e.in_flight.contains(request_id) {
                    let killed = EngineView { timeouts: e.timeouts.remove(request_id), ..popped.killed(conn) };
                    lemma_fired(e, killed);
                    lemma_settled(killed, request_id, ResultView::Timeout);
                    lemma_steady_follows(e, killed, after);
                } else if !e.timeouts.dom().contains(request_id) {
                    lemma_fired(e, popped);
                } else {
                    assert(!awaited(e));
                }
            },
            event => {
                lemma_fired(e, popped);
                lemma_applied(popped, event);
                lemma_steady_follows(e, popped, e.stepped().engine);
            },
        }
    }
}

proof fn lemma_answered(e: EngineView, work: WorkView, reply: Reply)
    ensures
        steady(e, e.answered(work, reply).engine),
{
    lemma_same(e.clock);
    lemma_added(e, e);
    match (work, reply) {
        (WorkView::FrameRequest(job), Reply::Frame(Some(frame))) => lemma_issued(e, job, frame),
        (WorkView::FrameRequest(job), Reply::Frame(None)) => {
            if let Some(cont) = job.cont {
                lemma_forward_failed(e, cont);
            }
        },
        (WorkView::FrameReply { conn, .. }, Reply::Frame(Some(frame))) => {
            lemma_emitted(e, conn, Direction::Response, frame);
        },
        (WorkView::DecodeRequest { conn, .. }, Reply::Request(request)) => lemma_served(e, conn, request),
        (WorkView::DecodeResponse { conn, .. }, Reply::Response(response)) => lemma_received(e, conn, response),
        (WorkView::RunScript { conn, request_id, oneway, .. }, Reply::Script(ran)) => {
            lemma_replied(e, conn, request_id, scripted(oneway, ran));
        },
        _ => {},
    }
}

proof fn lemma_acted(run: Run, act: Act)
    ensures
        steady(run.engine, run.acted(act).engine),
{
    reveal(Run::acted);
    let e = run.engine;
    lemma_same(e.clock);
    lemma_added(e, e);
    match act {
        Act::Call(conn, fn_name, params) => {
            let ready = e.prepared(conn, fn_name);
            if let Ok(job) = e.outgoing(conn, fn_name, params) {
                lemma_dispatched(ready, job);
            }
        },
        Act::Step => lemma_stepped(e),
        Act::Advance(until) => {
            if e.reaches(until) {
                lemma_stepped(e);
            }
        },
        Act::Settle(id, result) => lemma_settled(e, id, result),
        Act::Answer(i, reply) => {
            if 0 <= i < run.hand.len() {
                lemma_answered(e, run.hand[i], reply);
            }
        },
        _ => {},
    }
}

// ── laws ────────────────────────────────────────────────────────────────

/// An engine starts with no call waiting.
pub proof fn law_a_fresh_engine_awaits_nothing()
    ensures
        awaited(EngineView::fresh()),
{
}

/// Over every run: a call that waits under a timeout has the end of its window
/// queued; and where it still waits under the handle that it waited under before, that
/// is the same event, due at the same instant.
pub proof fn law_windows_stay_queued_over_every_run(run: Run, acts: Seq<Act>)
    requires
        awaited(run.engine),
        run.ran(acts).engine.clock.seq < u64::MAX,
    ensures
        awaited(run.ran(acts).engine),
        run.engine.clock.seq <= run.ran(acts).engine.clock.seq,
        forall|k: int|
            0 <= k < run.ran(acts).engine.clock.queue.len() && (
            #[trigger] run.ran(acts).engine.clock.queue[k]).handle <= run.engine.clock.seq
                ==> run.engine.clock.queue.contains(run.ran(acts).engine.clock.queue[k]),
    decreases acts.len(),
{
    if acts.len() > 0 {
        let short = acts.drop_last();
        let before = run.ran(short);
        lemma_acted(before, acts.last());
        law_windows_stay_queued_over_every_run(run, short);
        lemma_steady_follows(run.engine, before.engine, run.ran(acts).engine);
    }
}

/// A drained queue leaves no call waiting under a timeout.
pub proof fn law_a_drained_queue_leaves_no_call_waiting(e: EngineView)
    requires
        awaited(e),
        e.clock.queue.len() == 0,
    ensures
        e.timeouts == Map::<u64, u64>::empty(),
{
    assert(e.timeouts =~= Map::<u64, u64>::empty());
}

/// A call that nothing has settled by the end of its window times out then: the
/// result says so, its wire is dead, and the time is that instant. One that was
/// forwarded is answered with that at its outer end.
pub proof fn law_an_unanswered_call_times_out(e: EngineView, conn: Seq<char>, id: u64)
    requires
        e.clock.queue.len() > 0,
        e.clock.queue[0].event == (EventView::Timeout { conn, request_id: id }),
        e.clock.now <= e.clock.queue[0].due,
        e.in_flight.contains(id),
    ensures
        ({
            let turn = e.stepped();
            let done = turn.engine;
            &&& done.clock.now == e.clock.queue[0].due
            &&& !done.in_flight.contains(id)
            &&& !done.timeouts.dom().contains(id)
            &&& !e.forwards.dom().contains(id) ==> {
                &&& turn.work is None
                &&& done.results == e.results.insert(id, ResultView::Timeout)
                &&& e.wires.dom().contains(conn) ==> done.wires[conn].dead
            }
            &&& e.forwards.dom().contains(id) ==> {
                let cont = e.forwards[id];
                let freed = EngineView {
                    clock: e.clock.popped(),
                    in_flight: e.in_flight.remove(id),
                    timeouts: e.timeouts.remove(id),
                    forwards: e.forwards.remove(id),
                    forwarding: e.forwarding.remove(cont.via),
                    ..e.killed(conn)
                };
                turn == freed.replied(
                    cont.outer_conn,
                    cont.outer_request_id,
                    engine_failure("forward: upstream timed out"@),
                )
            }
        }),
{
    reveal(EngineView::applied);
    law_time_moves_with_events(e);
    let popped = EngineView { clock: e.clock.popped(), ..e };
    let killed = EngineView { timeouts: e.timeouts.remove(id), ..popped.killed(conn) };
    assert(e.stepped() == killed.settled(id, ResultView::Timeout));
    lemma_settled_books(killed, id, ResultView::Timeout);
    assert(killed.timeouts.remove(id) =~= killed.timeouts);
}

// ── every call under a timeout is settled ───────────────────────────────

/// Whether the call `id`, of the engine's own making, is settled, or waits under
/// `handle`.
pub open spec fn settled_or_waits(e: EngineView, id: u64, handle: u64) -> bool {
    &&& id <= e.next_request_id
    &&& !e.forwards.dom().contains(id)
    &&& e.results.dom().contains(id) || {
        &&& e.in_flight.contains(id)
        &&& e.timeouts.dom().contains(id)
        &&& e.timeouts[id] == handle
    }
}

/// Whether a turn leaves a call settled or waiting, and asks for no frame of it.
spec fn holds_on(e: EngineView, turn: Turn, id: u64, handle: u64) -> bool {
    &&& e.next_request_id <= turn.engine.next_request_id
    &&& settled_or_waits(e, id, handle) && turn.engine.next_request_id < u64::MAX ==> {
        &&& settled_or_waits(turn.engine, id, handle)
        &&& turn.work matches Some(WorkView::FrameRequest(job)) ==> job.request_id != id
    }
}

proof fn lemma_holds_issued(e: EngineView, job: OutgoingView, frame: Seq<u8>, id: u64, handle: u64)
    requires
        job.request_id != id,
    ensures
        holds_on(e, Turn { engine: e.issued(job, frame), work: None }, id, handle),
{
    law_a_frame_touches_its_wire_alone(e, job.conn, Direction::Request, frame);
}

proof fn lemma_holds_replied(e: EngineView, conn: Seq<char>, other: u64, outcome: OutcomeView, id: u64, handle: u64)
    ensures
        holds_on(e, e.replied(conn, other, outcome), id, handle),
{
    laws::lemma_replied(e, conn, other, outcome);
}

proof fn lemma_holds_settled(e: EngineView, other: u64, result: ResultView, id: u64, handle: u64)
    ensures
        holds_on(e, e.settled(other, result), id, handle),
{
    if e.in_flight.contains(other) {
        lemma_settled_books(e, other, result);
        let landed = e.landed(other);
        if landed.forwards.dom().contains(other) {
            let cont = landed.forwards[other];
            let freed = EngineView {
                forwards: landed.forwards.remove(other),
                forwarding: landed.forwarding.remove(cont.via),
                ..landed
            };
            lemma_holds_replied(freed, cont.outer_conn, cont.outer_request_id, relayed(result), id, handle);
        }
    }
}

proof fn lemma_holds_forward_failed(e: EngineView, cont: ContView, id: u64, handle: u64)
    ensures
        holds_on(e, e.forward_failed(cont), id, handle),
{
    let freed = EngineView { forwarding: e.forwarding.remove(cont.via), ..e };
    lemma_holds_replied(
        freed,
        cont.outer_conn,
        cont.outer_request_id,
        engine_failure("forward: "@ + cont.via + " has no "@ + cont.target_fn),
        id,
        handle,
    );
}

proof fn lemma_holds_forwarded(e: EngineView, cont: ContView, params: Json, id: u64, handle: u64)
    ensures
        holds_on(e, e.forwarded(cont, params), id, handle),
{
    reveal(EngineView::forwarded);
    match e.forward_refusal(cont.via) {
        Some(message) => {
            lemma_holds_replied(e, cont.outer_conn, cont.outer_request_id, engine_failure(message), id, handle);
        },
        None => {
            let marked = EngineView { forwarding: e.forwarding.insert(cont.via), ..e };
            let ready = marked.prepared(cont.via, cont.target_fn);
            match marked.outgoing(cont.via, cont.target_fn, params) {
                Ok(job) => {
                    let full = OutgoingView { cont: Some(cont), ..job };
                    let frame = request_frame(full.call_name, full.request_id, full.body);
                    law_a_frame_touches_its_wire_alone(ready, full.conn, Direction::Request, frame);
                    if full.request_id != id {
                        lemma_holds_issued(ready, full, frame, id, handle);
                    }
                },
                Err(_) => lemma_holds_forward_failed(ready, cont, id, handle),
            }
        },
    }
}

proof fn lemma_holds_served(e: EngineView, conn: Seq<char>, request: Option<RequestView>, id: u64, handle: u64)
    ensures
        holds_on(e, e.served(conn, request), id, handle),
{
    if e.wires.dom().contains(conn) && request is Some {
        let wire = e.wires[conn];
        let req = request->0;
        let ran = EngineView {
            wires: e.wires.insert(
                conn,
                WireView {
                    behaviors: behaviors_after(wire.proto, req.call, req.params, wire.codec, wire.behaviors),
                    ..wire
                },
            ),
            ..e
        };
        match dispatched(wire.proto, req.call, req.params, wire.codec, wire.behaviors) {
            Ok(StepView::Now(outcome)) => {
                lemma_holds_replied(ran, conn, req.request_id, outcome, id, handle);
            },
            Ok(StepView::Forward { via, target_fn, params }) => {
                lemma_holds_forwarded(
                    ran,
                    ContView { outer_conn: conn, outer_request_id: req.request_id, via, target_fn },
                    params,
                    id,
                    handle,
                );
            },
            _ => {},
        }
    }
}

proof fn lemma_holds_received(
    e: EngineView,
    conn: Seq<char>,
    response: Option<(u64, EnvelopeView)>,
    id: u64,
    handle: u64,
)
    ensures
        holds_on(e, e.received(conn, response), id, handle),
{
    if e.wires.dom().contains(conn) && response is Some {
        let (other, envelope) = response->0;
        lemma_holds_settled(e, other, result_of(envelope, e.wires[conn].codec), id, handle);
    }
}

proof fn lemma_holds_stepped(e: EngineView, id: u64, handle: u64)
    ensures
        holds_on(e, e.stepped(), id, handle),
{
    if e.clock.queue.len() > 0 {
        reveal(EngineView::applied);
        let popped = EngineView { clock: e.clock.popped(), ..e };
        match e.clock.queue[0].event {
            EventView::DeliverToServer { conn, frame } => {
                lemma_holds_served(popped, conn, request_of_frame(frame), id, handle);
            },
            EventView::DeliverToClient { conn, frame } => {
                lemma_holds_received(popped, conn, response_of_frame(frame), id, handle);
            },
            EventView::FlushReorder { .. } => {},
            EventView::CompleteReply { conn, request_id, outcome } => {
                lemma_holds_replied(popped, conn, request_id, outcome, id, handle);
            },
            EventView::Timeout { conn, request_id } => {
                if e.in_flight.contains(request_id) {
                    let killed = EngineView { timeouts: e.timeouts.remove(request_id), ..popped.killed(conn) };
                    lemma_settled_books(killed, request_id, ResultView::Timeout);
                    lemma_holds_settled(killed, request_id, ResultView::Timeout, id, handle);
                }
            },
        }
    }
}

proof fn lemma_holds_answered(e: EngineView, work: WorkView, reply: Reply, id: u64, handle: u64)
    requires
        work matches WorkView::FrameRequest(job) ==> job.request_id != id,
    ensures
        holds_on(e, e.answered(work, reply), id, handle),
{
    match (work, reply) {
        (WorkView::FrameRequest(job), Reply::Frame(Some(frame))) => {
            lemma_holds_issued(e, job, frame, id, handle);
        },
        (WorkView::FrameRequest(job), Reply::Frame(None)) => {
            if let Some(cont) = job.cont {
                lemma_holds_forward_failed(e, cont, id, handle);
            }
        },
        (WorkView::FrameReply { conn, .. }, Reply::Frame(Some(frame))) => {
            law_a_frame_touches_its_wire_alone(e, conn, Direction::Response, frame);
        },
        (WorkView::DecodeRequest { conn, .. }, Reply::Request(request)) => {
            lemma_holds_served(e, conn, request, id, handle);
        },
        (WorkView::DecodeResponse { conn, .. }, Reply::Response(response)) => {
            lemma_holds_received(e, conn, response, id, handle);
        },
        (WorkView::RunScript { conn, request_id, oneway, .. }, Reply::Script(ran)) => {
            lemma_holds_replied(e, conn, request_id, scripted(oneway, ran), id, handle);
        },
        _ => {},
    }
}

proof fn lemma_carried(e: EngineView, turn: Turn, host: spec_fn(WorkView) -> Reply, id: u64, handle: u64)
    requires
        holds_on(e, turn, id, handle),
        steady(e, turn.engine),
    ensures
        holds_on(e, Turn { engine: carried(turn, host), work: None }, id, handle),
        steady(e, carried(turn, host)),
    decreases rank(turn.work),
{
    if let Some(work) = turn.work {
        let next = turn.engine.answered(work, host(work));
        law_the_work_comes_to_an_end(turn.engine, work, host(work));
        lemma_answered(turn.engine, work, host(work));
        lemma_steady_follows(e, turn.engine, next.engine);
        if settled_or_waits(e, id, handle) && !(work matches WorkView::FrameRequest(job) ==> job.request_id != id) {
            // only where the ids have run out
            lemma_ids_go_up(turn.engine, work, host(work));
        } else if settled_or_waits(e, id, handle) {
            lemma_holds_answered(turn.engine, work, host(work), id, handle);
        } else {
            lemma_ids_go_up(turn.engine, work, host(work));
        }
        lemma_carried(e, next, host, id, handle);
    }
}

proof fn lemma_ids_go_up(e: EngineView, work: WorkView, reply: Reply)
    ensures
        e.next_request_id <= e.answered(work, reply).engine.next_request_id,
{
    let other: u64 = match work {
        WorkView::FrameRequest(job) => if job.request_id == 0 {
            1
        } else {
            0
        },
        _ => 0,
    };
    lemma_holds_answered(e, work, reply, other, 0);
}

proof fn lemma_fired_holds(e: EngineView, until: i64, host: spec_fn(WorkView) -> Reply, n: nat, id: u64, handle: u64)
    ensures
        holds_on(e, Turn { engine: fired(e, until, host, n), work: None }, id, handle),
        steady(e, fired(e, until, host, n)),
    decreases n,
{
    lemma_same(e.clock);
    lemma_added(e, e);
    if n > 0 && e.due_by(until) {
        let next = carried(e.stepped(), host);
        lemma_holds_stepped(e, id, handle);
        lemma_stepped(e);
        lemma_carried(e, e.stepped(), host, id, handle);
        lemma_fired_holds(next, until, host, (n - 1) as nat, id, handle);
        lemma_steady_follows(e, next, fired(e, until, host, n));
    }
}

/// Every call under a timeout is settled by the end of its window, whatever the wires
/// and the servers do, and whatever the host answers: once time has gone on to that
/// instant, its result is on record. The counters of calls and of events are not used
/// up by then.
pub proof fn law_every_call_is_settled_by_the_end_of_its_window(
    e: EngineView,
    id: u64,
    k: int,
    until: i64,
    host: spec_fn(WorkView) -> Reply,
    n: nat,
)
    requires
        awaited(e),
        settled_or_waits(e, id, e.timeouts[id]),
        e.timeouts.dom().contains(id),
        0 <= k < e.clock.queue.len(),
        e.clock.queue[k].handle == e.timeouts[id],
        e.clock.queue[k].due <= until,
        closes(e, until, host, n),
        fired(e, until, host, n).clock.seq < u64::MAX,
        fired(e, until, host, n).next_request_id < u64::MAX,
    ensures
        window(e, until, host, n).results.dom().contains(id),
{
    let handle = e.timeouts[id];
    let done = fired(e, until, host, n);
    lemma_fired_holds(e, until, host, n, id, handle);
    if !done.results.dom().contains(id) {
        assert(queued(done.clock.queue, handle, id));
        let j = choose|j: int|
            0 <= j < done.clock.queue.len() && (#[trigger] done.clock.queue[j]).handle == handle && timeout_of(
                done.clock.queue[j].event,
            ) == Some(id);
        let timer = done.clock.queue[j];
        assert(e.clock.queue.contains(timer));
        let i = e.clock.queue.index_of(timer);
        assert(e.clock.queue[i].handle == e.clock.queue[k].handle);
        assert(i == k);
        assert(done.clock.queue[0].due <= timer.due);
    }
}

} // verus!

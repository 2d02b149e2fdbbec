//! What holds of the engine as a whole, whatever is done with it.

use vstd::prelude::*;
use crate::behavior::{OutcomeView, StepView};
use crate::clock::{next_number, Schedule};
use crate::contract::{EnvelopeView, RequestView, RuntimeError};
use crate::faults::Direction;
use crate::format::Codec;
use crate::framing::{request_frame, request_of_frame, response_of_frame, WireFraming};
use crate::generic::{behaviors_after, dispatched};
use crate::json::Json;
use crate::model::SessionView;
use crate::wire::{delay_micros, law_clean_wire_passes_through, law_every_frame_is_recorded, ChannelView, Fate};
use crate::engine::{
    deliveries, engine_failure, enveloped, jsonrpc_response, opened, opened_all, relayed, result_of, ContView,
    EngineView, EventView, GreetingView, OutgoingView, ResultView, Turn, WireView,
};

verus! {

// ── what stays as it is ─────────────────────────────────────────────────

/// Whether two engines agree on all but their wires, their generator and what
/// is queued: the books, and the time.
pub open spec fn same_books(a: EngineView, b: EngineView) -> bool {
    &&& a.next_request_id == b.next_request_id
    &&& a.results == b.results
    &&& a.forwards == b.forwards
    &&& a.forwarding == b.forwarding
    &&& a.in_flight == b.in_flight
    &&& a.timeouts == b.timeouts
    &&& a.clock.now == b.clock.now
}

proof fn lemma_deliveries_keep_time(
    clock: Schedule<EventView>,
    delay: i64,
    conn: Seq<char>,
    dir: Direction,
    frames: Seq<Seq<u8>>,
)
    ensures
        deliveries(clock, delay, conn, dir, frames).now == clock.now,
    decreases frames.len(),
{
    if frames.len() > 0 {
        lemma_deliveries_keep_time(clock, delay, conn, dir, frames.drop_last());
    }
}

/// Putting a frame on a wire leaves the books, the time, and every other wire as
/// they are. Of its own wire it changes the channel.
pub proof fn law_a_frame_touches_its_wire_alone(e: EngineView, conn: Seq<char>, dir: Direction, frame: Seq<u8>)
    ensures
        same_books(e.emitted(conn, dir, frame), e),
        e.emitted(conn, dir, frame).wires.dom() == e.wires.dom(),
        forall|other: Seq<char>|
            other != conn && e.wires.dom().contains(other) ==> #[trigger] e.emitted(conn, dir, frame).wires[other]
                == e.wires[other],
        e.wires.dom().contains(conn) ==> e.emitted(conn, dir, frame).wires[conn] == (WireView {
            channel: e.emitted(conn, dir, frame).wires[conn].channel,
            ..e.wires[conn]
        }),
{
    if e.wires.dom().contains(conn) {
        let sent = e.wires[conn].channel.sent(dir, frame, e.clock.millis(), e.rng);
        if let Fate::Deliver { frames, delay } = sent.fate {
            lemma_deliveries_keep_time(e.clock, delay_micros(delay), conn, dir, frames);
        }
        assert(e.emitted(conn, dir, frame).wires.dom() =~= e.wires.dom());
    }
}

pub proof fn lemma_replied(e: EngineView, conn: Seq<char>, id: u64, outcome: OutcomeView)
    ensures
        same_books(e.replied(conn, id, outcome).engine, e),
{
    if e.wires.dom().contains(conn) {
        if let Some(envelope) = enveloped(outcome, e.wires[conn].codec) {
            law_a_frame_touches_its_wire_alone(e, conn, Direction::Response, jsonrpc_response(id, envelope));
        }
    }
}

// ── time ────────────────────────────────────────────────────────────────

/// A settlement leaves the time as it is.
proof fn lemma_settled_time(e: EngineView, id: u64, result: ResultView)
    ensures
        e.settled(id, result).engine.clock.now == e.clock.now,
{
    if e.in_flight.contains(id) {
        let landed = e.landed(id);
        if landed.forwards.dom().contains(id) {
            let cont = landed.forwards[id];
            let freed = EngineView {
                forwards: landed.forwards.remove(id),
                forwarding: landed.forwarding.remove(cont.via),
                ..landed
            };
            lemma_replied(freed, cont.outer_conn, cont.outer_request_id, relayed(result));
        }
    }
}

proof fn lemma_issued_time(e: EngineView, job: OutgoingView, frame: Seq<u8>)
    ensures
        e.issued(job, frame).clock.now == e.clock.now,
{
    law_a_frame_touches_its_wire_alone(e, job.conn, Direction::Request, frame);
}

proof fn lemma_forwarded_time(e: EngineView, cont: ContView, params: Json)
    ensures
        e.forwarded(cont, params).engine.clock.now == e.clock.now,
{
    reveal(EngineView::forwarded);
    match e.forward_refusal(cont.via) {
        Some(message) => {
            lemma_replied(e, cont.outer_conn, cont.outer_request_id, engine_failure(message));
        },
        None => {
            let marked = EngineView { forwarding: e.forwarding.insert(cont.via), ..e };
            let ready = marked.prepared(cont.via, cont.target_fn);
            match marked.outgoing(cont.via, cont.target_fn, params) {
                Ok(job) => {
                    let full = OutgoingView { cont: Some(cont), ..job };
                    lemma_issued_time(ready, full, request_frame(full.call_name, full.request_id, full.body));
                },
                Err(_) => {
                    lemma_replied(
                        EngineView { forwarding: ready.forwarding.remove(cont.via), ..ready },
                        cont.outer_conn,
                        cont.outer_request_id,
                        engine_failure("forward: "@ + cont.via + " has no "@ + cont.target_fn),
                    );
                },
            }
        },
    }
}

proof fn lemma_served_time(e: EngineView, conn: Seq<char>, request: Option<RequestView>)
    ensures
        e.served(conn, request).engine.clock.now == e.clock.now,
{
    if e.wires.dom().contains(conn) && request is Some {
        let wire = e.wires[conn];
        let req = request->0;
        let ran = EngineView {
            wires: e.wires.insert(
                conn,
                WireView {
                    behaviors: behaviors_after(wire.proto, req.call, req.params, wire.codec, wire.behaviors),
                    ..wire
                },
            ),
            ..e
        };
        match dispatched(wire.proto, req.call, req.params, wire.codec, wire.behaviors) {
            Ok(StepView::Now(outcome)) => {
                lemma_replied(ran, conn, req.request_id, outcome);
            },
            Ok(StepView::Forward { via, target_fn, params }) => {
                lemma_forwarded_time(
                    ran,
                    ContView { outer_conn: conn, outer_request_id: req.request_id, via, target_fn },
                    params,
                );
            },
            _ => {},
        }
    }
}

proof fn lemma_applied_time(e: EngineView, event: EventView)
    ensures
        e.applied(event).engine.clock.now == e.clock.now,
{
    reveal(EngineView::applied);
    match event {
        EventView::DeliverToServer { conn, frame } => {
            lemma_served_time(e, conn, request_of_frame(frame));
        },
        EventView::DeliverToClient { conn, frame } => {
            if e.wires.dom().contains(conn) {
                if let Some((id, envelope)) = response_of_frame(frame) {
                    lemma_settled_time(e, id, result_of(envelope, e.wires[conn].codec));
                }
            }
        },
        EventView::FlushReorder { conn, dir } => {
            if e.wires.dom().contains(conn) {
                lemma_deliveries_keep_time(e.clock, 0, conn, dir, e.wires[conn].channel.released(e.rng));
            }
        },
        EventView::CompleteReply { conn, request_id, outcome } => {
            lemma_replied(e, conn, request_id, outcome);
        },
        EventView::Timeout { conn, request_id } => {
            if e.in_flight.contains(request_id) {
                lemma_settled_time(
                    EngineView { timeouts: e.timeouts.remove(request_id), ..e.killed(conn) },
                    request_id,
                    ResultView::Timeout,
                );
            }
        },
    }
}

/// Time only moves when an event fires, and then to the instant that the event
/// was due at: never backwards.
pub proof fn law_time_moves_with_events(e: EngineView)
    ensures
        e.stepped().engine.clock.now >= e.clock.now,
        e.clock.queue.len() > 0 ==> e.stepped().engine.clock.now == (if e.clock.queue[0].due > e.clock.now {
            e.clock.queue[0].due
        } else {
            e.clock.now
        }),
        e.clock.queue.len() == 0 ==> e.stepped() == (Turn { engine: e, work: None }),
{
    if e.clock.queue.len() > 0 {
        lemma_applied_time(EngineView { clock: e.clock.popped(), ..e }, e.clock.queue[0].event);
    }
}

/// Nothing that the host brings back moves the time.
pub proof fn law_the_host_does_not_move_time(
    e: EngineView,
    conn: Seq<char>,
    request: Option<RequestView>,
    response: Option<(u64, EnvelopeView)>,
    job: OutgoingView,
    frame: Seq<u8>,
)
    ensures
        e.served(conn, request).engine.clock.now == e.clock.now,
        e.received(conn, response).engine.clock.now == e.clock.now,
        e.issued(job, frame).clock.now == e.clock.now,
        e.emitted(conn, Direction::Response, frame).clock.now == e.clock.now,
{
    lemma_served_time(e, conn, request);
    if e.wires.dom().contains(conn) {
        if let Some((id, envelope)) = response {
            lemma_settled_time(e, id, result_of(envelope, e.wires[conn].codec));
        }
    }
    lemma_issued_time(e, job, frame);
    law_a_frame_touches_its_wire_alone(e, conn, Direction::Response, frame);
}

/// A window ends at its edge: no event in it moves the time past it, and the last
/// turn, after which nothing is left to fire in it, parks the clock there.
pub proof fn law_a_window_ends_at_its_edge(e: EngineView, until: i64)
    requires
        e.clock.now <= until,
    ensures
        e.advanced_to(until).engine.clock.now <= until,
        !e.due_by(until) ==> e.advanced_to(until).engine.clock.now == until && !e.advanced_to(until).engine.due_by(until),
{
    law_time_moves_with_events(e);
}

// ── settlements ─────────────────────────────────────────────────────────

pub proof fn lemma_settled_books(e: EngineView, id: u64, result: ResultView)
    requires
        e.in_flight.contains(id),
    ensures
        ({
            let after = e.settled(id, result).engine;
            &&& after.in_flight == e.in_flight.remove(id)
            &&& after.timeouts == e.timeouts.remove(id)
            &&& after.next_request_id == e.next_request_id
            &&& after.forwards == e.forwards.remove(id)
            &&& e.forwards.dom().contains(id) ==> after.results == e.results
            &&& !e.forwards.dom().contains(id) ==> after.results == e.results.insert(id, result)
        }),
{
    let landed = e.landed(id);
    if landed.forwards.dom().contains(id) {
        let cont = landed.forwards[id];
        let freed = EngineView {
            forwards: landed.forwards.remove(id),
            forwarding: landed.forwarding.remove(cont.via),
            ..landed
        };
        lemma_replied(freed, cont.outer_conn, cont.outer_request_id, relayed(result));
    } else {
        assert(e.forwards.remove(id) =~= e.forwards);
    }
}

/// First settlement wins: once a call has settled, a late answer to it changes
/// nothing.
pub proof fn law_first_settlement_wins(e: EngineView, id: u64, first: ResultView, late: ResultView)
    ensures
        e.settled(id, first).engine.settled(id, late) == (Turn { engine: e.settled(id, first).engine, work: None }),
{
    if e.in_flight.contains(id) {
        lemma_settled_books(e, id, first);
    }
}

/// A call that was not forwarded settles with its result on record, out of
/// flight, and with no timeout left.
pub proof fn law_a_settled_call_is_on_record(e: EngineView, id: u64, result: ResultView)
    requires
        e.in_flight.contains(id),
        !e.forwards.dom().contains(id),
    ensures
        e.settled(id, result).engine.results.dom().contains(id),
        e.settled(id, result).engine.results[id] == result,
        !e.settled(id, result).engine.in_flight.contains(id),
        !e.settled(id, result).engine.timeouts.dom().contains(id),
        e.settled(id, result).work is None,
{
    lemma_settled_books(e, id, result);
}

/// A timeout settles the call that it belongs to, and leaves its wire dead.
pub proof fn law_a_timeout_kills_the_wire(e: EngineView, conn: Seq<char>, id: u64)
    requires
        e.in_flight.contains(id),
        !e.forwards.dom().contains(id),
        e.wires.dom().contains(conn),
    ensures
        e.timed_out(conn, id).engine.results.dom().contains(id),
        e.timed_out(conn, id).engine.results[id] == ResultView::Timeout,
        e.timed_out(conn, id).engine.wires[conn].dead,
        !e.timed_out(conn, id).engine.in_flight.contains(id),
{
    let killed = EngineView { timeouts: e.timeouts.remove(id), ..e.killed(conn) };
    lemma_settled_books(killed, id, ResultView::Timeout);
}

/// A timeout window that ends after its call has settled changes nothing.
pub proof fn law_a_stale_timeout_is_ignored(e: EngineView, conn: Seq<char>, id: u64)
    requires
        !e.in_flight.contains(id),
    ensures
        e.timed_out(conn, id) == (Turn { engine: e, work: None }),
{
}

/// A dead wire fails every later call fast, and takes no id for it.
pub proof fn law_a_dead_wire_fails_fast(e: EngineView, conn: Seq<char>, fn_name: Seq<char>, params: Json)
    requires
        e.wires.dom().contains(conn),
        e.wires[conn].error is None,
        e.wires[conn].dead,
    ensures
        e.outgoing(conn, fn_name, params) == Err::<OutgoingView, RuntimeError>(RuntimeError::Timeout),
        e.prepared(conn, fn_name) == e,
{
}

/// A refused connection answers every call with that.
pub proof fn law_a_refused_wire_takes_no_call(e: EngineView, conn: Seq<char>, fn_name: Seq<char>, params: Json)
    requires
        e.wires.dom().contains(conn),
        e.wires[conn].error is Some,
    ensures
        e.outgoing(conn, fn_name, params) == Err::<OutgoingView, RuntimeError>(RuntimeError::Handshake),
        e.prepared(conn, fn_name) == e,
{
}

// ── the books ───────────────────────────────────────────────────────────

/// Whether the books agree: no id is past the one given last, and none is both
/// in flight and settled.
pub open spec fn in_balance(e: EngineView) -> bool {
    &&& forall|id: u64| #[trigger] e.in_flight.contains(id) ==> id <= e.next_request_id && !e.results.dom().contains(id)
    &&& forall|id: u64| #[trigger] e.results.dom().contains(id) ==> id <= e.next_request_id
}

/// Whether `later` has every result that `earlier` has.
pub open spec fn keeps_results(earlier: EngineView, later: EngineView) -> bool {
    forall|id: u64| #[trigger]
        earlier.results.dom().contains(id) ==> later.results.dom().contains(id) && later.results[id]
            == earlier.results[id]
}

/// The engine starts with its books in balance.
pub proof fn law_the_books_start_in_balance()
    ensures
        in_balance(EngineView::fresh()),
{
}

/// Issuing a call under a fresh id keeps the books in balance, and every result.
pub proof fn law_issuing_keeps_the_books(e: EngineView, job: OutgoingView, frame: Seq<u8>)
    requires
        in_balance(e),
        job.request_id <= e.next_request_id,
        !e.results.dom().contains(job.request_id),
        !e.in_flight.contains(job.request_id),
    ensures
        in_balance(e.issued(job, frame)),
        keeps_results(e, e.issued(job, frame)),
{
    law_a_frame_touches_its_wire_alone(e, job.conn, Direction::Request, frame);
}

/// A settlement keeps the books in balance, and every result.
pub proof fn law_settling_keeps_the_books(e: EngineView, id: u64, result: ResultView)
    requires
        in_balance(e),
    ensures
        in_balance(e.settled(id, result).engine),
        keeps_results(e, e.settled(id, result).engine),
{
    if e.in_flight.contains(id) {
        lemma_settled_books(e, id, result);
    }
}

/// The next call gets an id that no call had.
pub proof fn law_ids_are_fresh(e: EngineView, conn: Seq<char>, fn_name: Seq<char>, params: Json)
    requires
        in_balance(e),
        e.next_request_id < u64::MAX,
    ensures
        e.outgoing(conn, fn_name, params) matches Ok(job) ==> {
            let ready = e.prepared(conn, fn_name);
            &&& job.request_id == ready.next_request_id
            &&& !e.results.dom().contains(job.request_id)
            &&& !e.in_flight.contains(job.request_id)
            &&& in_balance(ready)
        },
{
    let id = next_number(e.next_request_id);
    if e.results.dom().contains(id) || e.in_flight.contains(id) {
        assert(id <= e.next_request_id);
    }
}

proof fn lemma_forwarded_books(e: EngineView, cont: ContView, params: Json)
    requires
        in_balance(e),
        e.next_request_id < u64::MAX,
    ensures
        in_balance(e.forwarded(cont, params).engine),
        keeps_results(e, e.forwarded(cont, params).engine),
{
    reveal(EngineView::forwarded);
    match e.forward_refusal(cont.via) {
        Some(message) => {
            lemma_replied(e, cont.outer_conn, cont.outer_request_id, engine_failure(message));
        },
        None => {
            let marked = EngineView { forwarding: e.forwarding.insert(cont.via), ..e };
            let ready = marked.prepared(cont.via, cont.target_fn);
            law_ids_are_fresh(marked, cont.via, cont.target_fn, params);
            match marked.outgoing(cont.via, cont.target_fn, params) {
                Ok(job) => {
                    let full = OutgoingView { cont: Some(cont), ..job };
                    law_issuing_keeps_the_books(
                        ready,
                        full,
                        request_frame(full.call_name, full.request_id, full.body),
                    );
                },
                Err(_) => {
                    lemma_replied(
                        EngineView { forwarding: ready.forwarding.remove(cont.via), ..ready },
                        cont.outer_conn,
                        cont.outer_request_id,
                        engine_failure("forward: "@ + cont.via + " has no "@ + cont.target_fn),
                    );
                },
            }
        },
    }
}

/// What a request comes to at the server keeps the books in balance, and every
/// result.
pub proof fn law_serving_keeps_the_books(e: EngineView, conn: Seq<char>, request: Option<RequestView>)
    requires
        in_balance(e),
        e.next_request_id < u64::MAX,
    ensures
        in_balance(e.served(conn, request).engine),
        keeps_results(e, e.served(conn, request).engine),
{
    if e.wires.dom().contains(conn) && request is Some {
        let wire = e.wires[conn];
        let req = request->0;
        let ran = EngineView {
            wires: e.wires.insert(
                conn,
                WireView {
                    behaviors: behaviors_after(wire.proto, req.call, req.params, wire.codec, wire.behaviors),
                    ..wire
                },
            ),
            ..e
        };
        match dispatched(wire.proto, req.call, req.params, wire.codec, wire.behaviors) {
            Ok(StepView::Now(outcome)) => {
                lemma_replied(ran, conn, req.request_id, outcome);
            },
            Ok(StepView::Forward { via, target_fn, params }) => {
                lemma_forwarded_books(
                    ran,
                    ContView { outer_conn: conn, outer_request_id: req.request_id, via, target_fn },
                    params,
                );
            },
            _ => {},
        }
    }
}

/// A step keeps the books in balance; a result, once on record, stays as it is.
pub proof fn law_results_are_final(e: EngineView)
    requires
        in_balance(e),
        e.next_request_id < u64::MAX,
    ensures
        in_balance(e.stepped().engine),
        keeps_results(e, e.stepped().engine),
{
    reveal(EngineView::applied);
    if e.clock.queue.len() > 0 {
        let popped = EngineView { clock: e.clock.popped(), ..e };
        match e.clock.queue[0].event {
            EventView::DeliverToServer { conn, frame } => {
                law_serving_keeps_the_books(popped, conn, request_of_frame(frame));
            },
            EventView::DeliverToClient { conn, frame } => {
                if popped.wires.dom().contains(conn) {
                    if let Some((id, envelope)) = response_of_frame(frame) {
                        law_settling_keeps_the_books(popped, id, result_of(envelope, popped.wires[conn].codec));
                    }
                }
            },
            EventView::FlushReorder { conn, dir } => {},
            EventView::CompleteReply { conn, request_id, outcome } => {
                lemma_replied(popped, conn, request_id, outcome);
            },
            EventView::Timeout { conn, request_id } => {
                if popped.in_flight.contains(request_id) {
                    law_settling_keeps_the_books(
                        EngineView { timeouts: popped.timeouts.remove(request_id), ..popped.killed(conn) },
                        request_id,
                        ResultView::Timeout,
                    );
                }
            },
        }
    }
}

// ── wiring ──────────────────────────────────────────────────────────────

proof fn lemma_opened_all(
    s: SessionView,
    greetings: Seq<GreetingView>,
    n: int,
    wires: Map<Seq<char>, WireView>,
    rng: u32,
)
    requires
        0 <= n <= s.connections.len(),
    ensures
        ({
            let open = opened_all(s, greetings, n, wires, rng).0;
            &&& forall|id: Seq<char>| #[trigger]
                open.dom().contains(id) <==> wires.dom().contains(id) || s.connection_ids().take(n).contains(id)
            &&& forall|id: Seq<char>| #[trigger] wires.dom().contains(id) ==> open[id] == wires[id]
            &&& forall|id: Seq<char>| #[trigger]
                open.dom().contains(id) && !wires.dom().contains(id) ==> !open[id].dead
        }),
    decreases n,
{
    let ids = s.connection_ids();
    if n > 0 {
        lemma_opened_all(s, greetings, n - 1, wires, rng);
        let open = opened_all(s, greetings, n, wires, rng).0;
        let part = opened_all(s, greetings, n - 1, wires, rng).0;
        let c = s.connections[n - 1];
        assert(ids.take(n) =~= ids.take(n - 1).push(c.id));
        assert forall|id: Seq<char>| #[trigger]
            open.dom().contains(id) <==> wires.dom().contains(id) || ids.take(n).contains(id) by {
            assert(part.dom().contains(id) <==> wires.dom().contains(id) || ids.take(n - 1).contains(id));
            if ids.take(n - 1).contains(id) {
                let k = ids.take(n - 1).index_of(id);
                assert(ids.take(n)[k] == id);
            }
            if id == c.id {
                assert(ids.take(n)[n - 1] == id);
            }
            if ids.take(n).contains(id) && id != c.id {
                let k = ids.take(n).index_of(id);
                assert(ids.take(n - 1)[k] == id);
            }
        }
    } else {
        assert(ids.take(0) =~= Seq::empty());
    }
}

/// A sync opens exactly the connections of the session, and leaves those that
/// were open running as they are.
pub proof fn law_sync_is_incremental(e: EngineView, s: SessionView, greetings: Seq<GreetingView>)
    ensures
        e.synced(s, greetings).wires.dom() == s.connection_ids().to_set(),
        forall|id: Seq<char>| #[trigger]
            e.wires.dom().contains(id) && s.connection_ids().contains(id) ==> e.synced(s, greetings).wires[id]
                == e.wires[id],
        same_books(e.synced(s, greetings), e),
        e.synced(s, greetings).clock == e.clock,
{
    let ids = s.connection_ids();
    let kept = e.wires.restrict(ids.to_set());
    lemma_opened_all(s, greetings, s.connections.len() as int, kept, e.rng);
    assert(ids.take(s.connections.len() as int) =~= ids);
    assert(e.synced(s, greetings).wires.dom() =~= ids.to_set());
    assert forall|id: Seq<char>| #[trigger] e.wires.dom().contains(id) && ids.contains(id) implies e.synced(
        s,
        greetings,
    ).wires[id] == e.wires[id] by {
        assert(kept.dom().contains(id));
    }
}

/// A rebuild revives every wire: none is dead, and nothing is in flight, waiting
/// or being forwarded. The time and the results stay.
pub proof fn law_rebuild_revives(e: EngineView, s: SessionView, greetings: Seq<GreetingView>)
    ensures
        e.rebuilt(s, greetings).wires.dom() == s.connection_ids().to_set(),
        forall|id: Seq<char>| #[trigger]
            e.rebuilt(s, greetings).wires.dom().contains(id) ==> !e.rebuilt(s, greetings).wires[id].dead,
        e.rebuilt(s, greetings).in_flight == Set::<u64>::empty(),
        e.rebuilt(s, greetings).timeouts == Map::<u64, u64>::empty(),
        e.rebuilt(s, greetings).forwards == Map::<u64, ContView>::empty(),
        e.rebuilt(s, greetings).forwarding == Set::<Seq<char>>::empty(),
        e.rebuilt(s, greetings).clock == e.clock,
        e.rebuilt(s, greetings).results == e.results,
        e.rebuilt(s, greetings).next_request_id == e.next_request_id,
{
    let cleared = EngineView {
        wires: Map::empty(),
        forwards: Map::empty(),
        forwarding: Set::empty(),
        in_flight: Set::empty(),
        timeouts: Map::empty(),
        rng: s.seed,
        ..e
    };
    law_sync_is_incremental(cleared, s, greetings);
    let kept = cleared.wires.restrict(s.connection_ids().to_set());
    assert(kept =~= Map::empty());
    lemma_opened_all(s, greetings, s.connections.len() as int, kept, s.seed);
}

/// Reseeding makes a run reproducible: rebuilt from one session, any two engines
/// have the same wires and the same generator, whatever they did before.
pub proof fn law_rebuild_is_reproducible(a: EngineView, b: EngineView, s: SessionView, greetings: Seq<GreetingView>)
    ensures
        a.rebuilt(s, greetings).wires == b.rebuilt(s, greetings).wires,
        a.rebuilt(s, greetings).rng == b.rebuilt(s, greetings).rng,
{
}

/// Two ends built against different schemas are refused at the handshake, unless
/// the pair of framing and codec is refused already.
pub proof fn law_version_skew_is_refused(
    s: SessionView,
    c: crate::model::ConnectionView,
    g: GreetingView,
    rng: u32,
)
    requires
        s.can_open(c),
        s.instance(c.client_id)->0.ir_hash != s.instance(c.server_id)->0.ir_hash,
    ensures
        opened(s, c, g, rng).0.error is Some,
        c.wire_format == Codec::Json ==> opened(s, c, g, rng).0.error == Some("handshake"@),
{
}

/// JSON-RPC framing with the MessagePack codec is refused.
pub proof fn law_jsonrpc_needs_json(s: SessionView, c: crate::model::ConnectionView, g: GreetingView, rng: u32)
    requires
        s.can_open(c),
        opened(s, c, g, rng).0.framing == WireFraming::Jsonrpc,
        c.wire_format == Codec::Msgpack,
    ensures
        opened(s, c, g, rng).0.error == Some("json-rpc framing requires the json codec"@),
{
}

/// A partition cuts the handshake too: the connection is refused.
pub proof fn law_a_partition_refuses_the_connection(
    s: SessionView,
    c: crate::model::ConnectionView,
    g: GreetingView,
    rng: u32,
)
    requires
        s.can_open(c),
        c.faults.partition,
    ensures
        opened(s, c, g, rng).0.error is Some,
        c.wire_format == Codec::Json ==> opened(s, c, g, rng).0.error == Some("handshake"@),
{
}

/// Two ends built against one schema connect over a wire without faults, whatever
/// the pair of framing and codec, JSON-RPC with MessagePack apart. Both handshakes
/// are on the tap.
pub proof fn law_matching_ends_connect(s: SessionView, c: crate::model::ConnectionView, g: GreetingView, rng: u32)
    requires
        s.can_open(c),
        !c.faults.active(),
        s.instance(c.client_id)->0.ir_hash == s.instance(c.server_id)->0.ir_hash,
        opened(s, c, g, rng).0.framing == WireFraming::Datagram || c.wire_format == Codec::Json,
    ensures
        opened(s, c, g, rng).0.error is None,
        opened(s, c, g, rng).0.channel.tap.frames.len() == 2,
{
    let client = s.instance(c.client_id)->0;
    let server = s.instance(c.server_id)->0;
    let start = ChannelView {
        latency_ms: s.latency_ms.above_zero(),
        faults: c.faults,
        ..ChannelView::fresh(client.name, server.name)
    };
    let hello = start.sent(Direction::Request, g.client, Some(0), rng);
    law_clean_wire_passes_through(start, Direction::Request, g.client, Some(0), rng);
    law_every_frame_is_recorded(start, Direction::Request, g.client, Some(0), rng);
    law_clean_wire_passes_through(hello.channel, Direction::Response, g.server, Some(0), hello.rng);
    law_every_frame_is_recorded(hello.channel, Direction::Response, g.server, Some(0), hello.rng);
}

// ── forwarding ──────────────────────────────────────────────────────────

/// A forward onto a connection that a forwarded call is in flight on already is
/// a cycle: the outer call is answered with that, and no inner call is made.
pub proof fn law_a_forwarding_cycle_is_refused(e: EngineView, cont: ContView, params: Json)
    requires
        e.wires.dom().contains(cont.via),
        e.wires[cont.via].error is None,
        e.forwarding.contains(cont.via),
    ensures
        e.forwarded(cont, params) == e.replied(
            cont.outer_conn,
            cont.outer_request_id,
            engine_failure("forwarding cycle"@),
        ),
        e.forwarded(cont, params).engine.next_request_id == e.next_request_id,
{
    reveal(EngineView::forwarded);
    lemma_replied(e, cont.outer_conn, cont.outer_request_id, engine_failure("forwarding cycle"@));
}

/// What an inner call comes to is what the outer one is answered with, and the
/// connection that it went over is free again.
pub proof fn law_a_forward_relays_the_inner_result(e: EngineView, id: u64, result: ResultView)
    requires
        e.in_flight.contains(id),
        e.forwards.dom().contains(id),
    ensures
        ({
            let cont = e.forwards[id];
            let freed = EngineView {
                forwards: e.forwards.remove(id),
                forwarding: e.forwarding.remove(cont.via),
                ..e.landed(id)
            };
            &&& e.settled(id, result) == freed.replied(cont.outer_conn, cont.outer_request_id, relayed(result))
            &&& !e.settled(id, result).engine.forwarding.contains(cont.via)
        }),
{
    let cont = e.forwards[id];
    let freed = EngineView {
        forwards: e.forwards.remove(id),
        forwarding: e.forwarding.remove(cont.via),
        ..e.landed(id)
    };
    lemma_replied(freed, cont.outer_conn, cont.outer_request_id, relayed(result));
}

} // verus!

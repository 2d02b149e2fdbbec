//! What holds over every run of an engine: whatever is done with it, in whatever
//! order, and however its host answers what it is asked for.

use vstd::arithmetic::power2::pow2;
use vstd::prelude::*;
use crate::arith::{
    edge_of, law_whole_milliseconds, law_whole_windows, law_whole_windows_add_up, window_from,
};
use crate::behavior::{scripted, BehaviorKind, HandlerView, OutcomeView, StepView};
use crate::clock::{instant_after, lemma_slot, slot, Schedule, Timer};
use crate::contract::{EnvelopeView, RequestView};
use crate::dict::lemma_filtered;
use crate::engine::{
    deliveries, delivery, engine_failure, enveloped, jsonrpc_response, relayed, result_of, ContView, EngineView,
    EventView, GreetingView, OutgoingView, ResultView, Turn, WireView, WorkView,
};
use crate::faults::{Direction, FaultSpec};
use crate::framing::{request_frame, request_of_frame, response_of_frame, WireFraming};
use crate::generic::{behaviors_after, dispatched};
use crate::json::Json;
use crate::laws::{
    in_balance, keeps_results, law_a_frame_touches_its_wire_alone, law_the_books_start_in_balance,
    law_the_host_does_not_move_time, law_time_moves_with_events, same_books,
};
use crate::model::SessionView;
use crate::shape::SchemaView;
use crate::wire::{delay_micros, Fate, REORDER_FLUSH};

verus! {

// ── a run ───────────────────────────────────────────────────────────────

/// What a host brings back for a [`WorkView`].
pub ghost enum Reply {
    /// The frame that was asked for, or that none could be made.
    Frame(Option<Seq<u8>>),
    /// What a request frame says, or that it does not decode.
    Request(Option<RequestView>),
    /// What a response frame says, or that it does not decode.
    Response(Option<(u64, EnvelopeView)>),
    /// What a script came to, or why it came to nothing.
    Script(Result<Json, Seq<char>>),
}

impl EngineView {
    /// What it comes to that the host answers `work` with `reply`. A reply of
    /// another sort than was asked for brings nothing.
    pub open spec fn answered(self, work: WorkView, reply: Reply) -> Turn {
        match (work, reply) {
            (WorkView::FrameRequest(job), Reply::Frame(Some(frame))) => Turn {
                engine: self.issued(job, frame),
                work: None,
            },
            (WorkView::FrameRequest(job), Reply::Frame(None)) => match job.cont {
                Some(cont) => self.forward_failed(cont),
                None => Turn { engine: self, work: None },
            },
            (WorkView::FrameReply { conn, .. }, Reply::Frame(Some(frame))) => Turn {
                engine: self.emitted(conn, Direction::Response, frame),
                work: None,
            },
            (WorkView::DecodeRequest { conn, .. }, Reply::Request(request)) => self.served(conn, request),
            (WorkView::DecodeResponse { conn, .. }, Reply::Response(response)) => self.received(conn, response),
            (WorkView::RunScript { conn, request_id, oneway, .. }, Reply::Script(ran)) => self.replied(
                conn,
                request_id,
                scripted(oneway, ran),
            ),
            _ => Turn { engine: self, work: None },
        }
    }

    /// What a call of `fn_name` on `conn` comes to.
    pub open spec fn called(self, conn: Seq<char>, fn_name: Seq<char>, params: Json) -> Turn {
        match self.outgoing(conn, fn_name, params) {
            Ok(job) => self.prepared(conn, fn_name).dispatched_call(job),
            Err(_) => Turn { engine: self.prepared(conn, fn_name), work: None },
        }
    }
}

/// Something that is done with an engine.
pub ghost enum Act {
    Call(Seq<char>, Seq<char>, Json),
    Step,
    Advance(Option<int>),
    Sync(SessionView, Seq<GreetingView>),
    Rebuild(SessionView, Seq<GreetingView>),
    Faults(Seq<char>, FaultSpec),
    Behavior(Seq<char>, Seq<char>, HandlerView),
    BehaviorOn(Set<Seq<char>>, Seq<char>, BehaviorKind, Json, SchemaView),
    Seed(u32),
    Settle(u64, ResultView),
    /// The host answers the piece of work at that place.
    Answer(int, Reply),
}

/// An engine, and the work that its host has in hand.
pub ghost struct Run {
    pub engine: EngineView,
    pub hand: Seq<WorkView>,
}

/// `hand`, and `work` behind it.
pub open spec fn taking(hand: Seq<WorkView>, work: Option<WorkView>) -> Seq<WorkView> {
    match work {
        Some(work) => hand.push(work),
        None => hand,
    }
}

impl Run {
    /// The run at the start.
    pub open spec fn fresh() -> Run {
        Run { engine: EngineView::fresh(), hand: Seq::empty() }
    }

    /// The run after a turn of the engine.
    pub open spec fn after(self, turn: Turn) -> Run {
        Run { engine: turn.engine, hand: taking(self.hand, turn.work) }
    }

    /// The run after one act. A behaviour is set where the connection has such a
    /// function.
    #[verifier::opaque]
    pub open spec fn acted(self, act: Act) -> Run {
        let e = self.engine;
        match act {
            Act::Call(conn, fn_name, params) => self.after(e.called(conn, fn_name, params)),
            Act::Step => self.after(e.stepped()),
            Act::Advance(until) => self.after(e.advanced_in(until)),
            Act::Sync(s, greetings) => Run { engine: e.synced(s, greetings), ..self },
            Act::Rebuild(s, greetings) => Run { engine: e.rebuilt(s, greetings), ..self },
            Act::Faults(conn, faults) => Run { engine: e.with_faults(conn, faults), ..self },
            Act::Behavior(conn, fn_name, handler) => if e.behavior_refusal(conn, fn_name) is None {
                Run { engine: e.with_behavior(conn, fn_name, handler), ..self }
            } else {
                self
            },
            Act::BehaviorOn(conns, fn_name, kind, config, schema) => Run {
                engine: e.with_behavior_on(conns, fn_name, kind, config, schema),
                ..self
            },
            Act::Seed(seed) => Run { engine: EngineView { rng: seed, ..e }, ..self },
            Act::Settle(id, result) => self.after(e.settled(id, result)),
            Act::Answer(i, reply) => if 0 <= i < self.hand.len() {
                Run { hand: self.hand.remove(i), ..self }.after(e.answered(self.hand[i], reply))
            } else {
                self
            },
        }
    }

    /// The run after a number of acts, one after the other.
    pub open spec fn ran(self, acts: Seq<Act>) -> Run
        decreases acts.len(),
    {
        if acts.len() == 0 {
            self
        } else {
            self.ran(acts.drop_last()).acted(acts.last())
        }
    }
}

// ── what every run keeps ────────────────────────────────────────────────

/// The call that `event` is the end of the timeout window of.
pub open spec fn timeout_of(event: EventView) -> Option<u64> {
    match event {
        EventView::Timeout { request_id, .. } => Some(request_id),
        _ => None,
    }
}

/// Whether the end of a timeout window of the call `id` is queued.
pub open spec fn times_out(queue: Seq<Timer<EventView>>, id: u64) -> bool {
    exists|k: int| 0 <= k < queue.len() && timeout_of((#[trigger] queue[k]).event) == Some(id)
}

/// Whether no call has two timeout windows.
pub open spec fn lone(queue: Seq<Timer<EventView>>) -> bool {
    forall|k: int, l: int|
        0 <= k < l < queue.len() && timeout_of((#[trigger] queue[k]).event) is Some ==> timeout_of(
            queue[k].event,
        ) != timeout_of((#[trigger] queue[l]).event)
}

/// Whether the timeout windows are those of calls that are not settled: each one
/// on record belongs to a call in flight, and so does each queued one, unless its
/// call was dropped.
pub open spec fn timed(e: EngineView) -> bool {
    &&& forall|id: u64| #[trigger] e.timeouts.dom().contains(id) ==> e.in_flight.contains(id)
    &&& forall|k: int|
        0 <= k < e.clock.queue.len() ==> (timeout_of((#[trigger] e.clock.queue[k]).event) matches Some(id) ==> {
            &&& id <= e.next_request_id
            &&& !e.results.dom().contains(id)
            &&& e.in_flight.contains(id) ==> e.timeouts.dom().contains(id) && e.timeouts[id]
                == e.clock.queue[k].handle
        })
    &&& lone(e.clock.queue)
}

/// Whether the engine has the call `id` on its books or in its queue.
pub open spec fn known(e: EngineView, id: u64) -> bool {
    e.results.dom().contains(id) || e.in_flight.contains(id) || times_out(e.clock.queue, id)
}

/// Whether each request that waits for its frame has an id of its own, one that
/// the engine has given and does not know yet.
pub open spec fn held(e: EngineView, hand: Seq<WorkView>) -> bool {
    &&& forall|i: int|
        0 <= i < hand.len() ==> (#[trigger] hand[i] matches WorkView::FrameRequest(job) ==> job.request_id
            <= e.next_request_id && !known(e, job.request_id))
    &&& forall|i: int, j: int|
        0 <= i < j < hand.len() ==> (#[trigger] hand[i] matches WorkView::FrameRequest(a) ==> (
        #[trigger] hand[j] matches WorkView::FrameRequest(b) ==> a.request_id != b.request_id))
}

impl Run {
    pub open spec fn sound(self) -> bool {
        &&& in_balance(self.engine)
        &&& timed(self.engine)
        &&& held(self.engine, self.hand)
    }
}

/// A run starts sound.
pub proof fn law_a_run_starts_sound()
    ensures
        Run::fresh().sound(),
{
    law_the_books_start_in_balance();
}

/// Over every run: no id is both in flight and settled; a settled call has no
/// timeout window, neither on record nor in the queue; and a result, once on
/// record, stays as it is.
pub proof fn law_results_are_final_over_every_run(run: Run, acts: Seq<Act>)
    requires
        run.sound(),
        run.engine.next_request_id + acts.len() < u64::MAX,
    ensures
        run.ran(acts).sound(),
        keeps_results(run.engine, run.ran(acts).engine),
        run.ran(acts).engine.next_request_id <= run.engine.next_request_id + acts.len(),
        forall|id: u64| #[trigger]
            run.ran(acts).engine.results.dom().contains(id) ==> {
                &&& !run.ran(acts).engine.in_flight.contains(id)
                &&& !run.ran(acts).engine.timeouts.dom().contains(id)
                &&& !times_out(run.ran(acts).engine.clock.queue, id)
            },
    decreases acts.len(),
{
    if acts.len() > 0 {
        let short = acts.drop_last();
        law_results_are_final_over_every_run(run, short);
        lemma_acted(run.ran(short), acts.last());
    }
}

// ── queues ──────────────────────────────────────────────────────────────

/// Whether `after` holds no timeout window that `before` does not hold.
spec fn no_more(before: Seq<Timer<EventView>>, after: Seq<Timer<EventView>>) -> bool {
    &&& forall|k: int|
        0 <= k < after.len() && timeout_of((#[trigger] after[k]).event) is Some ==> before.contains(after[k])
    &&& lone(before) ==> lone(after)
}

proof fn lemma_no_more_follows(a: Seq<Timer<EventView>>, b: Seq<Timer<EventView>>, c: Seq<Timer<EventView>>)
    requires
        no_more(a, b),
        no_more(b, c),
    ensures
        no_more(a, c),
{
    assert forall|k: int| 0 <= k < c.len() && timeout_of((#[trigger] c[k]).event) is Some implies a.contains(c[k]) by {
        let j = b.index_of(c[k]);
        assert(b[j] == c[k]);
    }
}

proof fn lemma_scheduled(clock: Schedule<EventView>, delay: i64, event: EventView)
    requires
        timeout_of(event) is None,
    ensures
        no_more(clock.queue, clock.scheduled(delay, event).queue),
        clock.scheduled(delay, event).now == clock.now,
{
    let due = instant_after(clock.now, delay);
    let at = slot(clock.queue, due);
    lemma_slot(clock.queue, due);
    let after = clock.scheduled(delay, event).queue;
    assert forall|k: int| 0 <= k < after.len() && timeout_of((#[trigger] after[k]).event) is Some implies clock.queue.contains(
        after[k],
    ) by {
        let j = if k < at {
            k
        } else {
            k - 1
        };
        assert(k != at);
        assert(clock.queue[j] == after[k]);
    }
    if lone(clock.queue) {
        assert forall|k: int, l: int|
            0 <= k < l < after.len() && timeout_of((#[trigger] after[k]).event) is Some implies timeout_of(
            after[k].event,
        ) != timeout_of((#[trigger] after[l]).event) by {
            let i = if k < at {
                k
            } else {
                k - 1
            };
            let j = if l < at {
                l
            } else {
                l - 1
            };
            assert(k != at);
            assert(clock.queue[i] == after[k]);
            if l != at {
                assert(clock.queue[j] == after[l]);
            }
        }
    }
}

proof fn lemma_deliveries(
    clock: Schedule<EventView>,
    delay: i64,
    conn: Seq<char>,
    dir: Direction,
    frames: Seq<Seq<u8>>,
)
    ensures
        no_more(clock.queue, deliveries(clock, delay, conn, dir, frames).queue),
        deliveries(clock, delay, conn, dir, frames).now == clock.now,
    decreases frames.len(),
{
    if frames.len() > 0 {
        let short = deliveries(clock, delay, conn, dir, frames.drop_last());
        lemma_deliveries(clock, delay, conn, dir, frames.drop_last());
        lemma_scheduled(short, delay, delivery(conn, dir, frames.last()));
        lemma_no_more_follows(clock.queue, short.queue, deliveries(clock, delay, conn, dir, frames).queue);
    }
}

proof fn lemma_filter_no_more(queue: Seq<Timer<EventView>>, keep: spec_fn(Timer<EventView>) -> bool)
    ensures
        no_more(queue, queue.filter(keep)),
    decreases queue.len(),
{
    lemma_filtered(queue, keep);
    reveal(Seq::filter);
    if queue.len() > 0 && lone(queue) {
        let short = queue.drop_last();
        assert(lone(short)) by {
            assert forall|k: int, l: int|
                0 <= k < l < short.len() && timeout_of((#[trigger] short[k]).event) is Some implies timeout_of(
                short[k].event,
            ) != timeout_of((#[trigger] short[l]).event) by {
                assert(queue[k] == short[k] && queue[l] == short[l]);
            }
        }
        lemma_filter_no_more(short, keep);
        lemma_filtered(short, keep);
        let left = queue.filter(keep);
        let rest = short.filter(keep);
        let n = queue.len() - 1;
        assert forall|k: int, l: int|
            0 <= k < l < left.len() && timeout_of((#[trigger] left[k]).event) is Some implies timeout_of(
            left[k].event,
        ) != timeout_of((#[trigger] left[l]).event) by {
            assert(left[k] == rest[k]);
            if l < rest.len() {
                assert(left[l] == rest[l]);
            } else {
                let i = short.index_of(rest[k]);
                assert(queue[i] == left[k]);
                assert(queue[n] == left[l]);
            }
        }
    }
}

// ── what leaves the books alone ─────────────────────────────────────────

/// Whether `after` has the books of `before`, and no timeout window more.
spec fn quiet(before: EngineView, after: EngineView) -> bool {
    same_books(after, before) && no_more(before.clock.queue, after.clock.queue)
}

proof fn lemma_emitted(e: EngineView, conn: Seq<char>, dir: Direction, frame: Seq<u8>)
    ensures
        quiet(e, e.emitted(conn, dir, frame)),
{
    law_a_frame_touches_its_wire_alone(e, conn, dir, frame);
    if e.wires.dom().contains(conn) {
        match e.wires[conn].channel.sent(dir, frame, e.clock.millis(), e.rng).fate {
            Fate::Dropped => {},
            Fate::Deliver { frames, delay } => lemma_deliveries(e.clock, delay_micros(delay), conn, dir, frames),
            Fate::Buffered { schedule_flush } => if schedule_flush {
                lemma_scheduled(e.clock, REORDER_FLUSH, EventView::FlushReorder { conn, dir });
            },
        }
    }
}

proof fn lemma_replied(e: EngineView, conn: Seq<char>, id: u64, outcome: OutcomeView)
    ensures
        quiet(e, e.replied(conn, id, outcome).engine),
        e.replied(conn, id, outcome).work matches Some(work) ==> work is FrameReply,
{
    if e.wires.dom().contains(conn) {
        if let Some(envelope) = enveloped(outcome, e.wires[conn].codec) {
            lemma_emitted(e, conn, Direction::Response, jsonrpc_response(id, envelope));
        }
    }
}

/// Whether a turn keeps what a run keeps: the books stay sound, no result is
/// lost, and what the engine knows more of, or asks a frame for, is a call that it
/// has given an id on this turn.
spec fn orderly(e: EngineView, turn: Turn) -> bool {
    let after = turn.engine;
    &&& in_balance(after)
    &&& timed(after)
    &&& keeps_results(e, after)
    &&& e.next_request_id <= after.next_request_id <= e.next_request_id + 1
    &&& forall|id: u64| #[trigger] known(after, id) ==> known(e, id) || e.next_request_id < id
    &&& turn.work matches Some(WorkView::FrameRequest(job)) ==> e.next_request_id < job.request_id
        <= after.next_request_id && !known(after, job.request_id)
}

proof fn lemma_quiet_is_orderly(e: EngineView, turn: Turn)
    requires
        in_balance(e),
        timed(e),
        quiet(e, turn.engine),
        turn.work matches Some(work) ==> !(work is FrameRequest),
    ensures
        orderly(e, turn),
{
    let after = turn.engine;
    assert forall|k: int| 0 <= k < after.clock.queue.len() implies (timeout_of(
        (#[trigger] after.clock.queue[k]).event,
    ) matches Some(id) ==> {
        &&& id <= after.next_request_id
        &&& !after.results.dom().contains(id)
        &&& after.in_flight.contains(id) ==> after.timeouts.dom().contains(id) && after.timeouts[id]
            == after.clock.queue[k].handle
    }) by {
        if timeout_of(after.clock.queue[k].event) is Some {
            let j = e.clock.queue.index_of(after.clock.queue[k]);
            assert(e.clock.queue[j] == after.clock.queue[k]);
        }
    }
    lemma_no_more_known(e, after);
}

proof fn lemma_no_more_known(e: EngineView, after: EngineView)
    requires
        no_more(e.clock.queue, after.clock.queue),
    ensures
        forall|id: u64| #[trigger] times_out(after.clock.queue, id) ==> times_out(e.clock.queue, id),
{
    assert forall|id: u64| #[trigger] times_out(after.clock.queue, id) implies times_out(e.clock.queue, id) by {
        let k = choose|k: int|
            0 <= k < after.clock.queue.len() && timeout_of((#[trigger] after.clock.queue[k]).event) == Some(id);
        let j = e.clock.queue.index_of(after.clock.queue[k]);
        assert(e.clock.queue[j] == after.clock.queue[k]);
    }
}

// ── turns ───────────────────────────────────────────────────────────────

proof fn lemma_issued(e: EngineView, job: OutgoingView, frame: Seq<u8>)
    requires
        in_balance(e),
        timed(e),
        job.request_id <= e.next_request_id,
        !known(e, job.request_id),
    ensures
        in_balance(e.issued(job, frame)),
        timed(e.issued(job, frame)),
        keeps_results(e, e.issued(job, frame)),
        e.issued(job, frame).next_request_id == e.next_request_id,
        forall|id: u64| #[trigger] known(e.issued(job, frame), id) ==> known(e, id) || id == job.request_id,
{
    let id = job.request_id;
    let sent = e.emitted(job.conn, Direction::Request, frame);
    let after = e.issued(job, frame);
    lemma_emitted(e, job.conn, Direction::Request, frame);
    lemma_quiet_is_orderly(e, Turn { engine: sent, work: None });
    assert(!times_out(sent.clock.queue, id));
    if !job.one_way && job.timeout_ms.positive() {
        let event = EventView::Timeout { conn: job.conn, request_id: id };
        let delay = job.timeout_ms.micros() as i64;
        let queue = sent.clock.queue;
        let due = instant_after(sent.clock.now, delay);
        let at = slot(queue, due);
        lemma_slot(queue, due);
        let more = sent.clock.scheduled(delay, event).queue;
        assert(after.clock.queue == more);
        assert forall|k: int| 0 <= k < more.len() && k != at implies #[trigger] more[k] == queue[if k < at {
            k
        } else {
            k - 1
        }] && timeout_of(more[k].event) != Some(id) by {
            let j = if k < at {
                k
            } else {
                k - 1
            };
            assert(more[k] == queue[j]);
            if timeout_of(queue[j].event) == Some(id) {
                assert(times_out(queue, id));
            }
        }
        assert(timeout_of(more[at].event) == Some(id));
        assert forall|k: int| 0 <= k < more.len() implies (timeout_of((#[trigger] more[k]).event) matches Some(other) ==> {
            &&& other <= after.next_request_id
            &&& !after.results.dom().contains(other)
            &&& after.in_flight.contains(other) ==> after.timeouts.dom().contains(other) && after.timeouts[other]
                == more[k].handle
        }) by {
            if k != at {
                let j = if k < at {
                    k
                } else {
                    k - 1
                };
                assert(more[k] == queue[j]);
            }
        }
        assert(lone(more)) by {
            assert forall|k: int, l: int|
                0 <= k < l < more.len() && timeout_of((#[trigger] more[k]).event) is Some implies timeout_of(
                more[k].event,
            ) != timeout_of((#[trigger] more[l]).event) by {
                if k != at && l != at {
                    let i = if k < at {
                        k
                    } else {
                        k - 1
                    };
                    let j = if l < at {
                        l
                    } else {
                        l - 1
                    };
                    assert(queue[i] == more[k] && queue[j] == more[l]);
                }
            }
        }
        assert forall|other: u64| #[trigger] times_out(more, other) implies times_out(queue, other) || other == id by {
            let k = choose|k: int| 0 <= k < more.len() && timeout_of((#[trigger] more[k]).event) == Some(other);
            if k != at {
                let j = if k < at {
                    k
                } else {
                    k - 1
                };
                assert(more[k] == queue[j]);
            }
        }
    } else {
        assert(after.clock.queue == sent.clock.queue);
        assert forall|k: int| 0 <= k < after.clock.queue.len() implies (timeout_of(
            (#[trigger] after.clock.queue[k]).event,
        ) matches Some(other) ==> {
            &&& other <= after.next_request_id
            &&& !after.results.dom().contains(other)
            &&& after.in_flight.contains(other) ==> after.timeouts.dom().contains(other) && after.timeouts[other]
                == after.clock.queue[k].handle
        }) by {
            assert(sent.clock.queue[k] == after.clock.queue[k]);
            if timeout_of(sent.clock.queue[k].event) == Some(id) {
                assert(times_out(sent.clock.queue, id));
            }
        }
    }
    assert forall|other: u64| #[trigger] known(after, other) implies known(e, other) || other == id by {
        if times_out(after.clock.queue, other) && other != id {
            assert(times_out(sent.clock.queue, other));
            assert(known(sent, other));
        }
    }
}

proof fn lemma_landed(e: EngineView, id: u64)
    requires
        in_balance(e),
        timed(e),
        e.in_flight.contains(id),
    ensures
        in_balance(e.landed(id)),
        timed(e.landed(id)),
        !times_out(e.landed(id).clock.queue, id),
        no_more(e.clock.queue, e.landed(id).clock.queue),
{
    let after = e.landed(id);
    let queue = e.clock.queue;
    let left = after.clock.queue;
    if e.timeouts.dom().contains(id) {
        let handle = e.timeouts[id];
        let keep = |t: Timer<EventView>| t.handle != handle;
        assert(left == queue.filter(keep));
        lemma_filter_no_more(queue, keep);
        lemma_filtered(queue, keep);
        if times_out(left, id) {
            let k = choose|k: int| 0 <= k < left.len() && timeout_of((#[trigger] left[k]).event) == Some(id);
            assert(keep(left[k]));
            let j = queue.index_of(left[k]);
            assert(queue[j] == left[k]);
            assert(false);
        }
    } else {
        if times_out(left, id) {
            let k = choose|k: int| 0 <= k < left.len() && timeout_of((#[trigger] left[k]).event) == Some(id);
            assert(queue[k] == left[k]);
            assert(false);
        }
    }
    assert forall|k: int| 0 <= k < left.len() implies (timeout_of((#[trigger] left[k]).event) matches Some(other) ==> {
        &&& other <= after.next_request_id
        &&& !after.results.dom().contains(other)
        &&& after.in_flight.contains(other) ==> after.timeouts.dom().contains(other) && after.timeouts[other]
            == left[k].handle
    }) by {
        if timeout_of(left[k].event) is Some {
            let j = queue.index_of(left[k]);
            assert(queue[j] == left[k]);
        }
    }
}

proof fn lemma_settled(e: EngineView, id: u64, result: ResultView)
    requires
        in_balance(e),
        timed(e),
    ensures
        orderly(e, e.settled(id, result)),
        e.settled(id, result).work matches Some(work) ==> work is FrameReply,
{
    if e.in_flight.contains(id) {
        let landed = e.landed(id);
        lemma_landed(e, id);
        lemma_no_more_known(e, landed);
        if landed.forwards.dom().contains(id) {
            let cont = landed.forwards[id];
            let freed = EngineView {
                forwards: landed.forwards.remove(id),
                forwarding: landed.forwarding.remove(cont.via),
                ..landed
            };
            lemma_replied(freed, cont.outer_conn, cont.outer_request_id, relayed(result));
            let turn = freed.replied(cont.outer_conn, cont.outer_request_id, relayed(result));
            assert(timed(freed));
            lemma_quiet_is_orderly(freed, turn);
            assert(e.settled(id, result) == turn);
            assert forall|other: u64| #[trigger] known(turn.engine, other) implies known(e, other) by {
                assert(known(freed, other) || freed.next_request_id < other);
                assert(other <= freed.next_request_id) by {
                    lemma_known_is_given(turn.engine, other);
                }
            }
        } else {
            let after = e.settled(id, result).engine;
            assert forall|k: int| 0 <= k < after.clock.queue.len() implies (timeout_of(
                (#[trigger] after.clock.queue[k]).event,
            ) matches Some(other) ==> {
                &&& other <= after.next_request_id
                &&& !after.results.dom().contains(other)
                &&& after.in_flight.contains(other) ==> after.timeouts.dom().contains(other)
                    && after.timeouts[other] == after.clock.queue[k].handle
            }) by {
                assert(landed.clock.queue[k] == after.clock.queue[k]);
                if timeout_of(landed.clock.queue[k].event) == Some(id) {
                    assert(times_out(landed.clock.queue, id));
                }
            }
            assert(timed(after));
        }
    } else {
        lemma_quiet_is_orderly(e, e.settled(id, result));
    }
}

/// A settlement keeps the books sound and every result, and leaves the call without
/// a timeout window.
pub proof fn law_a_settled_call_waits_no_more(e: EngineView, id: u64, result: ResultView)
    requires
        in_balance(e),
        timed(e),
    ensures
        in_balance(e.settled(id, result).engine),
        timed(e.settled(id, result).engine),
        keeps_results(e, e.settled(id, result).engine),
        e.in_flight.contains(id) ==> !times_out(e.settled(id, result).engine.clock.queue, id),
{
    lemma_settled(e, id, result);
    if e.in_flight.contains(id) {
        let landed = e.landed(id);
        lemma_landed(e, id);
        if landed.forwards.dom().contains(id) {
            let cont = landed.forwards[id];
            let freed = EngineView {
                forwards: landed.forwards.remove(id),
                forwarding: landed.forwarding.remove(cont.via),
                ..landed
            };
            lemma_replied(freed, cont.outer_conn, cont.outer_request_id, relayed(result));
            lemma_no_more_known(landed, e.settled(id, result).engine);
        }
    }
}

proof fn lemma_known_is_given(e: EngineView, id: u64)
    requires
        in_balance(e),
        timed(e),
        known(e, id),
    ensures
        id <= e.next_request_id,
{
    if times_out(e.clock.queue, id) {
        let k = choose|k: int|
            0 <= k < e.clock.queue.len() && timeout_of((#[trigger] e.clock.queue[k]).event) == Some(id);
        assert(timeout_of(e.clock.queue[k].event) == Some(id));
    }
}

/// What a call that has just got its id comes to.
proof fn lemma_dispatched(e: EngineView, ready: EngineView, job: OutgoingView)
    requires
        in_balance(e),
        timed(e),
        e.next_request_id < u64::MAX,
        ready.results == e.results,
        ready.in_flight == e.in_flight,
        ready.timeouts == e.timeouts,
        ready.clock == e.clock,
        ready.next_request_id == e.next_request_id + 1,
        job.request_id == ready.next_request_id,
    ensures
        orderly(e, ready.dispatched_call(job)),
        ready.dispatched_call(job).work matches Some(work) ==> work is FrameRequest,
{
    if known(ready, job.request_id) {
        assert(known(e, job.request_id));
        lemma_known_is_given(e, job.request_id);
    }
    match job.framing {
        WireFraming::Jsonrpc => {
            let frame = request_frame(job.call_name, job.request_id, job.body);
            lemma_issued(ready, job, frame);
            assert forall|id: u64| #[trigger] known(ready.issued(job, frame), id) implies known(e, id)
                || e.next_request_id < id by {
                if known(ready, id) {
                    assert(known(e, id));
                }
            }
        },
        WireFraming::Datagram => {
            assert forall|id: u64| #[trigger] known(ready, id) implies known(e, id) by {}
        },
    }
}

proof fn lemma_called(e: EngineView, conn: Seq<char>, fn_name: Seq<char>, params: Json)
    requires
        in_balance(e),
        timed(e),
        e.next_request_id < u64::MAX,
    ensures
        orderly(e, e.called(conn, fn_name, params)),
{
    let ready = e.prepared(conn, fn_name);
    match e.outgoing(conn, fn_name, params) {
        Ok(job) => {
            lemma_dispatched(e, ready, job);
        },
        Err(_) => {
            assert forall|id: u64| #[trigger] known(ready, id) implies known(e, id) by {}
        },
    }
}

proof fn lemma_forward_failed(e: EngineView, cont: ContView)
    requires
        in_balance(e),
        timed(e),
    ensures
        orderly(e, e.forward_failed(cont)),
        e.forward_failed(cont).work matches Some(work) ==> work is FrameReply,
{
    let freed = EngineView { forwarding: e.forwarding.remove(cont.via), ..e };
    let outcome = engine_failure("forward: "@ + cont.via + " has no "@ + cont.target_fn);
    lemma_replied(freed, cont.outer_conn, cont.outer_request_id, outcome);
    let turn = freed.replied(cont.outer_conn, cont.outer_request_id, outcome);
    lemma_quiet_is_orderly(freed, turn);
    lemma_same_books_before(e, freed, turn);
}

/// A turn that is orderly seen from an engine is so from any with the same books
/// and queue, and no higher id given.
proof fn lemma_same_books_before(e: EngineView, ready: EngineView, turn: Turn)
    requires
        orderly(ready, turn),
        ready.results == e.results,
        ready.in_flight == e.in_flight,
        ready.clock == e.clock,
        ready.next_request_id == e.next_request_id || ready.next_request_id == e.next_request_id + 1
            && turn.engine.next_request_id == ready.next_request_id && !(turn.work matches Some(
            WorkView::FrameRequest(_),
        )),
    ensures
        orderly(e, turn),
{
    assert forall|id: u64| #[trigger] known(turn.engine, id) implies known(e, id) || e.next_request_id < id by {
        if known(ready, id) {
            assert(known(e, id));
        }
    }
}

proof fn lemma_forwarded(e: EngineView, cont: ContView, params: Json)
    requires
        in_balance(e),
        timed(e),
        e.next_request_id < u64::MAX,
    ensures
        orderly(e, e.forwarded(cont, params)),
{
    reveal(EngineView::forwarded);
    match e.forward_refusal(cont.via) {
        Some(message) => {
            lemma_replied(e, cont.outer_conn, cont.outer_request_id, engine_failure(message));
            lemma_quiet_is_orderly(e, e.forwarded(cont, params));
        },
        None => {
            let marked = EngineView { forwarding: e.forwarding.insert(cont.via), ..e };
            let ready = marked.prepared(cont.via, cont.target_fn);
            match marked.outgoing(cont.via, cont.target_fn, params) {
                Ok(job) => {
                    lemma_dispatched(e, ready, OutgoingView { cont: Some(cont), ..job });
                },
                Err(_) => {
                    assert(timed(ready));
                    lemma_forward_failed(ready, cont);
                    let freed = EngineView { forwarding: ready.forwarding.remove(cont.via), ..ready };
                    lemma_replied(
                        freed,
                        cont.outer_conn,
                        cont.outer_request_id,
                        engine_failure("forward: "@ + cont.via + " has no "@ + cont.target_fn),
                    );
                    lemma_same_books_before(e, ready, ready.forward_failed(cont));
                },
            }
        },
    }
}

proof fn lemma_served(e: EngineView, conn: Seq<char>, request: Option<RequestView>)
    requires
        in_balance(e),
        timed(e),
        e.next_request_id < u64::MAX,
    ensures
        orderly(e, e.served(conn, request)),
{
    if e.wires.dom().contains(conn) && request is Some {
        let wire = e.wires[conn];
        let req = request->0;
        let ran = EngineView {
            wires: e.wires.insert(
                conn,
                WireView {
                    behaviors: behaviors_after(wire.proto, req.call, req.params, wire.codec, wire.behaviors),
                    ..wire
                },
            ),
            ..e
        };
        let turn = e.served(conn, request);
        assert(quiet(e, ran));
        assert(timed(ran));
        match dispatched(wire.proto, req.call, req.params, wire.codec, wire.behaviors) {
            Ok(StepView::Now(outcome)) => {
                lemma_replied(ran, conn, req.request_id, outcome);
                lemma_quiet_is_orderly(ran, turn);
                lemma_same_books_before(e, ran, turn);
            },
            Ok(StepView::After { delay_ms, outcome }) => {
                lemma_scheduled(
                    ran.clock,
                    delay_ms.micros() as i64,
                    EventView::CompleteReply { conn, request_id: req.request_id, outcome },
                );
                lemma_quiet_is_orderly(e, turn);
            },
            Ok(StepView::Forward { via, target_fn, params }) => {
                lemma_forwarded(
                    ran,
                    ContView { outer_conn: conn, outer_request_id: req.request_id, via, target_fn },
                    params,
                );
                lemma_same_books_before(e, ran, turn);
            },
            _ => {
                lemma_quiet_is_orderly(e, turn);
            },
        }
    } else {
        lemma_quiet_is_orderly(e, e.served(conn, request));
    }
}

proof fn lemma_received(e: EngineView, conn: Seq<char>, response: Option<(u64, EnvelopeView)>)
    requires
        in_balance(e),
        timed(e),
    ensures
        orderly(e, e.received(conn, response)),
        e.received(conn, response).work matches Some(work) ==> work is FrameReply,
{
    if e.wires.dom().contains(conn) && response is Some {
        let (id, envelope) = response->0;
        lemma_settled(e, id, result_of(envelope, e.wires[conn].codec));
    } else {
        lemma_quiet_is_orderly(e, e.received(conn, response));
    }
}

proof fn lemma_stepped(e: EngineView)
    requires
        in_balance(e),
        timed(e),
        e.next_request_id < u64::MAX,
    ensures
        orderly(e, e.stepped()),
{
    if e.clock.queue.len() == 0 {
        lemma_quiet_is_orderly(e, e.stepped());
    } else {
        let queue = e.clock.queue;
        let popped = EngineView { clock: e.clock.popped(), ..e };
        let left = popped.clock.queue;
        let event = queue[0].event;
        assert(left == queue.drop_first());
        assert forall|k: int| 0 <= k < left.len() implies #[trigger] left[k] == queue[k + 1] by {}
        assert(no_more(queue, left)) by {
            assert forall|k: int| 0 <= k < left.len() && timeout_of((#[trigger] left[k]).event) is Some implies queue.contains(
                left[k],
            ) by {
                assert(queue[k + 1] == left[k]);
            }
            assert forall|k: int, l: int|
                0 <= k < l < left.len() && timeout_of((#[trigger] left[k]).event) is Some implies timeout_of(
                left[k].event,
            ) != timeout_of((#[trigger] left[l]).event) by {
                assert(queue[k + 1] == left[k] && queue[l + 1] == left[l]);
            }
        }
        lemma_fired(e, popped);
        match event {
            EventView::Timeout { conn, request_id } => {
                assert(!times_out(left, request_id)) by {
                    if times_out(left, request_id) {
                        let k = choose|k: int|
                            0 <= k < left.len() && timeout_of((#[trigger] left[k]).event) == Some(request_id);
                        assert(queue[k + 1] == left[k]);
                        assert(timeout_of(queue[0].event) == timeout_of(queue[k + 1].event));
                    }
                }
                lemma_timed_out(popped, conn, request_id);
            },
            _ => {
                lemma_applied(popped, event);
            },
        }
        reveal(EngineView::applied);
        lemma_orderly_from(e, popped, e.stepped());
    }
}

proof fn lemma_fired(e: EngineView, popped: EngineView)
    requires
        in_balance(e),
        timed(e),
        popped == (EngineView { clock: popped.clock, ..e }),
        no_more(e.clock.queue, popped.clock.queue),
    ensures
        in_balance(popped),
        timed(popped),
{
    assert forall|k: int| 0 <= k < popped.clock.queue.len() implies (timeout_of(
        (#[trigger] popped.clock.queue[k]).event,
    ) matches Some(id) ==> {
        &&& id <= popped.next_request_id
        &&& !popped.results.dom().contains(id)
        &&& popped.in_flight.contains(id) ==> popped.timeouts.dom().contains(id) && popped.timeouts[id]
            == popped.clock.queue[k].handle
    }) by {
        if timeout_of(popped.clock.queue[k].event) is Some {
            let j = e.clock.queue.index_of(popped.clock.queue[k]);
            assert(e.clock.queue[j] == popped.clock.queue[k]);
        }
    }
}

proof fn lemma_orderly_from(e: EngineView, popped: EngineView, turn: Turn)
    requires
        orderly(popped, turn),
        popped == (EngineView { clock: popped.clock, ..e }),
        no_more(e.clock.queue, popped.clock.queue),
    ensures
        orderly(e, turn),
{
    lemma_no_more_known(e, popped);
    assert(popped.results == e.results && popped.in_flight == e.in_flight);
    assert(popped.next_request_id == e.next_request_id);
    assert forall|id: u64| #[trigger] known(turn.engine, id) implies known(e, id) || e.next_request_id < id by {
        if known(popped, id) {
            assert(known(e, id));
        }
    }
}

proof fn lemma_timed_out(e: EngineView, conn: Seq<char>, id: u64)
    requires
        in_balance(e),
        timed(e),
        !times_out(e.clock.queue, id),
    ensures
        orderly(e, e.timed_out(conn, id)),
{
    if e.in_flight.contains(id) {
        let killed = EngineView { timeouts: e.timeouts.remove(id), ..e.killed(conn) };
        assert(killed.clock == e.clock && killed.results == e.results && killed.in_flight == e.in_flight);
        assert forall|k: int| 0 <= k < killed.clock.queue.len() implies (timeout_of(
            (#[trigger] killed.clock.queue[k]).event,
        ) matches Some(other) ==> {
            &&& other <= killed.next_request_id
            &&& !killed.results.dom().contains(other)
            &&& killed.in_flight.contains(other) ==> killed.timeouts.dom().contains(other) && killed.timeouts[other]
                == killed.clock.queue[k].handle
        }) by {
            assert(e.clock.queue[k] == killed.clock.queue[k]);
            if timeout_of(e.clock.queue[k].event) == Some(id) {
                assert(times_out(e.clock.queue, id));
            }
        }
        assert(timed(killed));
        lemma_settled(killed, id, ResultView::Timeout);
        lemma_same_books_before(e, killed, e.timed_out(conn, id));
    } else {
        lemma_quiet_is_orderly(e, e.timed_out(conn, id));
    }
}

proof fn lemma_applied(e: EngineView, event: EventView)
    requires
        in_balance(e),
        timed(e),
        e.next_request_id < u64::MAX,
        !(event is Timeout),
    ensures
        orderly(e, e.applied(event)),
{
    reveal(EngineView::applied);
    let turn = e.applied(event);
    match event {
        EventView::DeliverToServer { conn, frame } => {
            if e.speaks_datagram(conn) {
                lemma_quiet_is_orderly(e, turn);
            } else {
                lemma_served(e, conn, request_of_frame(frame));
            }
        },
        EventView::DeliverToClient { conn, frame } => {
            if e.speaks_datagram(conn) {
                lemma_quiet_is_orderly(e, turn);
            } else {
                lemma_received(e, conn, response_of_frame(frame));
            }
        },
        EventView::FlushReorder { conn, dir } => {
            if e.wires.dom().contains(conn) {
                lemma_deliveries(e.clock, 0, conn, dir, e.wires[conn].channel.released(e.rng));
            }
            lemma_quiet_is_orderly(e, turn);
        },
        EventView::CompleteReply { conn, request_id, outcome } => {
            lemma_replied(e, conn, request_id, outcome);
            lemma_quiet_is_orderly(e, turn);
        },
        _ => {},
    }
}

// ── acts ────────────────────────────────────────────────────────────────

proof fn lemma_after(run: Run, turn: Turn)
    requires
        run.sound(),
        orderly(run.engine, turn),
    ensures
        run.after(turn).sound(),
{
    let e = run.engine;
    let after = run.after(turn);
    assert forall|i: int| 0 <= i < after.hand.len() implies (#[trigger] after.hand[i] matches WorkView::FrameRequest(
        job,
    ) ==> job.request_id <= after.engine.next_request_id && !known(after.engine, job.request_id)) by {
        if i < run.hand.len() {
            assert(after.hand[i] == run.hand[i]);
        }
    }
    assert forall|i: int, j: int| 0 <= i < j < after.hand.len() implies (
    #[trigger] after.hand[i] matches WorkView::FrameRequest(a) ==> (
    #[trigger] after.hand[j] matches WorkView::FrameRequest(b) ==> a.request_id != b.request_id)) by {
        assert(after.hand[i] == run.hand[i]);
        if j < run.hand.len() {
            assert(after.hand[j] == run.hand[j]);
        }
    }
}

proof fn lemma_held_without(e: EngineView, hand: Seq<WorkView>, i: int)
    requires
        held(e, hand),
        0 <= i < hand.len(),
    ensures
        held(e, hand.remove(i)),
        hand[i] matches WorkView::FrameRequest(job) ==> forall|k: int|
            0 <= k < hand.remove(i).len() ==> (#[trigger] hand.remove(i)[k] matches WorkView::FrameRequest(other)
                ==> other.request_id != job.request_id),
{
    let left = hand.remove(i);
    assert forall|k: int| 0 <= k < left.len() implies #[trigger] left[k] == hand[if k < i {
        k
    } else {
        k + 1
    }] by {}
    assert forall|k: int, l: int| 0 <= k < l < left.len() implies (#[trigger] left[k] matches WorkView::FrameRequest(
        a,
    ) ==> (#[trigger] left[l] matches WorkView::FrameRequest(b) ==> a.request_id != b.request_id)) by {
        let p = if k < i {
            k
        } else {
            k + 1
        };
        let q = if l < i {
            l
        } else {
            l + 1
        };
        assert(left[k] == hand[p] && left[l] == hand[q]);
    }
    if let WorkView::FrameRequest(job) = hand[i] {
        assert forall|k: int| 0 <= k < left.len() implies (#[trigger] left[k] matches WorkView::FrameRequest(other)
            ==> other.request_id != job.request_id) by {
            let p = if k < i {
                k
            } else {
                k + 1
            };
            assert(left[k] == hand[p]);
        }
    }
}

proof fn lemma_answered(run: Run, i: int, reply: Reply)
    requires
        run.sound(),
        run.engine.next_request_id < u64::MAX,
        0 <= i < run.hand.len(),
    ensures
        ({
            let turn = run.engine.answered(run.hand[i], reply);
            let after = Run { hand: run.hand.remove(i), ..run }.after(turn);
            &&& after.sound()
            &&& keeps_results(run.engine, turn.engine)
            &&& turn.engine.next_request_id <= run.engine.next_request_id + 1
        }),
{
    let e = run.engine;
    let work = run.hand[i];
    let turn = e.answered(work, reply);
    let rest = Run { hand: run.hand.remove(i), ..run };
    lemma_held_without(e, run.hand, i);
    match (work, reply) {
        (WorkView::FrameRequest(job), Reply::Frame(Some(frame))) => {
            lemma_issued(e, job, frame);
            assert(held(turn.engine, rest.hand));
        },
        (WorkView::FrameRequest(job), Reply::Frame(None)) => {
            match job.cont {
                Some(cont) => lemma_forward_failed(e, cont),
                None => lemma_quiet_is_orderly(e, turn),
            }
            lemma_after(rest, turn);
        },
        (WorkView::FrameReply { conn, .. }, Reply::Frame(Some(frame))) => {
            lemma_emitted(e, conn, Direction::Response, frame);
            lemma_quiet_is_orderly(e, turn);
            lemma_after(rest, turn);
        },
        (WorkView::DecodeRequest { conn, .. }, Reply::Request(request)) => {
            lemma_served(e, conn, request);
            lemma_after(rest, turn);
        },
        (WorkView::DecodeResponse { conn, .. }, Reply::Response(response)) => {
            lemma_received(e, conn, response);
            lemma_after(rest, turn);
        },
        (WorkView::RunScript { conn, request_id, oneway, .. }, Reply::Script(ran)) => {
            lemma_replied(e, conn, request_id, scripted(oneway, ran));
            lemma_quiet_is_orderly(e, turn);
            lemma_after(rest, turn);
        },
        _ => {
            lemma_quiet_is_orderly(e, turn);
            lemma_after(rest, turn);
        },
    }
}

/// What leaves the books and the queue alone, but for calls that it drops.
proof fn lemma_rewired(run: Run, after: EngineView)
    requires
        run.sound(),
        after.results == run.engine.results,
        after.next_request_id == run.engine.next_request_id,
        after.clock.queue == run.engine.clock.queue,
        after.in_flight == run.engine.in_flight && after.timeouts == run.engine.timeouts || after.in_flight
            == Set::<u64>::empty() && after.timeouts == Map::<u64, u64>::empty(),
    ensures
        (Run { engine: after, ..run }).sound(),
        keeps_results(run.engine, after),
{
    assert forall|id: u64| #[trigger] known(after, id) implies known(run.engine, id) by {}
    assert forall|k: int| 0 <= k < after.clock.queue.len() implies (timeout_of(
        (#[trigger] after.clock.queue[k]).event,
    ) matches Some(id) ==> {
        &&& id <= after.next_request_id
        &&& !after.results.dom().contains(id)
        &&& after.in_flight.contains(id) ==> after.timeouts.dom().contains(id) && after.timeouts[id]
            == after.clock.queue[k].handle
    }) by {
        assert(run.engine.clock.queue[k] == after.clock.queue[k]);
    }
}

proof fn lemma_acted(run: Run, act: Act)
    requires
        run.sound(),
        run.engine.next_request_id < u64::MAX,
    ensures
        run.acted(act).sound(),
        keeps_results(run.engine, run.acted(act).engine),
        run.acted(act).engine.next_request_id <= run.engine.next_request_id + 1,
{
    reveal(Run::acted);
    let e = run.engine;
    match act {
        Act::Call(conn, fn_name, params) => {
            lemma_called(e, conn, fn_name, params);
            lemma_after(run, e.called(conn, fn_name, params));
        },
        Act::Step => {
            lemma_stepped(e);
            lemma_after(run, e.stepped());
        },
        Act::Advance(until) => {
            if e.reaches(until) {
                lemma_stepped(e);
            } else {
                lemma_parked(e, edge_of(until) as i64);
            }
            lemma_after(run, e.advanced_in(until));
        },
        Act::Settle(id, result) => {
            lemma_settled(e, id, result);
            lemma_after(run, e.settled(id, result));
        },
        Act::Answer(i, reply) => {
            if 0 <= i < run.hand.len() {
                lemma_answered(run, i, reply);
            }
        },
        _ => {
            lemma_rewired(run, run.acted(act).engine);
        },
    }
}

proof fn lemma_parked(e: EngineView, instant: i64)
    requires
        in_balance(e),
        timed(e),
    ensures
        orderly(e, Turn { engine: EngineView { clock: e.clock.parked(instant), ..e }, work: None }),
{
    let after = EngineView { clock: e.clock.parked(instant), ..e };
    assert(no_more(e.clock.queue, after.clock.queue));
    lemma_fired(e, after);
    lemma_no_more_known(e, after);
}

// ── the host ────────────────────────────────────────────────────────────

/// How much there is to do about a piece of work, at most.
pub open spec fn rank(work: Option<WorkView>) -> nat {
    match work {
        None => 0,
        Some(WorkView::FrameReply { .. }) => 1,
        Some(WorkView::DecodeRequest { .. }) => 3,
        Some(_) => 2,
    }
}

/// Each answer of the host leaves less to do, so that it has to answer three times
/// at most.
pub proof fn law_the_work_comes_to_an_end(e: EngineView, work: WorkView, reply: Reply)
    ensures
        rank(e.answered(work, reply).work) < rank(Some(work)) <= 3,
{
    match (work, reply) {
        (WorkView::DecodeRequest { conn, .. }, Reply::Request(request)) => {
            reveal(EngineView::forwarded);
        },
        _ => {},
    }
}

/// The engine once the host has seen to the work of a turn. `host` is what it
/// answers a piece of work with.
pub open spec fn carried(turn: Turn, host: spec_fn(WorkView) -> Reply) -> EngineView
    decreases rank(turn.work),
{
    match turn.work {
        None => turn.engine,
        Some(work) => {
            proof {
                law_the_work_comes_to_an_end(turn.engine, work, host(work));
            }
            carried(turn.engine.answered(work, host(work)), host)
        },
    }
}

pub proof fn lemma_carried_time(turn: Turn, host: spec_fn(WorkView) -> Reply)
    ensures
        carried(turn, host).clock.now == turn.engine.clock.now,
    decreases rank(turn.work),
{
    if let Some(work) = turn.work {
        let next = turn.engine.answered(work, host(work));
        law_the_work_comes_to_an_end(turn.engine, work, host(work));
        lemma_answered_time(turn.engine, work, host(work));
        lemma_carried_time(next, host);
    }
}

proof fn lemma_answered_time(e: EngineView, work: WorkView, reply: Reply)
    ensures
        e.answered(work, reply).engine.clock.now == e.clock.now,
{
    match (work, reply) {
        (WorkView::FrameRequest(job), Reply::Frame(Some(frame))) => {
            lemma_emitted(e, job.conn, Direction::Request, frame);
        },
        (WorkView::FrameRequest(job), Reply::Frame(None)) => {
            if let Some(cont) = job.cont {
                lemma_replied(
                    EngineView { forwarding: e.forwarding.remove(cont.via), ..e },
                    cont.outer_conn,
                    cont.outer_request_id,
                    engine_failure("forward: "@ + cont.via + " has no "@ + cont.target_fn),
                );
            }
        },
        (WorkView::FrameReply { conn, .. }, Reply::Frame(Some(frame))) => {
            lemma_emitted(e, conn, Direction::Response, frame);
        },
        (WorkView::DecodeRequest { conn, .. }, Reply::Request(request)) => {
            law_the_host_does_not_move_time(e, conn, request, None, arbitrary(), arbitrary());
        },
        (WorkView::DecodeResponse { conn, .. }, Reply::Response(response)) => {
            law_the_host_does_not_move_time(e, conn, None, response, arbitrary(), arbitrary());
        },
        (WorkView::RunScript { conn, request_id, oneway, .. }, Reply::Script(ran)) => {
            lemma_replied(e, conn, request_id, scripted(oneway, ran));
        },
        _ => {},
    }
}

/// The engine `n` events on. `host` is what the host answers a piece of work with.
pub open spec fn stepped_on(e: EngineView, host: spec_fn(WorkView) -> Reply, n: nat) -> EngineView
    decreases n,
{
    if n == 0 {
        e
    } else {
        stepped_on(carried(e.stepped(), host), host, (n - 1) as nat)
    }
}

// ── windows ─────────────────────────────────────────────────────────────

/// The engine after the first `n` events of a window that ends at `until`, or
/// after all of them where there are no more.
pub open spec fn fired(e: EngineView, until: i64, host: spec_fn(WorkView) -> Reply, n: nat) -> EngineView
    decreases n,
{
    if n == 0 || !e.due_by(until) {
        e
    } else {
        fired(carried(e.stepped(), host), until, host, (n - 1) as nat)
    }
}

/// Whether a window that ends at `until` holds no more than `n` events.
pub open spec fn closes(e: EngineView, until: i64, host: spec_fn(WorkView) -> Reply, n: nat) -> bool {
    !fired(e, until, host, n).due_by(until)
}

/// The engine at the end of a window of no more than `n` events: the clock is
/// parked there.
pub open spec fn window(e: EngineView, until: i64, host: spec_fn(WorkView) -> Reply, n: nat) -> EngineView {
    fired(e, until, host, n).advanced_to(until).engine
}

/// A window ends at its edge, with no event due in it any more.
pub proof fn law_a_window_ends_where_it_should(e: EngineView, until: i64, host: spec_fn(WorkView) -> Reply, n: nat)
    requires
        e.clock.now <= until,
        closes(e, until, host, n),
    ensures
        window(e, until, host, n).clock.now == until,
        !window(e, until, host, n).due_by(until),
    decreases n,
{
    if n > 0 && e.due_by(until) {
        law_time_moves_with_events(e);
        lemma_carried_time(e.stepped(), host);
        law_a_window_ends_where_it_should(carried(e.stepped(), host), until, host, (n - 1) as nat);
    }
}

#[verifier::rlimit(30)]
proof fn lemma_fired_all(e: EngineView, until: i64, host: spec_fn(WorkView) -> Reply, n: nat, more: nat)
    requires
        closes(e, until, host, n),
    ensures
        fired(e, until, host, n + more) == fired(e, until, host, n),
    decreases n,
{
    if n > 0 && e.due_by(until) {
        let next = carried(e.stepped(), host);
        assert(fired(e, until, host, n) == fired(next, until, host, (n - 1) as nat));
        lemma_fired_all(next, until, host, (n - 1) as nat, more);
        assert((n + more - 1) as nat == (n - 1) as nat + more);
        assert(fired(e, until, host, n + more) == fired(next, until, host, (n - 1) as nat + more));
    }
}

/// Parked on the way, the clock comes to the same: the next event is due later.
proof fn lemma_parked_on_the_way(e: EngineView, first: i64, until: i64, host: spec_fn(WorkView) -> Reply, n: nat)
    requires
        first <= until,
        !e.due_by(first),
    ensures
        ({
            let parked = EngineView { clock: e.clock.parked(first), ..e };
            &&& closes(parked, until, host, n) <==> closes(e, until, host, n)
            &&& closes(e, until, host, n) ==> window(parked, until, host, n) == window(e, until, host, n)
        }),
{
    let parked = EngineView { clock: e.clock.parked(first), ..e };
    if n > 0 && e.due_by(until) {
        assert(parked.clock.popped() == e.clock.popped());
        assert(parked.stepped() == e.stepped());
    } else {
        assert(fired(parked, until, host, n) == parked);
        assert(fired(e, until, host, n) == e);
        assert(parked.clock.parked(until) == e.clock.parked(until));
    }
}

/// Two windows in a row come to the same as one: what happens does not depend on
/// how the time is cut up.
pub proof fn law_two_windows_make_one(
    e: EngineView,
    first: i64,
    until: i64,
    host: spec_fn(WorkView) -> Reply,
    n: nat,
    m: nat,
)
    requires
        first <= until,
        closes(e, first, host, n),
        closes(window(e, first, host, n), until, host, m),
    ensures
        closes(e, until, host, n + m),
        window(e, until, host, n + m) == window(window(e, first, host, n), until, host, m),
    decreases n,
{
    if n > 0 && e.due_by(first) {
        let next = carried(e.stepped(), host);
        law_two_windows_make_one(next, first, until, host, (n - 1) as nat, m);
        assert((n - 1) as nat + m == (n + m - 1) as nat);
    } else {
        lemma_parked_on_the_way(e, first, until, host, m);
        lemma_fired_all(e, until, host, m, n);
        assert(m + n == n + m);
    }
}

// ── windows in milliseconds ─────────────────────────────────────────────

/// [`fired`], for a window that ends at `until` milliseconds.
pub open spec fn fired_in(e: EngineView, until: Option<int>, host: spec_fn(WorkView) -> Reply, n: nat) -> EngineView
    decreases n,
{
    if n == 0 || !e.reaches(until) {
        e
    } else {
        fired_in(carried(e.stepped(), host), until, host, (n - 1) as nat)
    }
}

/// [`closes`], for a window that ends at `until` milliseconds.
pub open spec fn closes_in(e: EngineView, until: Option<int>, host: spec_fn(WorkView) -> Reply, n: nat) -> bool {
    !fired_in(e, until, host, n).reaches(until)
}

/// [`window`], for one that ends at `until` milliseconds.
pub open spec fn window_in(e: EngineView, until: Option<int>, host: spec_fn(WorkView) -> Reply, n: nat) -> EngineView {
    fired_in(e, until, host, n).advanced_in(until).engine
}

/// Whether the next event comes at a whole millisecond.
pub open spec fn punctual(e: EngineView) -> bool {
    e.clock.queue.len() > 0 ==> e.clock.queue[0].due % 1000 == 0
}

/// Whether the millisecond `t` is told from the next event by the doubles that stand
/// for them: those of instants up to 2^53 microseconds tell all from each other, those
/// up to 2^56 whole milliseconds.
pub open spec fn tells_apart(e: EngineView, t: nat) -> bool {
    t * 1000 <= 0x20_0000_0000_0000 || (t + 1) * 1000 <= 0x100_0000_0000_0000 && punctual(e)
}

/// [`tells_apart`], for all events to come.
#[verifier::opaque]
pub open spec fn clear_course(e: EngineView, host: spec_fn(WorkView) -> Reply, t: nat) -> bool {
    forall|k: nat| tells_apart(#[trigger] stepped_on(e, host, k), t)
}

/// Up to 2^53 microseconds the course is clear, whenever events come.
pub proof fn law_the_course_is_clear_at_first(e: EngineView, host: spec_fn(WorkView) -> Reply, t: nat)
    requires
        t * 1000 <= 0x20_0000_0000_0000,
    ensures
        clear_course(e, host, t),
{
    reveal(clear_course);
}

proof fn lemma_course_goes_on(e: EngineView, host: spec_fn(WorkView) -> Reply, t: nat)
    requires
        clear_course(e, host, t),
    ensures
        tells_apart(e, t),
        clear_course(carried(e.stepped(), host), host, t),
{
    reveal(clear_course);
    assert(stepped_on(e, host, 0) == e);
    let next = carried(e.stepped(), host);
    assert forall|k: nat| tells_apart(#[trigger] stepped_on(next, host, k), t) by {
        assert(stepped_on(e, host, k + 1) == stepped_on(next, host, k));
    }
}

proof fn lemma_course_fired(e: EngineView, until: i64, host: spec_fn(WorkView) -> Reply, n: nat, t: nat)
    requires
        clear_course(e, host, t),
    ensures
        clear_course(fired(e, until, host, n), host, t),
    decreases n,
{
    if n > 0 && e.due_by(until) {
        lemma_course_goes_on(e, host, t);
        lemma_course_fired(carried(e.stepped(), host), until, host, (n - 1) as nat, t);
    }
}

proof fn lemma_course_parked(e: EngineView, instant: i64, host: spec_fn(WorkView) -> Reply, t: nat)
    requires
        clear_course(e, host, t),
        !e.due_by(instant),
    ensures
        clear_course(EngineView { clock: e.clock.parked(instant), ..e }, host, t),
{
    reveal(clear_course);
    let parked = EngineView { clock: e.clock.parked(instant), ..e };
    assert forall|k: nat| tells_apart(#[trigger] stepped_on(parked, host, k), t) by {
        lemma_parked_course(e, instant, host, k);
        assert(tells_apart(stepped_on(e, host, k), t));
    }
}

proof fn lemma_shorter_course(e: EngineView, host: spec_fn(WorkView) -> Reply, s: nat, t: nat)
    requires
        clear_course(e, host, t),
        s <= t,
    ensures
        clear_course(e, host, s),
{
    reveal(clear_course);
    assert forall|k: nat| tells_apart(#[trigger] stepped_on(e, host, k), s) by {
        assert(tells_apart(stepped_on(e, host, k), t));
    }
}

proof fn lemma_course_windowed(e: EngineView, until: i64, host: spec_fn(WorkView) -> Reply, n: nat, t: nat)
    requires
        clear_course(e, host, t),
        closes(e, until, host, n),
    ensures
        clear_course(window(e, until, host, n), host, t),
{
    lemma_course_fired(e, until, host, n, t);
    lemma_course_parked(fired(e, until, host, n), until, host, t);
}

/// Parked before the next event, the clock sees the same events come.
proof fn lemma_parked_course(e: EngineView, instant: i64, host: spec_fn(WorkView) -> Reply, k: nat)
    requires
        !e.due_by(instant),
    ensures
        stepped_on(EngineView { clock: e.clock.parked(instant), ..e }, host, k).clock.queue == stepped_on(
            e,
            host,
            k,
        ).clock.queue,
    decreases k,
{
    let parked = EngineView { clock: e.clock.parked(instant), ..e };
    if k > 0 {
        if e.clock.queue.len() > 0 {
            assert(parked.clock.popped() == e.clock.popped());
            assert(parked.stepped() == e.stepped());
        } else {
            assert(carried(parked.stepped(), host) == parked);
            assert(carried(e.stepped(), host) == e);
            lemma_parked_course(e, instant, host, (k - 1) as nat);
        }
    }
}

/// A turn in a window that ends at a whole millisecond is one in the window that
/// ends at that instant.
pub proof fn law_a_whole_window(e: EngineView, until: Option<int>, t: nat)
    requires
        until == Some((t * pow2(1074)) as int),
        tells_apart(e, t),
    ensures
        e.reaches(until) == e.due_by((t * 1000) as i64),
        e.advanced_in(until) == e.advanced_to((t * 1000) as i64),
{
    law_whole_milliseconds(t);
    if e.clock.queue.len() > 0 {
        law_whole_windows(e.clock.queue[0].due, until, t);
    }
}

proof fn lemma_fired_in(e: EngineView, until: Option<int>, t: nat, host: spec_fn(WorkView) -> Reply, n: nat)
    requires
        until == Some((t * pow2(1074)) as int),
        clear_course(e, host, t),
    ensures
        fired_in(e, until, host, n) == fired(e, (t * 1000) as i64, host, n),
        closes_in(e, until, host, n) == closes(e, (t * 1000) as i64, host, n),
        window_in(e, until, host, n) == window(e, (t * 1000) as i64, host, n),
    decreases n,
{
    lemma_course_goes_on(e, host, t);
    law_a_whole_window(e, until, t);
    if n > 0 && e.reaches(until) {
        lemma_fired_in(carried(e.stepped(), host), until, t, host, (n - 1) as nat);
    }
    lemma_course_fired(e, (t * 1000) as i64, host, n, t);
    lemma_course_goes_on(fired(e, (t * 1000) as i64, host, n), host, t);
    law_a_whole_window(fired(e, (t * 1000) as i64, host, n), until, t);
}

/// From the millisecond `a`, a window of `b` milliseconds ends at `a` + `b`, with no
/// event left that is due by then.
pub proof fn law_a_window_of_milliseconds(
    e: EngineView,
    ms: Option<int>,
    until: Option<int>,
    a: nat,
    b: nat,
    host: spec_fn(WorkView) -> Reply,
    n: nat,
)
    requires
        e.clock.now == a * 1000,
        ms == Some((b * pow2(1074)) as int),
        until == window_from(e.clock.now, ms),
        clear_course(e, host, a + b),
        closes_in(e, until, host, n),
    ensures
        window_in(e, until, host, n).clock.now == (a + b) * 1000,
        !window_in(e, until, host, n).due_by(((a + b) * 1000) as i64),
{
    lemma_course_goes_on(e, host, a + b);
    law_whole_windows_add_up(e.clock.now, ms, a, b);
    lemma_fired_in(e, until, a + b, host, n);
    law_a_window_ends_where_it_should(e, ((a + b) * 1000) as i64, host, n);
}

/// From the millisecond `a`, windows of `b` and of `c` milliseconds, one after the
/// other, come to the same as one of `b` + `c`: the same time, the same results,
/// the same frames, and the same events still to come.
pub proof fn law_windows_of_milliseconds_add_up(
    e: EngineView,
    first: Option<int>,
    until: Option<int>,
    a: nat,
    b: nat,
    c: nat,
    host: spec_fn(WorkView) -> Reply,
    n: nat,
    m: nat,
)
    requires
        e.clock.now == a * 1000,
        first == Some(((a + b) * pow2(1074)) as int),
        until == Some(((a + b + c) * pow2(1074)) as int),
        clear_course(e, host, a + b + c),
        closes_in(e, first, host, n),
        closes_in(window_in(e, first, host, n), until, host, m),
    ensures
        closes_in(e, until, host, n + m),
        window_in(e, until, host, n + m) == window_in(window_in(e, first, host, n), until, host, m),
{
    let edge = ((a + b) * 1000) as i64;
    let end = ((a + b + c) * 1000) as i64;
    lemma_course_goes_on(e, host, a + b + c);
    assert((a + b + c) * 1000 <= 0x100_0000_0000_0000);
    lemma_shorter_course(e, host, a + b, a + b + c);
    lemma_fired_in(e, first, a + b, host, n);
    lemma_course_windowed(e, edge, host, n, a + b + c);
    let between = window(e, edge, host, n);
    assert(window_in(e, first, host, n) == between);
    lemma_fired_in(between, until, a + b + c, host, m);
    lemma_fired_in(e, until, a + b + c, host, n + m);
    law_two_windows_make_one(e, edge, end, host, n, m);
}

} // verus!

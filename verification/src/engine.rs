//! The engine: many connections over one shared discrete-event clock, each a
//! tapped [`Channel`], a [`GenericDispatch`] and its behaviour map. A call
//! schedules a request-delivery event and settles later: [`Engine::result`]
//! reads it.
//!
//! Cross-connection `forward` relays through a continuation map keyed by the
//! inner call's request id, with a `forwarding` set as the cycle guard.
//!
//! A call with no reply inside its connection's timeout window settles as
//! [`CallResult::Timeout`] and the wire goes [`dead`](Engine::connection_dead):
//! reopen it with [`Engine::rebuild`].
//!
//! JSON-RPC frames are made and read here. Datagram frames and handshakes are the
//! runtime's: where one has to be made or read the engine hands out a [`Work`],
//! and goes on with what the host brings back.

use std::collections::{HashMap, HashSet};
use serde_json::Value;
use vstd::prelude::*;
use vstd::std_specs::hash::*;
use crate::arith::{comes_by, edge_of, window_from};
use crate::behavior::{
    script_answer, script_run, scripted, BehaviorKind, BehaviorStep, HandlerView, OutcomeView, SimOutcome, StepView,
};
use crate::clock::{next_number, number_after, Clock, Schedule};
use crate::contract::{maybe_request, maybe_response, Envelope, EnvelopeView, Request, RequestView, RuntimeError};
use crate::dict::{in_order, views, Copied, Dict};
use crate::double::Double;
use crate::faults::{Direction, FaultSpec};
use crate::format::Codec;
use crate::frame::{maybe_text, Frame, Tap};
use crate::framing::{
    err_members, jsonrpc_decode_request, jsonrpc_decode_response, jsonrpc_encode_request, jsonrpc_encode_response_err,
    jsonrpc_encode_response_ok, low16, object_text, ok_members, reads_request, reads_response, request_frame,
    request_of_frame, response_of_frame, value_text, WireFraming,
};
use crate::generic::{behaviors_after, dispatched, BehaviorMap, GenericDispatch};
use crate::json;
use crate::json::{content, max_depth, Json};
use crate::laws::{in_balance, keeps_results};
use crate::model::{Connection, ConnectionView, FramingChoice, Instance, InstanceView, Session, SessionView};
use crate::rng::Mulberry32;
use crate::runs::{law_a_settled_call_waits_no_more, timed, times_out};
use crate::shape::{
    find_protocol, FnView, Framing as ShapeFraming, ProtocolShape, ProtocolView, SchemaShape, SchemaView,
};
use crate::text::{joined, number_in, read_number, same_text};
use crate::wire::{delay_micros, Channel, ChannelView, Fate, SendOutcome, REORDER_FLUSH};

verus! {

broadcast use group_hash_axioms;

// ── what the engine is made of ──────────────────────────────────────────

/// What a settled call produced.
#[derive(Debug, PartialEq)]
pub enum CallResult {
    /// A decoded success value.
    Success(Value),
    /// A raised schema error: its schema-global `ordinal` and decoded `body`.
    Failure { ordinal: u16, body: Value },
    /// The response frame arrived but its body would not decode, e.g. a
    /// corrupted wire. The call never gets a clean value.
    Undecodable(String),
    /// No reply within the connection's call-timeout window. The wire is left
    /// `dead`: see [`Engine::connection_dead`].
    Timeout,
}

/// What a [`CallResult`] holds.
#[verifier::ext_equal]
pub ghost enum ResultView {
    Success(Json),
    Failure { ordinal: u16, body: Json },
    Undecodable(Seq<char>),
    Timeout,
}

impl View for CallResult {
    type V = ResultView;

    open spec fn view(&self) -> ResultView {
        match self {
            CallResult::Success(value) => ResultView::Success(content(*value)),
            CallResult::Failure { ordinal, body } => ResultView::Failure { ordinal: *ordinal, body: content(*body) },
            CallResult::Undecodable(message) => ResultView::Undecodable(message@),
            CallResult::Timeout => ResultView::Timeout,
        }
    }
}

impl Copied for CallResult {
    fn copied(&self) -> (r: Self) {
        match self {
            CallResult::Success(value) => CallResult::Success(value.clone()),
            CallResult::Failure { ordinal, body } => CallResult::Failure { ordinal: *ordinal, body: body.clone() },
            CallResult::Undecodable(message) => CallResult::Undecodable(message.clone()),
            CallResult::Timeout => CallResult::Timeout,
        }
    }
}

impl Clone for CallResult {
    fn clone(&self) -> (r: Self)
        ensures
            r@ == self@,
    {
        self.copied()
    }
}

/// A scheduled step of the simulation, tagged with the connection it belongs to.
pub enum Event {
    DeliverToServer { conn: String, frame: Vec<u8> },
    DeliverToClient { conn: String, frame: Vec<u8> },
    FlushReorder { conn: String, dir: Direction },
    CompleteReply { conn: String, request_id: u64, outcome: SimOutcome },
    /// A call's timeout window elapsed. If it hasn't settled, it times out and
    /// its wire goes `dead`.
    Timeout { conn: String, request_id: u64 },
}

/// What an [`Event`] holds.
#[verifier::ext_equal]
pub ghost enum EventView {
    DeliverToServer { conn: Seq<char>, frame: Seq<u8> },
    DeliverToClient { conn: Seq<char>, frame: Seq<u8> },
    FlushReorder { conn: Seq<char>, dir: Direction },
    CompleteReply { conn: Seq<char>, request_id: u64, outcome: OutcomeView },
    Timeout { conn: Seq<char>, request_id: u64 },
}

impl View for Event {
    type V = EventView;

    open spec fn view(&self) -> EventView {
        match self {
            Event::DeliverToServer { conn, frame } => EventView::DeliverToServer { conn: conn@, frame: frame@ },
            Event::DeliverToClient { conn, frame } => EventView::DeliverToClient { conn: conn@, frame: frame@ },
            Event::FlushReorder { conn, dir } => EventView::FlushReorder { conn: conn@, dir: *dir },
            Event::CompleteReply { conn, request_id, outcome } => EventView::CompleteReply {
                conn: conn@,
                request_id: *request_id,
                outcome: outcome@,
            },
            Event::Timeout { conn, request_id } => EventView::Timeout { conn: conn@, request_id: *request_id },
        }
    }
}

/// One live connection.
pub struct Wire {
    pub channel: Channel,
    pub dispatch: GenericDispatch,
    pub behaviors: BehaviorMap,
    pub client_id: String,
    pub server_id: String,
    pub client_name: String,
    pub server_name: String,
    pub framing: WireFraming,
    pub codec: Codec,
    /// `None` when connected; otherwise why it was refused (`"handshake"` for a
    /// version / framing / wire-format mismatch).
    pub error: Option<String>,
    /// How long a call on this wire waits for its reply before timing out.
    /// Zero = wait forever.
    pub timeout_ms: Double,
    /// Set once a call has timed out: the client half is desynced, every later
    /// call fails fast until the connection is reopened.
    pub dead: bool,
}

/// What a [`Wire`] holds.
#[verifier::ext_equal]
pub ghost struct WireView {
    pub channel: ChannelView,
    pub proto: ProtocolView,
    pub behaviors: Map<Seq<char>, HandlerView>,
    pub client_id: Seq<char>,
    pub server_id: Seq<char>,
    pub client_name: Seq<char>,
    pub server_name: Seq<char>,
    pub framing: WireFraming,
    pub codec: Codec,
    pub error: Option<Seq<char>>,
    pub timeout_ms: Double,
    pub dead: bool,
}

impl View for Wire {
    type V = WireView;

    open spec fn view(&self) -> WireView {
        WireView {
            channel: self.channel@,
            proto: self.dispatch.proto@,
            behaviors: self.behaviors@,
            client_id: self.client_id@,
            server_id: self.server_id@,
            client_name: self.client_name@,
            server_name: self.server_name@,
            framing: self.framing,
            codec: self.codec,
            error: maybe_text(self.error),
            timeout_ms: self.timeout_ms,
            dead: self.dead,
        }
    }
}

/// A forwarded call in flight: when the inner call settles, answer the outer one.
pub struct ForwardCont {
    pub outer_conn: String,
    pub outer_request_id: u64,
    pub via: String,
    pub target_fn: String,
}

/// What a [`ForwardCont`] holds.
#[verifier::ext_equal]
pub ghost struct ContView {
    pub outer_conn: Seq<char>,
    pub outer_request_id: u64,
    pub via: Seq<char>,
    pub target_fn: Seq<char>,
}

impl View for ForwardCont {
    type V = ContView;

    open spec fn view(&self) -> ContView {
        ContView {
            outer_conn: self.outer_conn@,
            outer_request_id: self.outer_request_id,
            via: self.via@,
            target_fn: self.target_fn@,
        }
    }
}

/// A call that has its id and its encoded params, and waits for its frame.
pub struct Outgoing {
    pub conn: String,
    /// The function, by its place in the protocol.
    pub call_id: u16,
    /// The function, by its name.
    pub call_name: String,
    pub request_id: u64,
    /// The encoded params.
    pub body: Vec<u8>,
    pub framing: WireFraming,
    pub one_way: bool,
    pub timeout_ms: Double,
    /// The call to answer with what comes back, where this one is forwarded.
    pub cont: Option<ForwardCont>,
}

/// What an [`Outgoing`] holds.
#[verifier::ext_equal]
pub ghost struct OutgoingView {
    pub conn: Seq<char>,
    pub call_id: u16,
    pub call_name: Seq<char>,
    pub request_id: u64,
    pub body: Seq<u8>,
    pub framing: WireFraming,
    pub one_way: bool,
    pub timeout_ms: Double,
    pub cont: Option<ContView>,
}

impl View for Outgoing {
    type V = OutgoingView;

    open spec fn view(&self) -> OutgoingView {
        OutgoingView {
            conn: self.conn@,
            call_id: self.call_id,
            call_name: self.call_name@,
            request_id: self.request_id,
            body: self.body@,
            framing: self.framing,
            one_way: self.one_way,
            timeout_ms: self.timeout_ms,
            cont: match self.cont {
                Some(cont) => Some(cont@),
                None => None,
            },
        }
    }
}

/// What the host is asked for: a datagram frame to be read, or to be made, or a
/// script to be run.
pub enum Work {
    /// Decode this request frame, then [`Engine::request_decoded`].
    DecodeRequest { conn: String, frame: Vec<u8> },
    /// Decode this response frame, then [`Engine::response_decoded`].
    DecodeResponse { conn: String, frame: Vec<u8> },
    /// Make the frame of this request, then [`Engine::request_framed`].
    FrameRequest(Outgoing),
    /// Make the frame of this response, then [`Engine::reply_framed`].
    FrameReply { conn: String, request_id: u64, envelope: Envelope },
    /// Run this script on the params of a call, then [`Engine::script_ran`].
    RunScript { conn: String, request_id: u64, source: String, params: Value, oneway: bool },
}

/// What a [`Work`] holds.
#[verifier::ext_equal]
pub ghost enum WorkView {
    DecodeRequest { conn: Seq<char>, frame: Seq<u8> },
    DecodeResponse { conn: Seq<char>, frame: Seq<u8> },
    FrameRequest(OutgoingView),
    FrameReply { conn: Seq<char>, request_id: u64, envelope: EnvelopeView },
    RunScript { conn: Seq<char>, request_id: u64, source: Seq<char>, params: Json, oneway: bool },
}

impl View for Work {
    type V = WorkView;

    open spec fn view(&self) -> WorkView {
        match self {
            Work::DecodeRequest { conn, frame } => WorkView::DecodeRequest { conn: conn@, frame: frame@ },
            Work::DecodeResponse { conn, frame } => WorkView::DecodeResponse { conn: conn@, frame: frame@ },
            Work::FrameRequest(job) => WorkView::FrameRequest(job@),
            Work::FrameReply { conn, request_id, envelope } => WorkView::FrameReply {
                conn: conn@,
                request_id: *request_id,
                envelope: envelope@,
            },
            Work::RunScript { conn, request_id, source, params, oneway } => WorkView::RunScript {
                conn: conn@,
                request_id: *request_id,
                source: source@,
                params: content(*params),
                oneway: *oneway,
            },
        }
    }
}

/// What an optional piece of work holds.
pub open spec fn maybe_work(w: Option<Work>) -> Option<WorkView> {
    match w {
        Some(work) => Some(work@),
        None => None,
    }
}

/// What one step of the engine came to.
pub enum Step {
    /// The queue was empty.
    Idle,
    /// An event fired, and all that it came to is done.
    Done,
    /// An event fired, and the host is asked for something.
    Ask(Work),
}

/// What a [`Step`] holds.
#[verifier::ext_equal]
pub ghost enum StepOutcome {
    Idle,
    Done,
    Ask(WorkView),
}

impl View for Step {
    type V = StepOutcome;

    open spec fn view(&self) -> StepOutcome {
        match self {
            Step::Idle => StepOutcome::Idle,
            Step::Done => StepOutcome::Done,
            Step::Ask(work) => StepOutcome::Ask(work@),
        }
    }
}

/// Whether a call is on the wire, or waits for its datagram frame.
pub enum Called {
    /// The request is on the wire, under this id.
    Sent(u64),
    /// Make the frame of this request, then [`Engine::request_framed`].
    Frame(Outgoing),
}

/// What a [`Called`] holds.
#[verifier::ext_equal]
pub ghost enum CalledView {
    Sent(u64),
    Frame(OutgoingView),
}

impl View for Called {
    type V = CalledView;

    open spec fn view(&self) -> CalledView {
        match self {
            Called::Sent(id) => CalledView::Sent(*id),
            Called::Frame(job) => CalledView::Frame(job@),
        }
    }
}

/// What the outcome of a call holds.
pub open spec fn called_view(r: Result<Called, RuntimeError>) -> Result<CalledView, RuntimeError> {
    match r {
        Ok(called) => Ok(called@),
        Err(e) => Err(e),
    }
}

/// The two handshake frames of a connection, made by the host.
pub struct Greeting {
    pub client: Vec<u8>,
    pub server: Vec<u8>,
}

/// What a [`Greeting`] holds.
#[verifier::ext_equal]
pub ghost struct GreetingView {
    pub client: Seq<u8>,
    pub server: Seq<u8>,
}

impl View for Greeting {
    type V = GreetingView;

    open spec fn view(&self) -> GreetingView {
        GreetingView { client: self.client@, server: self.server@ }
    }
}

/// What goes into the two handshake frames of a connection.
#[derive(Debug, PartialEq)]
pub struct GreetingPlan {
    pub client_hash: u64,
    pub server_hash: u64,
    pub codec: Codec,
    pub framing: WireFraming,
}

/// A read-only view of one live connection.
pub struct WireInfo<'a> {
    pub client_id: &'a str,
    pub server_id: &'a str,
    pub client_name: &'a str,
    pub server_name: &'a str,
    pub fn_names: Vec<&'a str>,
    pub framing: WireFraming,
    pub codec: Codec,
    pub error: Option<&'a str>,
    pub dead: bool,
}

pub struct Engine {
    pub clock: Clock<Event>,
    pub rng: Mulberry32,
    pub wires: Dict<Wire>,
    pub next_request_id: u64,
    pub results: HashMap<u64, CallResult>,
    pub forwards: HashMap<u64, ForwardCont>,
    /// The connections that a forwarded call is in flight on.
    pub forwarding: Dict<bool>,
    /// Requests issued and not yet settled: the timeout only fires for these.
    pub in_flight: HashSet<u64>,
    /// Request id → the clock handle of its pending timeout, so settling a call
    /// early cancels it (otherwise a far-future timeout keeps the sim "busy").
    pub timeouts: HashMap<u64, u64>,
}

/// What an [`Engine`] holds.
#[verifier::ext_equal]
pub ghost struct EngineView {
    pub clock: Schedule<EventView>,
    pub rng: u32,
    pub wires: Map<Seq<char>, WireView>,
    pub next_request_id: u64,
    pub results: Map<u64, ResultView>,
    pub forwards: Map<u64, ContView>,
    pub forwarding: Set<Seq<char>>,
    pub in_flight: Set<u64>,
    pub timeouts: Map<u64, u64>,
}

impl View for Engine {
    type V = EngineView;

    open spec fn view(&self) -> EngineView {
        EngineView {
            clock: self.clock@,
            rng: self.rng@,
            wires: self.wires@,
            next_request_id: self.next_request_id,
            results: self.results@.map_values(|r: CallResult| r@),
            forwards: self.forwards@.map_values(|c: ForwardCont| c@),
            forwarding: self.forwarding@.dom(),
            in_flight: self.in_flight@,
            timeouts: self.timeouts@,
        }
    }
}

// ── what the engine does ────────────────────────────────────────────────

/// What a piece of the engine's work leaves: the engine, and what the host is
/// asked for.
#[verifier::ext_equal]
pub ghost struct Turn {
    pub engine: EngineView,
    pub work: Option<WorkView>,
}

/// The event that a frame travelling in `dir` turns into.
pub open spec fn delivery(conn: Seq<char>, dir: Direction, frame: Seq<u8>) -> EventView {
    match dir {
        Direction::Request => EventView::DeliverToServer { conn, frame },
        Direction::Response => EventView::DeliverToClient { conn, frame },
    }
}

/// The clock with the delivery of each of `frames` queued, in this order.
pub open spec fn deliveries(
    clock: Schedule<EventView>,
    delay: i64,
    conn: Seq<char>,
    dir: Direction,
    frames: Seq<Seq<u8>>,
) -> Schedule<EventView>
    decreases frames.len(),
{
    if frames.len() == 0 {
        clock
    } else {
        deliveries(clock, delay, conn, dir, frames.drop_last()).scheduled(
            delay,
            delivery(conn, dir, frames.last()),
        )
    }
}

/// The value of an error that the engine itself answers with.
pub open spec fn error_body(message: Seq<char>) -> Json {
    Json::single("error"@, Json::Text(message))
}

/// A failure that the engine itself answers with.
pub open spec fn engine_failure(message: Seq<char>) -> OutcomeView {
    OutcomeView::Failure { ordinal: 0, data: error_body(message) }
}

/// The JSON-RPC frame of a response.
pub open spec fn jsonrpc_response(request_id: u64, envelope: EnvelopeView) -> Seq<u8> {
    match envelope {
        EnvelopeView::Success(payload) => object_text(ok_members(request_id, payload)),
        EnvelopeView::Failure { id, body } => object_text(err_members(request_id, id, body)),
    }
}

/// An outcome in the envelope of a response: none where there is nothing to send,
/// or the value does not encode.
pub open spec fn enveloped(outcome: OutcomeView, codec: Codec) -> Option<EnvelopeView> {
    match outcome {
        OutcomeView::Success(value) => match codec.encoded(value) {
            Some(body) => Some(EnvelopeView::Success(body)),
            None => None,
        },
        OutcomeView::Failure { ordinal, data } => match codec.encoded(data) {
            Some(body) => Some(EnvelopeView::Failure { id: ordinal, body }),
            None => None,
        },
        OutcomeView::Nothing => None,
    }
}

/// What a response comes to at the client.
pub open spec fn result_of(envelope: EnvelopeView, codec: Codec) -> ResultView {
    match envelope {
        EnvelopeView::Success(payload) => match codec.decoded(payload) {
            Some(value) => ResultView::Success(value),
            None => ResultView::Undecodable("ok body did not decode"@),
        },
        EnvelopeView::Failure { id, body } => ResultView::Failure {
            ordinal: id,
            body: if body.len() == 0 {
                Json::Null
            } else {
                match codec.decoded(body) {
                    Some(value) => value,
                    None => Json::Null,
                }
            },
        },
    }
}

/// What the outer call of a forward is answered with, when the inner one comes to
/// `result`.
pub open spec fn relayed(result: ResultView) -> OutcomeView {
    match result {
        ResultView::Success(value) => OutcomeView::Success(value),
        ResultView::Failure { ordinal, body } => OutcomeView::Failure { ordinal, data: body },
        ResultView::Undecodable(message) => engine_failure(message),
        ResultView::Timeout => engine_failure("forward: upstream timed out"@),
    }
}

impl EngineView {
    /// The engine at the start.
    pub open spec fn fresh() -> EngineView {
        EngineView {
            clock: Schedule { now: 0, seq: 0, queue: Seq::empty() },
            rng: 1,
            wires: Map::empty(),
            next_request_id: 0,
            results: Map::empty(),
            forwards: Map::empty(),
            forwarding: Set::empty(),
            in_flight: Set::empty(),
            timeouts: Map::empty(),
        }
    }

    /// With a frame in `dir` handed to the channel of `conn`, and what the channel
    /// decided scheduled.
    pub open spec fn emitted(self, conn: Seq<char>, dir: Direction, frame: Seq<u8>) -> EngineView {
        if !self.wires.dom().contains(conn) {
            self
        } else {
            let wire = self.wires[conn];
            let sent = wire.channel.sent(dir, frame, self.clock.millis(), self.rng);
            EngineView {
                wires: self.wires.insert(conn, WireView { channel: sent.channel, ..wire }),
                rng: sent.rng,
                clock: match sent.fate {
                    Fate::Dropped => self.clock,
                    Fate::Deliver { frames, delay } => deliveries(self.clock, delay_micros(delay), conn, dir, frames),
                    Fate::Buffered { schedule_flush } => if schedule_flush {
                        self.clock.scheduled(REORDER_FLUSH, EventView::FlushReorder { conn, dir })
                    } else {
                        self.clock
                    },
                },
                ..self
            }
        }
    }

    /// Why a call of `fn_name` on `conn` is refused before it gets an id.
    pub open spec fn call_refusal(self, conn: Seq<char>, fn_name: Seq<char>) -> Option<RuntimeError> {
        if !self.wires.dom().contains(conn) {
            Some(RuntimeError::Transport)
        } else if self.wires[conn].error is Some {
            Some(RuntimeError::Handshake)
        } else if self.wires[conn].dead {
            Some(RuntimeError::Timeout)
        } else if self.wires[conn].proto.function(fn_name) is None {
            Some(RuntimeError::UnknownCall)
        } else {
            None
        }
    }

    /// With the next request id taken.
    pub open spec fn numbered(self) -> EngineView {
        EngineView { next_request_id: next_number(self.next_request_id), ..self }
    }

    /// The call of `fn_name` on `conn` with `params`, or why there is none.
    pub open spec fn outgoing(self, conn: Seq<char>, fn_name: Seq<char>, params: Json) -> Result<
        OutgoingView,
        RuntimeError,
    > {
        match self.call_refusal(conn, fn_name) {
            Some(e) => Err(e),
            None => {
                let wire = self.wires[conn];
                let function = wire.proto.function(fn_name)->0;
                match wire.codec.encoded(params) {
                    None => Err(RuntimeError::Serialization),
                    Some(body) => Ok(
                        OutgoingView {
                            conn,
                            call_id: low16(function.index as int),
                            call_name: fn_name,
                            request_id: next_number(self.next_request_id),
                            body,
                            framing: wire.framing,
                            one_way: function.oneway,
                            timeout_ms: wire.timeout_ms,
                            cont: None,
                        },
                    ),
                }
            },
        }
    }

    /// After a call was prepared: its id is taken, unless it was refused before.
    pub open spec fn prepared(self, conn: Seq<char>, fn_name: Seq<char>) -> EngineView {
        if self.call_refusal(conn, fn_name) is Some {
            self
        } else {
            self.numbered()
        }
    }

    /// With the frame of a call on the wire: a one-way call has its result at
    /// once, any other is in flight, under its timeout where there is one.
    pub open spec fn issued(self, job: OutgoingView, frame: Seq<u8>) -> EngineView {
        let sent = self.emitted(job.conn, Direction::Request, frame);
        let id = job.request_id;
        let booked = if job.one_way {
            EngineView { results: sent.results.insert(id, ResultView::Success(Json::Null)), ..sent }
        } else if job.timeout_ms.positive() {
            EngineView {
                in_flight: sent.in_flight.insert(id),
                clock: sent.clock.scheduled(
                    job.timeout_ms.micros() as i64,
                    EventView::Timeout { conn: job.conn, request_id: id },
                ),
                timeouts: sent.timeouts.insert(id, next_number(sent.clock.seq)),
                ..sent
            }
        } else {
            EngineView { in_flight: sent.in_flight.insert(id), ..sent }
        };
        match job.cont {
            Some(cont) => EngineView { forwards: booked.forwards.insert(id, cont), ..booked },
            None => booked,
        }
    }

    /// What a prepared call comes to: on a JSON-RPC wire the request goes out, on
    /// a datagram wire the host is asked for the frame.
    pub open spec fn dispatched_call(self, job: OutgoingView) -> Turn {
        match job.framing {
            WireFraming::Jsonrpc => Turn {
                engine: self.issued(job, request_frame(job.call_name, job.request_id, job.body)),
                work: None,
            },
            WireFraming::Datagram => Turn { engine: self, work: Some(WorkView::FrameRequest(job)) },
        }
    }

    /// What an answer to `request_id` on `conn` comes to.
    pub open spec fn replied(self, conn: Seq<char>, request_id: u64, outcome: OutcomeView) -> Turn {
        if !self.wires.dom().contains(conn) {
            Turn { engine: self, work: None }
        } else {
            let wire = self.wires[conn];
            match enveloped(outcome, wire.codec) {
                None => Turn { engine: self, work: None },
                Some(envelope) => match wire.framing {
                    WireFraming::Jsonrpc => Turn {
                        engine: self.emitted(conn, Direction::Response, jsonrpc_response(request_id, envelope)),
                        work: None,
                    },
                    WireFraming::Datagram => Turn {
                        engine: self,
                        work: Some(WorkView::FrameReply { conn, request_id, envelope }),
                    },
                },
            }
        }
    }

    /// Without `request_id` in flight, and without its timeout.
    pub open spec fn landed(self, request_id: u64) -> EngineView {
        EngineView {
            in_flight: self.in_flight.remove(request_id),
            clock: if self.timeouts.dom().contains(request_id) {
                self.clock.cancelled(self.timeouts[request_id])
            } else {
                self.clock
            },
            timeouts: self.timeouts.remove(request_id),
            ..self
        }
    }

    /// What the settlement of a call comes to: the forward that waits on it goes
    /// on, or the result is recorded. A call that is not in flight is left alone.
    pub open spec fn settled(self, request_id: u64, result: ResultView) -> Turn {
        if !self.in_flight.contains(request_id) {
            Turn { engine: self, work: None }
        } else {
            let landed = self.landed(request_id);
            if landed.forwards.dom().contains(request_id) {
                let cont = landed.forwards[request_id];
                EngineView {
                    forwards: landed.forwards.remove(request_id),
                    forwarding: landed.forwarding.remove(cont.via),
                    ..landed
                }.replied(cont.outer_conn, cont.outer_request_id, relayed(result))
            } else {
                Turn {
                    engine: EngineView { results: landed.results.insert(request_id, result), ..landed },
                    work: None,
                }
            }
        }
    }

    /// With the wire of `conn` dead.
    pub open spec fn killed(self, conn: Seq<char>) -> EngineView {
        if self.wires.dom().contains(conn) {
            EngineView {
                wires: self.wires.insert(conn, WireView { dead: true, ..self.wires[conn] }),
                ..self
            }
        } else {
            self
        }
    }

    /// What the end of a timeout window comes to: a call still in flight times
    /// out, and its wire is dead.
    pub open spec fn timed_out(self, conn: Seq<char>, request_id: u64) -> Turn {
        if !self.in_flight.contains(request_id) {
            Turn { engine: self, work: None }
        } else {
            EngineView { timeouts: self.timeouts.remove(request_id), ..self.killed(conn) }.settled(
                request_id,
                ResultView::Timeout,
            )
        }
    }

    /// Why a call cannot be forwarded on `via`.
    pub open spec fn forward_refusal(self, via: Seq<char>) -> Option<Seq<char>> {
        if !self.wires.dom().contains(via) {
            Some("forward: no connection "@ + via)
        } else {
            match self.wires[via].error {
                Some(error) => Some("forward: "@ + via + " refused ("@ + error + ")"@),
                None => if self.forwarding.contains(via) {
                    Some("forwarding cycle"@)
                } else {
                    None
                },
            }
        }
    }

    /// What a forward that found no function to call is answered with.
    pub open spec fn forward_failed(self, cont: ContView) -> Turn {
        EngineView { forwarding: self.forwarding.remove(cont.via), ..self }.replied(
            cont.outer_conn,
            cont.outer_request_id,
            engine_failure("forward: "@ + cont.via + " has no "@ + cont.target_fn),
        )
    }

    /// What a forward of a call comes to: the inner call goes out, or the outer
    /// one is answered with why not.
    #[verifier::opaque]
    pub open spec fn forwarded(self, cont: ContView, params: Json) -> Turn {
        match self.forward_refusal(cont.via) {
            Some(message) => self.replied(cont.outer_conn, cont.outer_request_id, engine_failure(message)),
            None => {
                let marked = EngineView { forwarding: self.forwarding.insert(cont.via), ..self };
                let ready = marked.prepared(cont.via, cont.target_fn);
                match marked.outgoing(cont.via, cont.target_fn, params) {
                    Ok(job) => ready.dispatched_call(OutgoingView { cont: Some(cont), ..job }),
                    Err(_) => ready.forward_failed(cont),
                }
            },
        }
    }

    /// What a request at the server end of `conn` comes to. A frame that did not
    /// decode, a call that is unknown, and params that do not decode, get no
    /// answer.
    pub open spec fn served(self, conn: Seq<char>, request: Option<RequestView>) -> Turn {
        if !self.wires.dom().contains(conn) || request is None {
            Turn { engine: self, work: None }
        } else {
            let wire = self.wires[conn];
            let req = request->0;
            let ran = EngineView {
                wires: self.wires.insert(
                    conn,
                    WireView {
                        behaviors: behaviors_after(wire.proto, req.call, req.params, wire.codec, wire.behaviors),
                        ..wire
                    },
                ),
                ..self
            };
            match dispatched(wire.proto, req.call, req.params, wire.codec, wire.behaviors) {
                Err(_) => Turn { engine: ran, work: None },
                Ok(StepView::Now(outcome)) => ran.replied(conn, req.request_id, outcome),
                Ok(StepView::After { delay_ms, outcome }) => Turn {
                    engine: EngineView {
                        clock: ran.clock.scheduled(
                            delay_ms.micros() as i64,
                            EventView::CompleteReply { conn, request_id: req.request_id, outcome },
                        ),
                        ..ran
                    },
                    work: None,
                },
                Ok(StepView::Hang) => Turn { engine: ran, work: None },
                Ok(StepView::Forward { via, target_fn, params }) => ran.forwarded(
                    ContView { outer_conn: conn, outer_request_id: req.request_id, via, target_fn },
                    params,
                ),
                Ok(StepView::Script { source, params, oneway }) => Turn {
                    engine: ran,
                    work: Some(WorkView::RunScript { conn, request_id: req.request_id, source, params, oneway }),
                },
            }
        }
    }

    /// What a response at the client end of `conn` comes to.
    pub open spec fn received(self, conn: Seq<char>, response: Option<(u64, EnvelopeView)>) -> Turn {
        if !self.wires.dom().contains(conn) {
            Turn { engine: self, work: None }
        } else {
            match response {
                None => Turn { engine: self, work: None },
                Some((request_id, envelope)) => self.settled(
                    request_id,
                    result_of(envelope, self.wires[conn].codec),
                ),
            }
        }
    }

    /// With the reorder buffer of `conn` released.
    pub open spec fn flushed(self, conn: Seq<char>, dir: Direction) -> EngineView {
        if !self.wires.dom().contains(conn) {
            self
        } else {
            let wire = self.wires[conn];
            EngineView {
                wires: self.wires.insert(conn, WireView { channel: wire.channel.flushed(), ..wire }),
                rng: wire.channel.flush_state(self.rng),
                clock: deliveries(self.clock, 0, conn, dir, wire.channel.released(self.rng)),
                ..self
            }
        }
    }

    /// What an event comes to.
    #[verifier::opaque]
    pub open spec fn applied(self, event: EventView) -> Turn {
        match event {
            EventView::DeliverToServer { conn, frame } => if self.speaks_datagram(conn) {
                Turn { engine: self, work: Some(WorkView::DecodeRequest { conn, frame }) }
            } else {
                self.served(conn, request_of_frame(frame))
            },
            EventView::DeliverToClient { conn, frame } => if self.speaks_datagram(conn) {
                Turn { engine: self, work: Some(WorkView::DecodeResponse { conn, frame }) }
            } else {
                self.received(conn, response_of_frame(frame))
            },
            EventView::FlushReorder { conn, dir } => Turn { engine: self.flushed(conn, dir), work: None },
            EventView::CompleteReply { conn, request_id, outcome } => self.replied(conn, request_id, outcome),
            EventView::Timeout { conn, request_id } => self.timed_out(conn, request_id),
        }
    }

    /// Whether the frame that `event` brings over a JSON-RPC wire is read as what it
    /// was made of.
    pub open spec fn reads(self, event: EventView) -> bool {
        match event {
            EventView::DeliverToServer { conn, frame } => self.speaks_datagram(conn) || reads_request(frame),
            EventView::DeliverToClient { conn, frame } => self.speaks_datagram(conn) || reads_response(frame),
            _ => true,
        }
    }

    /// Whether `conn` is open and speaks the datagram framing.
    pub open spec fn speaks_datagram(self, conn: Seq<char>) -> bool {
        self.wires.dom().contains(conn) && self.wires[conn].framing == WireFraming::Datagram
    }

    /// What the next event comes to.
    pub open spec fn stepped(self) -> Turn {
        if self.clock.queue.len() == 0 {
            Turn { engine: self, work: None }
        } else {
            EngineView { clock: self.clock.popped(), ..self }.applied(self.clock.queue[0].event)
        }
    }

    /// Whether an event comes due by `until`.
    pub open spec fn due_by(self, until: i64) -> bool {
        self.clock.queue.len() > 0 && self.clock.queue[0].due <= until
    }

    /// What comes next in a window that ends at `until`: the event that is due in
    /// it, or else the end, with the clock parked there.
    pub open spec fn advanced_to(self, until: i64) -> Turn {
        if self.due_by(until) {
            self.stepped()
        } else {
            Turn { engine: EngineView { clock: self.clock.parked(until), ..self }, work: None }
        }
    }

    /// Whether an event comes due by `until` milliseconds.
    pub open spec fn reaches(self, until: Option<int>) -> bool {
        self.clock.queue.len() > 0 && comes_by(self.clock.queue[0].due, until)
    }

    /// What comes next in a window that ends at `until` milliseconds: the event that
    /// is due in it, or else the end, with the clock parked at the nearest
    /// microsecond.
    pub open spec fn advanced_in(self, until: Option<int>) -> Turn {
        if self.reaches(until) {
            self.stepped()
        } else {
            Turn {
                engine: EngineView { clock: self.clock.parked(edge_of(until) as i64), ..self },
                work: None,
            }
        }
    }
}

// ── the parts ───────────────────────────────────────────────────────────

fn deliver_event(conn: String, dir: Direction, frame: Vec<u8>) -> (r: Event)
    ensures
        r@ == delivery(conn@, dir, frame@),
{
    match dir {
        Direction::Request => Event::DeliverToServer { conn, frame },
        Direction::Response => Event::DeliverToClient { conn, frame },
    }
}

fn error_value(message: String) -> (r: Value)
    ensures
        content(r) == error_body(message@),
{
    json::single("error", json::text(message))
}

pub(crate) fn failure(message: String) -> (r: SimOutcome)
    ensures
        r@ == engine_failure(message@),
{
    SimOutcome::Failure { ordinal: 0, data: error_value(message) }
}

pub(crate) fn envelope_of(outcome: SimOutcome, codec: Codec) -> (r: Option<Envelope>)
    ensures
        match r {
            Some(e) => enveloped(outcome@, codec) == Some(e@),
            None => enveloped(outcome@, codec) is None,
        },
{
    match outcome {
        SimOutcome::Success(value) => match codec.encode(&value) {
            Ok(body) => Some(Envelope::Success(body)),
            Err(_) => None,
        },
        SimOutcome::Failure { ordinal, data } => match codec.encode(&data) {
            Ok(body) => Some(Envelope::Failure { id: ordinal, body }),
            Err(_) => None,
        },
        SimOutcome::Nothing => None,
    }
}

fn response_bytes(request_id: u64, envelope: &Envelope) -> (r: Vec<u8>)
    ensures
        r@ == jsonrpc_response(request_id, envelope@),
{
    let mut out: Vec<u8> = Vec::new();
    match envelope {
        Envelope::Success(payload) => {
            jsonrpc_encode_response_ok(request_id, payload.as_slice(), &mut out);
        },
        Envelope::Failure { id, body } => {
            jsonrpc_encode_response_err(request_id, *id, body.as_slice(), &mut out);
        },
    }
    assert(out@ =~= jsonrpc_response(request_id, envelope@));
    out
}

/// What a response comes to at the client.
pub fn call_result(envelope: &Envelope, codec: Codec) -> (r: CallResult)
    ensures
        r@ == result_of(envelope@, codec),
{
    match envelope {
        Envelope::Success(payload) => match codec.decode(payload.as_slice()) {
            Ok(value) => CallResult::Success(value),
            Err(_) => CallResult::Undecodable("ok body did not decode".to_owned()),
        },
        Envelope::Failure { id, body } => {
            let body = if body.len() == 0 {
                json::null()
            } else {
                match codec.decode(body.as_slice()) {
                    Ok(value) => value,
                    Err(_) => json::null(),
                }
            };
            CallResult::Failure { ordinal: *id, body }
        },
    }
}

fn relay(result: CallResult) -> (r: SimOutcome)
    ensures
        r@ == relayed(result@),
{
    match result {
        CallResult::Success(value) => SimOutcome::Success(value),
        CallResult::Failure { ordinal, body } => SimOutcome::Failure { ordinal, data: body },
        CallResult::Undecodable(message) => failure(message),
        CallResult::Timeout => failure("forward: upstream timed out".to_owned()),
    }
}

// ── driving ─────────────────────────────────────────────────────────────

impl Default for Engine {
    fn default() -> (r: Self)
        ensures
            r@ == EngineView::fresh(),
    {
        Engine::new()
    }
}

impl Engine {
    pub fn new() -> (r: Self)
        ensures
            r@ == EngineView::fresh(),
    {
        let r = Engine {
            clock: Clock::new(),
            rng: Mulberry32::new(1),
            wires: Dict::new(),
            next_request_id: 0,
            results: HashMap::new(),
            forwards: HashMap::new(),
            forwarding: Dict::new(),
            in_flight: HashSet::new(),
            timeouts: HashMap::new(),
        };
        assert(r@ =~= EngineView::fresh());
        r
    }

    /// Queues the delivery of each of `frames`.
    fn deliver(&mut self, delay: i64, conn: &str, dir: Direction, frames: Vec<Vec<u8>>)
        ensures
            final(self)@ == (EngineView {
                clock: deliveries(old(self)@.clock, delay, conn@, dir, views(frames@)),
                ..old(self)@
            }),
    {
        let ghost before = self@;
        let ghost all = views(frames@);
        let mut left = frames;
        let mut done: usize = 0;
        let total: usize = left.len();
        assert(all.take(0) =~= Seq::empty());
        while done < total
            invariant
                done <= total,
                total == all.len(),
                views(left@) == all.skip(done as int),
                self@ == (EngineView {
                    clock: deliveries(before.clock, delay, conn@, dir, all.take(done as int)),
                    ..before
                }),
            decreases total - done,
        {
            let ghost was = views(left@);
            assert(was.len() == left@.len());
            let frame = left.remove(0);
            proof {
                let t = all.take(done + 1);
                assert(t.drop_last() =~= all.take(done as int));
                assert(views(left@) =~= was.drop_first());
                assert(was.drop_first() =~= all.skip(done + 1));
                assert(was[0] == all[done as int]);
                assert(t.last() == frame@);
            }
            let _ = self.clock.schedule_micros(delay, deliver_event(conn.to_owned(), dir, frame));
            done = done + 1;
        }
        assert(all.take(done as int) =~= all);
    }

    /// Hands a frame to a connection's channel and schedules whatever it decided.
    fn emit(&mut self, conn_id: &str, dir: Direction, frame: &Vec<u8>)
        ensures
            final(self)@ == old(self)@.emitted(conn_id@, dir, frame@),
    {
        let ghost before = self@;
        let now = self.clock.now();
        let mut wire = match self.wires.remove(conn_id) {
            Some(wire) => wire,
            None => return,
        };
        let outcome = wire.channel.send(dir, frame.as_slice(), now, &mut self.rng);
        self.wires.insert(conn_id.to_owned(), wire);
        proof {
            let sent = before.wires[conn_id@].channel.sent(
                dir,
                frame@,
                before.clock.millis(),
                before.rng,
            );
            assert(self@.wires =~= before.wires.insert(
                conn_id@,
                WireView { channel: sent.channel, ..before.wires[conn_id@] },
            ));
        }
        match outcome {
            SendOutcome::Dropped => {},
            SendOutcome::Deliver { frames, delay_ms } => {
                self.deliver(delay_ms.to_micros(), conn_id, dir, frames);
            },
            SendOutcome::Buffered { schedule_flush } => {
                if schedule_flush {
                    let _ = self.clock.schedule_micros(
                        REORDER_FLUSH,
                        Event::FlushReorder { conn: conn_id.to_owned(), dir },
                    );
                }
            },
        }
        assert(self@ =~= before.emitted(conn_id@, dir, frame@));
    }

    /// Takes the id of a call and encodes its params.
    fn prepare(&mut self, conn_id: &str, fn_name: &str, params: &Value) -> (r: Result<Outgoing, RuntimeError>)
        ensures
            final(self)@ == old(self)@.prepared(conn_id@, fn_name@),
            r matches Ok(job) ==> (old(self)@.wires[conn_id@].codec == Codec::Json && content(*params).plain(
                max_depth(),
            ) ==> value_text(job@.body)),
            match r {
                Ok(job) => old(self)@.outgoing(conn_id@, fn_name@, content(*params)) == Ok::<
                    OutgoingView,
                    RuntimeError,
                >(job@),
                Err(e) => old(self)@.outgoing(conn_id@, fn_name@, content(*params)) == Err::<
                    OutgoingView,
                    RuntimeError,
                >(e),
            },
    {
        let wire = match self.wires.get(conn_id) {
            Some(wire) => wire,
            None => return Err(RuntimeError::Transport),
        };
        if wire.error.is_some() {
            return Err(RuntimeError::Handshake);
        }
        if wire.dead {
            return Err(RuntimeError::Timeout);
        }
        let function = match wire.dispatch.proto.function(fn_name) {
            Some(f) => f,
            None => return Err(RuntimeError::UnknownCall),
        };
        let call_id: u16 = (function.index % 0x1_0000) as u16;
        let one_way = function.oneway;
        let timeout_ms = wire.timeout_ms;
        let framing = wire.framing;
        let request_id: u64 = number_after(self.next_request_id);
        let body = wire.codec.encode(params);
        self.next_request_id = request_id;
        match body {
            Ok(body) => Ok(
                Outgoing {
                    conn: conn_id.to_owned(),
                    call_id,
                    call_name: fn_name.to_owned(),
                    request_id,
                    body,
                    framing,
                    one_way,
                    timeout_ms,
                    cont: None,
                },
            ),
            Err(_) => Err(RuntimeError::Serialization),
        }
    }

    /// Puts the frame of a call on the wire, and books the call.
    fn issue(&mut self, job: Outgoing, frame: &Vec<u8>)
        ensures
            final(self)@ == old(self)@.issued(job@, frame@),
    {
        let ghost before = self@;
        let ghost job0 = job@;
        let id: u64 = job.request_id;
        self.emit(job.conn.as_str(), Direction::Request, frame);
        let ghost sent = self@;
        if job.one_way {
            self.results.insert(id, CallResult::Success(json::null()));
            assert(self@.results =~= sent.results.insert(id, ResultView::Success(Json::Null)));
        } else {
            self.in_flight.insert(id);
            if job.timeout_ms.is_positive() {
                let handle: u64 = self.clock.schedule(
                    job.timeout_ms,
                    Event::Timeout { conn: job.conn, request_id: id },
                );
                self.timeouts.insert(id, handle);
            }
        }
        let ghost booked = self@;
        if let Some(cont) = job.cont {
            let ghost cont0 = cont@;
            self.forwards.insert(id, cont);
            assert(self@.forwards =~= booked.forwards.insert(id, cont0));
        }
        assert(self@ =~= before.issued(job0, frame@));
    }

    /// Sends a prepared call, or asks for its frame.
    fn dispatch_call(&mut self, job: Outgoing) -> (r: Option<Work>)
        ensures
            final(self)@ == old(self)@.dispatched_call(job@).engine,
            maybe_work(r) == old(self)@.dispatched_call(job@).work,
    {
        match job.framing {
            WireFraming::Jsonrpc => {
                let mut frame: Vec<u8> = Vec::new();
                jsonrpc_encode_request(job.call_name.as_str(), job.request_id, job.body.as_slice(), &mut frame);
                assert(frame@ =~= request_frame(job@.call_name, job@.request_id, job@.body));
                self.issue(job, &frame);
                None
            },
            WireFraming::Datagram => Some(Work::FrameRequest(job)),
        }
    }

    /// Frames `outcome` as a response to `request_id` on `conn_id` and sends it,
    /// or asks for the frame.
    fn reply_now(&mut self, conn_id: &str, request_id: u64, outcome: SimOutcome) -> (r: Option<Work>)
        ensures
            final(self)@ == old(self)@.replied(conn_id@, request_id, outcome@).engine,
            maybe_work(r) == old(self)@.replied(conn_id@, request_id, outcome@).work,
    {
        let (framing, codec) = match self.wires.get(conn_id) {
            Some(wire) => (wire.framing, wire.codec),
            None => return None,
        };
        let envelope = match envelope_of(outcome, codec) {
            Some(envelope) => envelope,
            None => return None,
        };
        match framing {
            WireFraming::Jsonrpc => {
                let frame = response_bytes(request_id, &envelope);
                self.emit(conn_id, Direction::Response, &frame);
                None
            },
            WireFraming::Datagram => Some(Work::FrameReply { conn: conn_id.to_owned(), request_id, envelope }),
        }
    }

    /// Settles a call: either resumes the forward waiting on it, or records it.
    /// First settlement wins: a late frame after a timeout is ignored.
    pub fn settle(&mut self, request_id: u64, result: CallResult) -> (r: Option<Work>)
        ensures
            !old(self)@.in_flight.contains(request_id) ==> final(self)@ == old(self)@ && r is None,
            in_balance(old(self)@) && timed(old(self)@) ==> {
                &&& in_balance(final(self)@) && timed(final(self)@)
                &&& keeps_results(old(self)@, final(self)@)
                &&& old(self)@.in_flight.contains(request_id) ==> !times_out(final(self)@.clock.queue, request_id)
            },
            final(self)@ == old(self)@.settled(request_id, result@).engine,
            maybe_work(r) == old(self)@.settled(request_id, result@).work,
    {
        let ghost before = self@;
        let ghost result0 = result@;
        proof {
            if in_balance(before) && timed(before) {
                law_a_settled_call_waits_no_more(before, request_id, result0);
            }
        }
        if !self.in_flight.remove(&request_id) {
            assert(self@ =~= before);
            return None;
        }
        let handle = self.timeouts.remove(&request_id);
        if let Some(handle) = handle {
            self.clock.cancel(handle);
        }
        assert(self@ =~= before.landed(request_id));
        let ghost landed = self@;
        match self.forwards.remove(&request_id) {
            Some(cont) => {
                let _ = self.forwarding.remove(cont.via.as_str());
                proof {
                    assert(self@.forwards =~= landed.forwards.remove(request_id));
                    assert(self@.forwarding =~= landed.forwarding.remove(cont.via@));
                }
                self.reply_now(cont.outer_conn.as_str(), cont.outer_request_id, relay(result))
            },
            None => {
                assert(self@.forwards =~= landed.forwards);
                self.results.insert(request_id, result);
                assert(self@.results =~= landed.results.insert(request_id, result0));
                assert(self@ =~= before.settled(request_id, result0).engine);
                None
            },
        }
    }

    /// A call's timeout window elapsed: if it is still in flight, times it out and
    /// leaves its wire `dead`.
    fn time_out(&mut self, conn_id: &str, request_id: u64) -> (r: Option<Work>)
        ensures
            final(self)@ == old(self)@.timed_out(conn_id@, request_id).engine,
            maybe_work(r) == old(self)@.timed_out(conn_id@, request_id).work,
    {
        let ghost before = self@;
        if !self.in_flight.contains(&request_id) {
            return None;
        }
        // this event *is* the timeout: nothing to cancel
        let _ = self.timeouts.remove(&request_id);
        if let Some(mut wire) = self.wires.remove(conn_id) {
            wire.dead = true;
            self.wires.insert(conn_id.to_owned(), wire);
            assert(self@.wires =~= before.killed(conn_id@).wires);
        }
        assert(self@ =~= EngineView { timeouts: before.timeouts.remove(request_id), ..before.killed(conn_id@) });
        self.settle(request_id, CallResult::Timeout)
    }

    /// Why a call cannot be forwarded on `via`.
    fn refuse_forward(&self, via: &str) -> (r: Option<String>)
        ensures
            maybe_text(r) == self@.forward_refusal(via@),
    {
        match self.wires.get(via) {
            None => {
                let mut message = "forward: no connection ".to_owned();
                message.append(via);
                Some(message)
            },
            Some(wire) => match &wire.error {
                Some(error) => {
                    let mut message = joined("forward: ", via, " refused (");
                    message.append(error.as_str());
                    message.append(")");
                    Some(message)
                },
                None => if self.forwarding.contains_key(via) {
                    Some("forwarding cycle".to_owned())
                } else {
                    None
                },
            },
        }
    }

    fn fail_forward(&mut self, cont: ForwardCont) -> (r: Option<Work>)
        ensures
            final(self)@ == old(self)@.forward_failed(cont@).engine,
            maybe_work(r) == old(self)@.forward_failed(cont@).work,
    {
        let ghost before = self@;
        let _ = self.forwarding.remove(cont.via.as_str());
        assert(self@.forwarding =~= before.forwarding.remove(cont.via@));
        assert(self@ =~= EngineView { forwarding: before.forwarding.remove(cont.via@), ..before });
        let mut message = joined("forward: ", cont.via.as_str(), " has no ");
        message.append(cont.target_fn.as_str());
        self.reply_now(cont.outer_conn.as_str(), cont.outer_request_id, failure(message))
    }

    /// Relays the outer call on `via`, to answer it with the inner outcome.
    fn begin_forward(&mut self, cont: ForwardCont, params: Value) -> (r: Option<Work>)
        ensures
            final(self)@ == old(self)@.forwarded(cont@, content(params)).engine,
            maybe_work(r) == old(self)@.forwarded(cont@, content(params)).work,
    {
        proof {
            reveal(EngineView::forwarded);
        }
        let ghost before = self@;
        if let Some(message) = self.refuse_forward(cont.via.as_str()) {
            return self.reply_now(cont.outer_conn.as_str(), cont.outer_request_id, failure(message));
        }
        self.forwarding.insert(cont.via.clone(), true);
        proof {
            assert(self@.forwarding =~= before.forwarding.insert(cont.via@));
            assert(self@ =~= EngineView { forwarding: before.forwarding.insert(cont.via@), ..before });
        }
        match self.prepare(cont.via.as_str(), cont.target_fn.as_str(), &params) {
            Ok(job) => {
                let ghost job0 = job@;
                let ghost cont0 = cont@;
                let mut job = job;
                job.cont = Some(cont);
                assert(job@ =~= OutgoingView { cont: Some(cont0), ..job0 });
                self.dispatch_call(job)
            },
            Err(_) => self.fail_forward(cont),
        }
    }

    /// Server side: runs the behaviour of a decoded request, and acts on the step.
    fn serve(&mut self, conn_id: &str, request: Option<Request>) -> (r: Option<Work>)
        ensures
            final(self)@ == old(self)@.served(conn_id@, maybe_request(request)).engine,
            maybe_work(r) == old(self)@.served(conn_id@, maybe_request(request)).work,
    {
        let ghost before = self@;
        let req = match request {
            Some(req) => req,
            None => return None,
        };
        let request_id: u64 = req.request_id;
        let mut wire = match self.wires.remove(conn_id) {
            Some(wire) => wire,
            None => return None,
        };
        let step = wire.dispatch.dispatch(&req.call, req.params.as_slice(), wire.codec, &mut wire.behaviors);
        let ghost ran = WireView {
            behaviors: behaviors_after(
                before.wires[conn_id@].proto,
                req@.call,
                req@.params,
                before.wires[conn_id@].codec,
                before.wires[conn_id@].behaviors,
            ),
            ..before.wires[conn_id@]
        };
        assert(wire@ =~= ran);
        self.wires.insert(conn_id.to_owned(), wire);
        proof {
            assert(self@.wires =~= before.wires.insert(conn_id@, ran));
            assert(self@ =~= EngineView { wires: before.wires.insert(conn_id@, ran), ..before });
        }
        match step {
            Err(_) => None,
            Ok(BehaviorStep::Now(outcome)) => self.reply_now(conn_id, request_id, outcome),
            Ok(BehaviorStep::After { delay_ms, outcome }) => {
                let _ = self.clock.schedule(
                    delay_ms,
                    Event::CompleteReply { conn: conn_id.to_owned(), request_id, outcome },
                );
                None
            },
            Ok(BehaviorStep::Hang) => None,
            Ok(BehaviorStep::Forward { via, target_fn, params }) => self.begin_forward(
                ForwardCont { outer_conn: conn_id.to_owned(), outer_request_id: request_id, via, target_fn },
                params,
            ),
            Ok(BehaviorStep::Script { source, params, oneway }) => Some(
                Work::RunScript { conn: conn_id.to_owned(), request_id, source, params, oneway },
            ),
        }
    }

    /// Client side: settles the call that a decoded response belongs to.
    fn receive(&mut self, conn_id: &str, response: Option<(u64, Envelope)>) -> (r: Option<Work>)
        ensures
            final(self)@ == old(self)@.received(conn_id@, maybe_response(response)).engine,
            maybe_work(r) == old(self)@.received(conn_id@, maybe_response(response)).work,
    {
        let codec = match self.wires.get(conn_id) {
            Some(wire) => wire.codec,
            None => return None,
        };
        match response {
            None => None,
            Some((request_id, envelope)) => self.settle(request_id, call_result(&envelope, codec)),
        }
    }

    fn flush(&mut self, conn_id: &str, dir: Direction)
        ensures
            final(self)@ == old(self)@.flushed(conn_id@, dir),
    {
        let ghost before = self@;
        let mut wire = match self.wires.remove(conn_id) {
            Some(wire) => wire,
            None => return,
        };
        let frames = wire.channel.flush_reorder(&mut self.rng);
        self.wires.insert(conn_id.to_owned(), wire);
        assert(self@.wires =~= before.flushed(conn_id@, dir).wires);
        self.deliver(0, conn_id, dir, frames);
        assert(self@ =~= before.flushed(conn_id@, dir));
    }

    fn speaks_datagrams(&self, conn_id: &str) -> (r: bool)
        ensures
            r == self@.speaks_datagram(conn_id@),
    {
        match self.wires.get(conn_id) {
            Some(wire) => wire.framing == WireFraming::Datagram,
            None => false,
        }
    }

    fn apply(&mut self, event: Event) -> (r: Option<Work>)
        ensures
            final(self)@ == old(self)@.applied(event@).engine,
            maybe_work(r) == old(self)@.applied(event@).work,
            old(self)@.reads(event@),
    {
        proof {
            reveal(EngineView::applied);
        }
        match event {
            Event::DeliverToServer { conn, frame } => {
                if self.speaks_datagrams(conn.as_str()) {
                    Some(Work::DecodeRequest { conn, frame })
                } else {
                    let request = jsonrpc_decode_request(frame.as_slice());
                    self.serve(conn.as_str(), request)
                }
            },
            Event::DeliverToClient { conn, frame } => {
                if self.speaks_datagrams(conn.as_str()) {
                    Some(Work::DecodeResponse { conn, frame })
                } else {
                    let response = jsonrpc_decode_response(frame.as_slice());
                    self.receive(conn.as_str(), response)
                }
            },
            Event::FlushReorder { conn, dir } => {
                self.flush(conn.as_str(), dir);
                None
            },
            Event::CompleteReply { conn, request_id, outcome } => self.reply_now(conn.as_str(), request_id, outcome),
            Event::Timeout { conn, request_id } => self.time_out(conn.as_str(), request_id),
        }
    }

    /// Fires the single earliest event. A frame that it brings over a JSON-RPC wire
    /// is read as what it was made of.
    pub fn step(&mut self) -> (r: Step)
        ensures
            final(self)@ == old(self)@.stepped().engine,
            old(self)@.clock.queue.len() > 0 ==> old(self)@.reads(old(self)@.clock.queue[0].event),
            r@ == (if old(self)@.clock.queue.len() == 0 {
                StepOutcome::Idle
            } else {
                match old(self)@.stepped().work {
                    Some(work) => StepOutcome::Ask(work),
                    None => StepOutcome::Done,
                }
            }),
    {
        let ghost before = self@;
        let event = match self.clock.pop_next() {
            Some(event) => event,
            None => {
                assert(self@ =~= before);
                return Step::Idle;
            },
        };
        assert(self@ =~= EngineView { clock: before.clock.popped(), ..before });
        match self.apply(event) {
            Some(work) => Step::Ask(work),
            None => Step::Done,
        }
    }

    /// Frames a call on `conn_id` to `fn_name` and puts the request on the wire,
    /// or asks for its frame. `Err` if the connection is unknown, refused or dead,
    /// the protocol has no such function, or the params do not encode.
    pub fn call(&mut self, conn_id: &str, fn_name: &str, params: &Value) -> (r: Result<Called, RuntimeError>)
        ensures
            match old(self)@.outgoing(conn_id@, fn_name@, content(*params)) {
                Err(e) => called_view(r) == Err::<CalledView, RuntimeError>(e) && final(self)@ == old(
                    self,
                )@.prepared(conn_id@, fn_name@),
                Ok(job) => {
                    let turn = old(self)@.prepared(conn_id@, fn_name@).dispatched_call(job);
                    &&& final(self)@ == turn.engine
                    &&& called_view(r) == Ok::<CalledView, RuntimeError>(
                        match turn.work {
                            Some(WorkView::FrameRequest(job)) => CalledView::Frame(job),
                            _ => CalledView::Sent(job.request_id),
                        },
                    )
                },
            },
            old(self)@.outgoing(conn_id@, fn_name@, content(*params)) matches Ok(job) ==> (old(
                self,
            )@.wires[conn_id@].codec == Codec::Json && content(*params).plain(max_depth()) ==> value_text(job.body)),
    {
        match self.prepare(conn_id, fn_name, params) {
            Err(e) => Err(e),
            Ok(job) => {
                let id: u64 = job.request_id;
                match self.dispatch_call(job) {
                    Some(Work::FrameRequest(job)) => Ok(Called::Frame(job)),
                    _ => Ok(Called::Sent(id)),
                }
            },
        }
    }

    /// Goes on with a call whose frame the host has made. `None` where no frame
    /// could be made: then a forward is answered with that, and a call is as
    /// though it had been refused.
    pub fn request_framed(&mut self, job: Outgoing, frame: Option<Vec<u8>>) -> (r: Option<Work>)
        ensures
            match frame {
                Some(frame) => final(self)@ == old(self)@.issued(job@, frame@) && r is None,
                None => match job@.cont {
                    Some(cont) => final(self)@ == old(self)@.forward_failed(cont).engine && maybe_work(r) == old(
                        self,
                    )@.forward_failed(cont).work,
                    None => final(self)@ == old(self)@ && r is None,
                },
            },
    {
        match frame {
            Some(frame) => {
                self.issue(job, &frame);
                None
            },
            None => match job.cont {
                Some(cont) => self.fail_forward(cont),
                None => None,
            },
        }
    }

    /// Goes on with a request frame that the host has decoded, or could not.
    pub fn request_decoded(&mut self, conn_id: &str, request: Option<Request>) -> (r: Option<Work>)
        ensures
            final(self)@ == old(self)@.served(conn_id@, maybe_request(request)).engine,
            maybe_work(r) == old(self)@.served(conn_id@, maybe_request(request)).work,
    {
        self.serve(conn_id, request)
    }

    /// Goes on with a response frame that the host has decoded, or could not.
    pub fn response_decoded(&mut self, conn_id: &str, response: Option<(u64, Envelope)>) -> (r: Option<Work>)
        ensures
            final(self)@ == old(self)@.received(conn_id@, maybe_response(response)).engine,
            maybe_work(r) == old(self)@.received(conn_id@, maybe_response(response)).work,
    {
        self.receive(conn_id, response)
    }

    /// Goes on with a response whose frame the host has made.
    pub fn reply_framed(&mut self, conn_id: &str, frame: &Vec<u8>)
        ensures
            final(self)@ == old(self)@.emitted(conn_id@, Direction::Response, frame@),
    {
        self.emit(conn_id, Direction::Response, frame);
    }

    /// Goes on with a call whose script the host has run, or could not.
    pub fn script_ran(&mut self, conn_id: &str, request_id: u64, oneway: bool, ran: Result<Value, String>) -> (r: Option<
        Work,
    >)
        ensures
            final(self)@ == old(self)@.replied(conn_id@, request_id, scripted(oneway, script_run(ran))).engine,
            maybe_work(r) == old(self)@.replied(conn_id@, request_id, scripted(oneway, script_run(ran))).work,
    {
        self.reply_now(conn_id, request_id, script_answer(oneway, ran))
    }
}

// ── session wiring ──────────────────────────────────────────────────────

/// The framing that a connection speaks: its choice, else the protocol's.
pub open spec fn chosen_framing(choice: FramingChoice, own: ShapeFraming) -> WireFraming {
    match choice {
        FramingChoice::Auto => match own {
            ShapeFraming::Jsonrpc => WireFraming::Jsonrpc,
            ShapeFraming::Datagram => WireFraming::Datagram,
        },
        FramingChoice::Datagram => WireFraming::Datagram,
        FramingChoice::Jsonrpc => WireFraming::Jsonrpc,
    }
}

/// The behaviours of a fresh wire: for each function what the server is set to,
/// or a reply where it is set to nothing.
pub open spec fn wire_behaviors(
    functions: Seq<FnView>,
    server: InstanceView,
    schema: SchemaView,
) -> Map<Seq<char>, HandlerView>
    decreases functions.len(),
{
    if functions.len() == 0 {
        Map::empty()
    } else {
        let f = functions.last();
        let handler = if server.behaviors.dom().contains(f.name) {
            server.behaviors[f.name].kind.made(server.behaviors[f.name].config, f, schema)
        } else {
            BehaviorKind::Reply.made(Json::Object(Map::empty()), f, schema)
        };
        wire_behaviors(functions.drop_last(), server, schema).insert(f.name, handler)
    }
}

/// Why a connection is refused when it is opened: JSON-RPC is a text envelope and
/// cannot carry a MessagePack body; a handshake that was cut, or two ends that
/// were built against different schemas, do not agree.
pub open spec fn open_refusal(
    framing: WireFraming,
    codec: Codec,
    cut: bool,
    client: InstanceView,
    server: InstanceView,
) -> Option<Seq<char>> {
    if framing == WireFraming::Jsonrpc && codec == Codec::Msgpack {
        Some("json-rpc framing requires the json codec"@)
    } else if cut || client.ir_hash != server.ir_hash {
        Some("handshake"@)
    } else {
        None
    }
}

/// The wire of a connection that is opened, and the state of the generator after
/// its two handshakes.
pub open spec fn opened(s: SessionView, c: ConnectionView, g: GreetingView, rng: u32) -> (WireView, u32) {
    let client = s.instance(c.client_id)->0;
    let server = s.instance(c.server_id)->0;
    let (schema, proto) = s.shape.protocol(server.schema_ns, server.protocol)->0;
    let framing = chosen_framing(c.framing, proto.framing);
    let start = ChannelView {
        latency_ms: s.latency_ms.above_zero(),
        faults: c.faults,
        ..ChannelView::fresh(client.name, server.name)
    };
    let hello = start.sent(Direction::Request, g.client, Some(0), rng);
    let welcome = hello.channel.sent(Direction::Response, g.server, Some(0), hello.rng);
    let cut = hello.fate == Fate::Dropped || welcome.fate == Fate::Dropped;
    (
        WireView {
            channel: welcome.channel,
            proto,
            behaviors: wire_behaviors(proto.functions, server, schema),
            client_id: client.id,
            server_id: server.id,
            client_name: client.name,
            server_name: server.name,
            framing,
            codec: c.wire_format,
            error: open_refusal(framing, c.wire_format, cut, client, server),
            timeout_ms: s.call_timeout_ms.above_zero(),
            dead: false,
        },
        welcome.rng,
    )
}

/// `wires` with the first `n` connections of the session opened that are not
/// open yet, and the state of the generator after that.
pub open spec fn opened_all(
    s: SessionView,
    greetings: Seq<GreetingView>,
    n: int,
    wires: Map<Seq<char>, WireView>,
    rng: u32,
) -> (Map<Seq<char>, WireView>, u32)
    decreases n,
{
    if n <= 0 {
        (wires, rng)
    } else {
        let (open, state) = opened_all(s, greetings, n - 1, wires, rng);
        let c = s.connections[n - 1];
        if open.dom().contains(c.id) {
            (open, state)
        } else {
            let (wire, after) = opened(s, c, greetings[n - 1], state);
            (open.insert(c.id, wire), after)
        }
    }
}

/// The number that a schema hash writes: `0x` and hex digits. Anything else is
/// zero.
pub open spec fn hash_number(hash: Seq<char>) -> nat {
    if hash.len() >= 2 && hash[0] == '0' && hash[1] == 'x' {
        match number_in(hash.skip(2), 16, u64::MAX as nat) {
            Some(n) => n,
            None => 0,
        }
    } else {
        0
    }
}

/// What goes into the two handshake frames of a connection.
pub open spec fn plan_of(s: SessionView, c: ConnectionView) -> GreetingPlan {
    let client = s.instance(c.client_id)->0;
    let server = s.instance(c.server_id)->0;
    let (_, proto) = s.shape.protocol(server.schema_ns, server.protocol)->0;
    GreetingPlan {
        client_hash: hash_number(client.ir_hash) as u64,
        server_hash: hash_number(server.ir_hash) as u64,
        codec: c.wire_format,
        framing: chosen_framing(c.framing, proto.framing),
    }
}

/// [`plan_of`], for a connection that can be opened.
pub open spec fn maybe_plan(s: SessionView, c: ConnectionView) -> Option<GreetingPlan> {
    if s.can_open(c) {
        Some(plan_of(s, c))
    } else {
        None
    }
}

impl EngineView {
    /// Whether the live wires can be matched to the connections of `s`: those that
    /// are not live yet can be opened.
    pub open spec fn can_sync(self, s: SessionView) -> bool {
        s.opens_beside(self.wires.dom())
    }

    /// With the live wires matched to the connections of `s`.
    pub open spec fn synced(self, s: SessionView, greetings: Seq<GreetingView>) -> EngineView {
        let kept = self.wires.restrict(s.connection_ids().to_set());
        let (wires, rng) = opened_all(s, greetings, s.connections.len() as int, kept, self.rng);
        EngineView { wires, rng, ..self }
    }

    /// With every wire closed and opened again from scratch.
    pub open spec fn rebuilt(self, s: SessionView, greetings: Seq<GreetingView>) -> EngineView {
        EngineView {
            wires: Map::empty(),
            forwards: Map::empty(),
            forwarding: Set::empty(),
            in_flight: Set::empty(),
            timeouts: Map::empty(),
            rng: s.seed,
            ..self
        }.synced(s, greetings)
    }
}

fn framing_for(choice: FramingChoice, own: ShapeFraming) -> (r: WireFraming)
    ensures
        r == chosen_framing(choice, own),
{
    match choice {
        FramingChoice::Auto => match own {
            ShapeFraming::Jsonrpc => WireFraming::Jsonrpc,
            ShapeFraming::Datagram => WireFraming::Datagram,
        },
        FramingChoice::Datagram => WireFraming::Datagram,
        FramingChoice::Jsonrpc => WireFraming::Jsonrpc,
    }
}

/// The server's per-function behaviour map for a fresh wire. Falls back to
/// `reply` with an empty config for a function the instance never seeded.
fn build_behaviors(server: &Instance, proto: &ProtocolShape, schema: &SchemaShape) -> (r: BehaviorMap)
    ensures
        r@ == wire_behaviors(proto@.functions, server@, schema@),
{
    let ghost all = proto@.functions;
    let mut out: BehaviorMap = Dict::new();
    let mut i: usize = 0;
    assert(all.take(0) =~= Seq::empty());
    while i < proto.functions.len()
        invariant
            i <= proto.functions@.len(),
            all == proto@.functions,
            out@ == wire_behaviors(all.take(i as int), server@, schema@),
        decreases proto.functions@.len() - i,
    {
        let f = &proto.functions[i];
        proof {
            assert(all.take(i + 1).drop_last() =~= all.take(i as int));
            assert(all.take(i + 1).last() == f@);
        }
        let handler = match server.behaviors.get(f.name.as_str()) {
            Some(setting) => setting.kind.make(&setting.config, f, schema),
            None => {
                let members: Vec<(String, Value)> = Vec::new();
                let config = json::object(members);
                assert(content(config)->Object_0 =~= Map::empty());
                BehaviorKind::Reply.make(&config, f, schema)
            },
        };
        out.insert(f.name.clone(), handler);
        i = i + 1;
    }
    assert(all.take(i as int) =~= all);
    out
}

fn read_hash(hash: &str) -> (r: u64)
    ensures
        r == hash_number(hash@),
{
    let len: usize = hash.unicode_len();
    if len < 2 || hash.get_char(0) != '0' || hash.get_char(1) != 'x' {
        return 0;
    }
    let rest = hash.substring_char(2, len);
    assert(rest@ =~= hash@.skip(2));
    match read_number(rest, 16, u64::MAX) {
        Some(n) => n,
        None => 0,
    }
}

/// What goes into the handshake frames of each connection of `session`, in the
/// order of its connections. A connection that cannot be opened has none.
pub fn greeting_plans(session: &Session) -> (r: Vec<Option<GreetingPlan>>)
    ensures
        r@.len() == session@.connections.len(),
        forall|i: int| 0 <= i < r@.len() ==> #[trigger] r@[i] == maybe_plan(session@, session@.connections[i]),
{
    let mut r: Vec<Option<GreetingPlan>> = Vec::new();
    let mut i: usize = 0;
    while i < session.connections.len()
        invariant
            i <= session.connections@.len(),
            r@.len() == i,
            forall|k: int| 0 <= k < i ==> #[trigger] r@[k] == maybe_plan(session@, session@.connections[k]),
        decreases session.connections@.len() - i,
    {
        let c = &session.connections[i];
        assert(session@.connections[i as int] == c@);
        let mut plan: Option<GreetingPlan> = None;
        if let (Some(client), Some(server)) = (session.instance(c.client_id.as_str()), session.instance(
            c.server_id.as_str(),
        )) {
            if let Some((_, proto)) = find_protocol(
                &session.shape,
                server.schema_ns.as_str(),
                server.protocol.as_str(),
            ) {
                plan = Some(
                    GreetingPlan {
                        client_hash: read_hash(client.ir_hash.as_str()),
                        server_hash: read_hash(server.ir_hash.as_str()),
                        codec: c.wire_format,
                        framing: framing_for(c.framing, proto.framing),
                    },
                );
            }
        }
        r.push(plan);
        i = i + 1;
    }
    r
}

impl Engine {
    /// Opens the wire of a connection.
    fn connect(&mut self, session: &Session, conn: &Connection, greeting: &Greeting) -> (r: Wire)
        requires
            session@.can_open(conn@),
        ensures
            r@ == opened(session@, conn@, greeting@, old(self)@.rng).0,
            final(self)@ == (EngineView {
                rng: opened(session@, conn@, greeting@, old(self)@.rng).1,
                ..old(self)@
            }),
    {
        let ghost before = self@;
        let client = session.instance(conn.client_id.as_str()).unwrap();
        let server = session.instance(conn.server_id.as_str()).unwrap();
        let (schema, proto) = find_protocol(
            &session.shape,
            server.schema_ns.as_str(),
            server.protocol.as_str(),
        ).unwrap();
        let mut channel = Channel::new(client.name.clone(), server.name.clone());
        channel.set_latency(session.latency_ms);
        *channel.faults_mut() = conn.faults;
        let behaviors = build_behaviors(server, proto, schema);
        let framing = framing_for(conn.framing, proto.framing);
        let codec = conn.wire_format;
        let bad_combo = framing == WireFraming::Jsonrpc && codec == Codec::Msgpack;
        // A frame each way (the inspector shows them). The two ends always agree
        // on codec + framing, so only the IR hash can disagree. A partition cuts
        // the handshake too.
        let hello = channel.send(Direction::Request, greeting.client.as_slice(), Double::zero(), &mut self.rng);
        let welcome = channel.send(Direction::Response, greeting.server.as_slice(), Double::zero(), &mut self.rng);
        let cut = matches!(hello, SendOutcome::Dropped) || matches!(welcome, SendOutcome::Dropped);
        let error = if bad_combo {
            Some("json-rpc framing requires the json codec".to_owned())
        } else if cut || !same_text(client.ir_hash.as_str(), server.ir_hash.as_str()) {
            Some("handshake".to_owned())
        } else {
            None
        };
        let wire = Wire {
            channel,
            dispatch: GenericDispatch::new(proto.copied()),
            behaviors,
            client_id: client.id.clone(),
            server_id: server.id.clone(),
            client_name: client.name.clone(),
            server_name: server.name.clone(),
            framing,
            codec,
            error,
            timeout_ms: session.call_timeout_ms.max_zero(),
            dead: false,
        };
        assert(wire@ =~= opened(session@, conn@, greeting@, before.rng).0);
        wire
    }

    /// Closes the wires whose connection is not in `session`.
    fn close_vanished(&mut self, session: &Session)
        ensures
            final(self)@ == (EngineView {
                wires: old(self)@.wires.restrict(session@.connection_ids().to_set()),
                ..old(self)@
            }),
    {
        let ghost before = self@;
        let ghost ids = session@.connection_ids();
        let keys = self.wires.keys();
        let mut i: usize = 0;
        while i < keys.len()
            invariant
                i <= keys@.len(),
                ids == session@.connection_ids(),
                views(keys@).to_set() == before.wires.dom(),
                self@ == (EngineView { wires: self@.wires, ..before }),
                forall|k: Seq<char>| #[trigger]
                    self@.wires.dom().contains(k) <==> before.wires.dom().contains(k) && (ids.contains(k) || !views(
                        keys@,
                    ).take(i as int).contains(k)),
                forall|k: Seq<char>| #[trigger] self@.wires.dom().contains(k) ==> self@.wires[k] == before.wires[k],
            decreases keys@.len() - i,
        {
            let key = &keys[i];
            let ghost was = self@.wires;
            let wanted = session.connection(key.as_str()).is_some();
            proof {
                lemma_connection_listed(session@, key@);
                let t = views(keys@).take(i + 1);
                assert(t =~= views(keys@).take(i as int).push(key@));
            }
            if !wanted {
                let _ = self.wires.remove(key.as_str());
            }
            i = i + 1;
            proof {
                assert forall|k: Seq<char>| #[trigger]
                    self@.wires.dom().contains(k) <==> before.wires.dom().contains(k) && (ids.contains(k) || !views(
                        keys@,
                    ).take(i as int).contains(k)) by {
                    lemma_push_contains(views(keys@).take(i - 1), key@, k);
                    assert(was.dom().contains(k) <==> before.wires.dom().contains(k) && (ids.contains(k) || !views(
                        keys@,
                    ).take(i - 1).contains(k)));
                }
            }
        }
        proof {
            assert(views(keys@).take(i as int) =~= views(keys@));
            assert(self@.wires =~= before.wires.restrict(ids.to_set())) by {
                assert forall|k: Seq<char>|
                    self@.wires.dom().contains(k) == before.wires.restrict(ids.to_set()).dom().contains(k) by {
                    assert(views(keys@).to_set().contains(k) == before.wires.dom().contains(k));
                }
            }
        }
    }

    /// Matches the live wire set to `session.connections`: opens the ones that
    /// appeared, closes the ones that vanished, leaves the rest running.
    /// `greetings` are the handshake frames of [`greeting_plans`].
    pub fn sync(&mut self, session: &Session, greetings: &Vec<Greeting>)
        requires
            old(self)@.can_sync(session@),
            greetings@.len() == session@.connections.len(),
        ensures
            final(self)@ == old(self)@.synced(session@, views(greetings@)),
    {
        let ghost before = self@;
        self.close_vanished(session);
        let ghost kept = self@.wires;
        let ghost gs = views(greetings@);
        let mut i: usize = 0;
        while i < session.connections.len()
            invariant
                i <= session.connections@.len(),
                before.can_sync(session@),
                kept == before.wires.restrict(session@.connection_ids().to_set()),
                greetings@.len() == session@.connections.len(),
                gs == views(greetings@),
                self@ == (EngineView {
                    wires: opened_all(session@, gs, i as int, kept, before.rng).0,
                    rng: opened_all(session@, gs, i as int, kept, before.rng).1,
                    ..before
                }),
            decreases session.connections@.len() - i,
        {
            let c = &session.connections[i];
            proof {
                assert(session@.connections[i as int] == c@);
                assert(gs[i as int] == greetings@[i as int]@);
                lemma_opened_ids(session@, gs, i as int, kept, before.rng);
                assert(session@.connection_ids()[i as int] == c@.id);
                assert(session@.connection_ids().contains(c@.id));
                if !self@.wires.dom().contains(c@.id) {
                    assert(session@.leads(i as int));
                    assert(!before.wires.dom().contains(c@.id)) by {
                        if before.wires.dom().contains(c@.id) {
                            assert(kept.dom().contains(c@.id));
                        }
                    }
                    assert(session@.can_open(session@.connections[i as int]));
                }
            }
            if !self.wires.contains_key(c.id.as_str()) {
                let wire = self.connect(session, c, &greetings[i]);
                self.wires.insert(c.id.clone(), wire);
            }
            i = i + 1;
            assert(self@ =~= EngineView {
                wires: opened_all(session@, gs, i as int, kept, before.rng).0,
                rng: opened_all(session@, gs, i as int, kept, before.rng).1,
                ..before
            });
        }
        assert(self@ =~= before.synced(session@, gs));
    }

    /// Closes every wire and re-opens from scratch, re-seeding the fault rolls so
    /// a stepped run from `session.seed` is reproducible. The clock keeps running
    /// (time doesn't jump back on a schema / latency edit).
    pub fn rebuild(&mut self, session: &Session, greetings: &Vec<Greeting>)
        requires
            session@.opens_beside(Set::empty()),
            greetings@.len() == session@.connections.len(),
        ensures
            final(self)@ == old(self)@.rebuilt(session@, views(greetings@)),
    {
        let ghost before = self@;
        self.wires = Dict::new();
        self.forwards.clear();
        self.forwarding = Dict::new();
        self.in_flight.clear();
        self.timeouts.clear();
        self.rng = Mulberry32::new(session.seed);
        assert(self@ =~= EngineView {
            wires: Map::empty(),
            forwards: Map::empty(),
            forwarding: Set::empty(),
            in_flight: Set::empty(),
            timeouts: Map::empty(),
            rng: session@.seed,
            ..before
        });
        assert(self@.wires.dom() =~= Set::empty());
        self.sync(session, greetings);
    }

    /// Whether the live wires can be matched to `session`.
    pub fn syncs(&self, session: &Session) -> (r: bool)
        ensures
            r == self@.can_sync(session@),
    {
        let mut i: usize = 0;
        while i < session.connections.len()
            invariant
                i <= session.connections@.len(),
                forall|k: int|
                    0 <= k < i && session@.leads(k) && !self@.wires.dom().contains(
                        (#[trigger] session@.connections[k]).id,
                    ) ==> session@.can_open(session@.connections[k]),
            decreases session.connections@.len() - i,
        {
            let c = &session.connections[i];
            assert(session@.connections[i as int] == c@);
            if first_of_id(session, i) && !self.wires.contains_key(c.id.as_str()) && !session.opens(c) {
                return false;
            }
            i = i + 1;
        }
        true
    }
}

/// Whether the connection at `i` is the first of its id.
fn first_of_id(session: &Session, i: usize) -> (r: bool)
    requires
        i < session@.connections.len(),
    ensures
        r == session@.leads(i as int),
{
    let c = &session.connections[i];
    assert(session@.connections[i as int] == c@);
    let mut j: usize = 0;
    while j < i
        invariant
            j <= i < session.connections@.len(),
            c@ == session@.connections[i as int],
            forall|k: int| 0 <= k < j ==> (#[trigger] session@.connections[k]).id != c@.id,
        decreases i - j,
    {
        assert(session@.connections[j as int] == session.connections@[j as int]@);
        if same_text(session.connections[j].id.as_str(), c.id.as_str()) {
            return false;
        }
        j = j + 1;
    }
    true
}

/// What was open stays open, and so does each connection up to the `n`th.
proof fn lemma_opened_ids(
    s: SessionView,
    greetings: Seq<GreetingView>,
    n: int,
    wires: Map<Seq<char>, WireView>,
    rng: u32,
)
    requires
        0 <= n <= s.connections.len(),
    ensures
        forall|id: Seq<char>| #[trigger]
            wires.dom().contains(id) ==> opened_all(s, greetings, n, wires, rng).0.dom().contains(id),
        forall|j: int|
            0 <= j < n ==> opened_all(s, greetings, n, wires, rng).0.dom().contains((#[trigger] s.connections[j]).id),
    decreases n,
{
    if n > 0 {
        lemma_opened_ids(s, greetings, n - 1, wires, rng);
    }
}

/// A session whose connections can all be opened can be opened beside whatever is
/// live.
pub proof fn law_a_wired_session_opens(s: SessionView, live: Set<Seq<char>>)
    requires
        s.wired(),
    ensures
        s.opens_beside(live),
{
}

proof fn lemma_push_contains<A>(s: Seq<A>, a: A, x: A)
    ensures
        s.push(a).contains(x) <==> s.contains(x) || x == a,
{
    if s.contains(x) {
        let k = s.index_of(x);
        assert(s.push(a)[k] == x);
    }
    if x == a {
        assert(s.push(a)[s.len() as int] == x);
    }
    if s.push(a).contains(x) && x != a {
        let k = s.push(a).index_of(x);
        assert(s[k] == x);
    }
}

/// A connection is found exactly where its id is listed.
proof fn lemma_connection_listed(s: SessionView, id: Seq<char>)
    ensures
        s.connection(id) is Some <==> s.connection_ids().contains(id),
{
    let pred = |c: ConnectionView| c.id == id;
    crate::dict::lemma_found(s.connections, pred);
    if let Some(c) = s.connection(id) {
        let k = s.connections.index_of(c);
        assert(s.connection_ids()[k] == id);
    } else if s.connection_ids().contains(id) {
        let k = s.connection_ids().index_of(id);
        assert(!pred(s.connections[k]));
    }
}

// ── knobs ───────────────────────────────────────────────────────────────

impl EngineView {
    /// Why the behaviour of `fn_name` on `conn` cannot be set.
    pub open spec fn behavior_refusal(self, conn: Seq<char>, fn_name: Seq<char>) -> Option<Seq<char>> {
        if !self.wires.dom().contains(conn) {
            Some("no connection "@ + conn)
        } else if self.wires[conn].proto.function(fn_name) is None {
            Some("no function "@ + fn_name)
        } else {
            None
        }
    }

    /// With the behaviour of `fn_name` on `conn` set.
    pub open spec fn with_behavior(self, conn: Seq<char>, fn_name: Seq<char>, handler: HandlerView) -> EngineView {
        let wire = self.wires[conn];
        EngineView {
            wires: self.wires.insert(
                conn,
                WireView { behaviors: wire.behaviors.insert(fn_name, handler), ..wire },
            ),
            ..self
        }
    }

    /// With the behaviour of `fn_name` made anew on each of `conns` that is open
    /// and has such a function.
    pub open spec fn with_behavior_on(
        self,
        conns: Set<Seq<char>>,
        fn_name: Seq<char>,
        kind: BehaviorKind,
        config: Json,
        schema: SchemaView,
    ) -> EngineView {
        EngineView {
            wires: Map::new(
                |k: Seq<char>| self.wires.dom().contains(k),
                |k: Seq<char>|
                    match self.wires[k].proto.function(fn_name) {
                        Some(function) if conns.contains(k) => WireView {
                            behaviors: self.wires[k].behaviors.insert(fn_name, kind.made(config, function, schema)),
                            ..self.wires[k]
                        },
                        _ => self.wires[k],
                    },
            ),
            ..self
        }
    }

    /// The connections that `instance` is an end of.
    pub open spec fn connections_of(self, instance: Seq<char>) -> Set<Seq<char>> {
        Set::new(|k: Seq<char>| touches(self, k, instance))
    }

    /// With the faults of `conn` set, where it is open.
    pub open spec fn with_faults(self, conn: Seq<char>, faults: FaultSpec) -> EngineView {
        if !self.wires.dom().contains(conn) {
            self
        } else {
            let wire = self.wires[conn];
            EngineView {
                wires: self.wires.insert(
                    conn,
                    WireView { channel: ChannelView { faults, ..wire.channel }, ..wire },
                ),
                ..self
            }
        }
    }
}

impl Engine {
    /// Swaps a live server behaviour; takes effect on the next call.
    pub fn set_behavior(
        &mut self,
        conn_id: &str,
        fn_name: &str,
        kind: BehaviorKind,
        config: &Value,
        schema: &SchemaShape,
    ) -> (r: Result<(), String>)
        ensures
            match r {
                Ok(_) => old(self)@.behavior_refusal(conn_id@, fn_name@) is None && final(self)@ == old(
                    self,
                )@.with_behavior(
                    conn_id@,
                    fn_name@,
                    kind.made(
                        content(*config),
                        old(self)@.wires[conn_id@].proto.function(fn_name@)->0,
                        schema@,
                    ),
                ),
                Err(message) => old(self)@.behavior_refusal(conn_id@, fn_name@) == Some(message@) && final(self)@
                    == old(self)@,
            },
    {
        let ghost before = self@;
        let handler = match self.wires.get(conn_id) {
            None => {
                let mut message = "no connection ".to_owned();
                message.append(conn_id);
                return Err(message);
            },
            Some(wire) => match wire.dispatch.proto.function(fn_name) {
                None => {
                    let mut message = "no function ".to_owned();
                    message.append(fn_name);
                    return Err(message);
                },
                Some(function) => kind.make(config, function, schema),
            },
        };
        let ghost handler0 = handler@;
        if let Some(mut wire) = self.wires.remove(conn_id) {
            wire.behaviors.insert(fn_name.to_owned(), handler);
            self.wires.insert(conn_id.to_owned(), wire);
            assert(self@.wires =~= before.with_behavior(conn_id@, fn_name@, handler0).wires);
        }
        assert(self@ =~= before.with_behavior(conn_id@, fn_name@, handler0));
        Ok(())
    }

    /// Swaps the behaviour of `fn_name` on every live connection that
    /// `instance_id` is an end of.
    pub fn set_instance_behavior(
        &mut self,
        instance_id: &str,
        fn_name: &str,
        kind: BehaviorKind,
        config: &Value,
        schema: &SchemaShape,
    )
        ensures
            final(self)@ == old(self)@.with_behavior_on(
                old(self)@.connections_of(instance_id@),
                fn_name@,
                kind,
                content(*config),
                schema@,
            ),
    {
        let ghost before = self@;
        let ids = self.connections_for_instance(instance_id);
        let ghost conns = before.connections_of(instance_id@);
        let ghost held = content(*config);
        let mut i: usize = 0;
        assert(self@ =~= before.with_behavior_on(Set::empty(), fn_name@, kind, held, schema@));
        assert(views(ids@).take(0).to_set() =~= Set::empty());
        while i < ids.len()
            invariant
                i <= ids@.len(),
                held == content(*config),
                self@ == before.with_behavior_on(
                    views(ids@).take(i as int).to_set(),
                    fn_name@,
                    kind,
                    held,
                    schema@,
                ),
                forall|id: Seq<char>| #[trigger] views(ids@).contains(id) <==> conns.contains(id),
                forall|id: Seq<char>| #[trigger] conns.contains(id) ==> before.wires.dom().contains(id),
            decreases ids@.len() - i,
        {
            let ghost done = views(ids@).take(i as int).to_set();
            let ghost more = views(ids@).take(i + 1).to_set();
            let ghost id = ids@[i as int]@;
            proof {
                assert(views(ids@)[i as int] == id);
                assert(views(ids@).contains(id));
                assert(views(ids@).take(i + 1) =~= views(ids@).take(i as int).push(id));
                assert(more =~= done.insert(id)) by {
                    views(ids@).take(i as int).lemma_push_to_set_commute(id);
                }
            }
            let _ = self.set_behavior(ids[i].as_str(), fn_name, kind, config, schema);
            proof {
                let after = before.with_behavior_on(more, fn_name@, kind, held, schema@);
                assert forall|k: Seq<char>| #[trigger] before.wires.dom().contains(k) implies self@.wires[k]
                    =~= after.wires[k] by {}
                assert(self@.wires =~= after.wires);
                assert(self@ =~= after);
            }
            i = i + 1;
        }
        proof {
            assert(views(ids@).take(i as int) =~= views(ids@));
            assert(views(ids@).to_set() =~= conns);
        }
    }

    /// Replaces a live connection's fault spec (edited in the inspector, no
    /// reconnect).
    pub fn set_faults(&mut self, conn_id: &str, spec: FaultSpec)
        ensures
            final(self)@ == old(self)@.with_faults(conn_id@, spec),
    {
        let ghost before = self@;
        if let Some(mut wire) = self.wires.remove(conn_id) {
            *wire.channel.faults_mut() = spec;
            self.wires.insert(conn_id.to_owned(), wire);
            assert(self@.wires =~= before.with_faults(conn_id@, spec).wires);
        }
        assert(self@ =~= before.with_faults(conn_id@, spec));
    }

    /// Re-seeds the fault rolls.
    pub fn set_seed(&mut self, seed: u32)
        ensures
            final(self)@ == (EngineView { rng: seed, ..old(self)@ }),
    {
        self.rng = Mulberry32::new(seed);
    }

    // ── observation ─────────────────────────────────────────────────────

    /// The current virtual time, in milliseconds.
    pub fn now(&self) -> (r: Double)
        ensures
            r.value() == self@.clock.millis(),
            self@.clock.now >= 0 ==> !r.negative(),
    {
        self.clock.now()
    }

    pub fn pending(&self) -> (r: usize)
        ensures
            r == self@.clock.queue.len(),
    {
        self.clock.pending()
    }

    pub fn result(&self, request_id: u64) -> (r: Option<&CallResult>)
        ensures
            match r {
                Some(result) => self@.results.dom().contains(request_id) && result@ == self@.results[request_id],
                None => !self@.results.dom().contains(request_id),
            },
    {
        self.results.get(&request_id)
    }

    pub fn tap(&self, conn_id: &str) -> (r: Option<&Tap>)
        ensures
            match r {
                Some(tap) => self@.wires.dom().contains(conn_id@) && tap@ == self@.wires[conn_id@].channel.tap,
                None => !self@.wires.dom().contains(conn_id@),
            },
    {
        match self.wires.get(conn_id) {
            Some(wire) => Some(&wire.channel.tap),
            None => None,
        }
    }

    /// Why a connection was refused, if it was.
    pub fn connection_error(&self, conn_id: &str) -> (r: Option<&str>)
        ensures
            match r {
                Some(error) => self@.wires.dom().contains(conn_id@) && self@.wires[conn_id@].error == Some(error@),
                None => !self@.wires.dom().contains(conn_id@) || self@.wires[conn_id@].error is None,
            },
    {
        match self.wires.get(conn_id) {
            Some(wire) => match &wire.error {
                Some(error) => Some(error.as_str()),
                None => None,
            },
            None => None,
        }
    }

    /// True once a call on this connection has timed out: it is desynced and must
    /// be reopened ([`Engine::rebuild`]).
    pub fn connection_dead(&self, conn_id: &str) -> (r: bool)
        ensures
            r == (self@.wires.dom().contains(conn_id@) && self@.wires[conn_id@].dead),
    {
        match self.wires.get(conn_id) {
            Some(wire) => wire.dead,
            None => false,
        }
    }

    /// The endpoint names, function names and status of a live connection: what
    /// the frame inspector needs to decode its frames.
    pub fn wire_info(&self, conn_id: &str) -> (r: Option<WireInfo<'_>>)
        ensures
            match r {
                Some(info) => {
                    let wire = self@.wires[conn_id@];
                    &&& self@.wires.dom().contains(conn_id@)
                    &&& info.client_id@ == wire.client_id
                    &&& info.server_id@ == wire.server_id
                    &&& info.client_name@ == wire.client_name
                    &&& info.server_name@ == wire.server_name
                    &&& views(info.fn_names@) == fn_names(wire.proto)
                    &&& info.framing == wire.framing
                    &&& info.codec == wire.codec
                    &&& info.dead == wire.dead
                    &&& match info.error {
                        Some(error) => wire.error == Some(error@),
                        None => wire.error is None,
                    }
                },
                None => !self@.wires.dom().contains(conn_id@),
            },
    {
        match self.wires.get(conn_id) {
            None => None,
            Some(wire) => Some(
                WireInfo {
                    client_id: wire.client_id.as_str(),
                    server_id: wire.server_id.as_str(),
                    client_name: wire.client_name.as_str(),
                    server_name: wire.server_name.as_str(),
                    fn_names: list_fn_names(&wire.dispatch.proto),
                    framing: wire.framing,
                    codec: wire.codec,
                    error: match &wire.error {
                        Some(error) => Some(error.as_str()),
                        None => None,
                    },
                    dead: wire.dead,
                },
            ),
        }
    }

    /// The ids of the live connections, in order.
    pub fn connection_ids(&self) -> (r: Vec<String>)
        ensures
            in_order(views(r@)),
            views(r@).to_set() == self@.wires.dom(),
    {
        self.wires.keys()
    }

    /// The connections `instance_id` is an end of, in order.
    pub fn connections_for_instance(&self, instance_id: &str) -> (r: Vec<String>)
        ensures
            in_order(views(r@)),
            forall|id: Seq<char>| #[trigger]
                views(r@).contains(id) <==> self@.wires.dom().contains(id) && (self@.wires[id].client_id
                    == instance_id@ || self@.wires[id].server_id == instance_id@),
    {
        let keys = self.wires.keys();
        let ghost all = views(keys@);
        let mut r: Vec<String> = Vec::new();
        let mut i: usize = 0;
        // the places in `keys` that `r` is made of
        let ghost mut places: Seq<int> = Seq::empty();
        while i < keys.len()
            invariant
                i <= keys@.len(),
                all == views(keys@),
                in_order(all),
                all.to_set() == self@.wires.dom(),
                places.len() == r@.len(),
                forall|k: int|
                    0 <= k < r@.len() ==> 0 <= #[trigger] places[k] < i && views(r@)[k] == all[places[k]]
                        && touches(self@, all[places[k]], instance_id@),
                forall|k: int, l: int| 0 <= k < l < places.len() ==> #[trigger] places[k] < #[trigger] places[l],
                forall|k: int|
                    0 <= k < i && touches(self@, #[trigger] all[k], instance_id@) ==> views(r@).contains(all[k]),
            decreases keys@.len() - i,
        {
            let key = &keys[i];
            proof {
                assert(all[i as int] == key@);
                assert(all.contains(key@));
                assert(all.to_set().contains(key@));
            }
            let ghost was = views(r@);
            let ghost hit = touches(self@, key@, instance_id@);
            if let Some(wire) = self.wires.get(key.as_str()) {
                if same_text(wire.client_id.as_str(), instance_id) || same_text(
                    wire.server_id.as_str(),
                    instance_id,
                ) {
                    r.push(key.clone());
                    proof {
                        assert(hit);
                        places = places.push(i as int);
                        assert(views(r@) =~= was.push(key@));
                    }
                }
            }
            i = i + 1;
            proof {
                assert forall|k: int| 0 <= k < i && touches(self@, #[trigger] all[k], instance_id@) implies views(
                    r@,
                ).contains(all[k]) by {
                    if k < i - 1 {
                        assert(was.contains(all[k]));
                        let j = was.index_of(all[k]);
                        assert(views(r@)[j] == all[k]);
                    } else {
                        assert(views(r@)[views(r@).len() - 1] == all[k]);
                    }
                }
            }
        }
        proof {
            assert forall|k: int, l: int| 0 <= k < l < views(r@).len() implies crate::dict::text_before(
                #[trigger] views(r@)[k],
                #[trigger] views(r@)[l],
            ) by {
                assert(places[k] < places[l]);
                assert(crate::dict::text_before(all[places[k]], all[places[l]]));
            }
            assert forall|id: Seq<char>| #[trigger] views(r@).contains(id) <==> touches(self@, id, instance_id@) by {
                if views(r@).contains(id) {
                    let k = views(r@).index_of(id);
                    assert(views(r@)[k] == all[places[k]]);
                }
                if touches(self@, id, instance_id@) {
                    assert(all.to_set().contains(id));
                    let k = all.index_of(id);
                    assert(all[k] == id);
                }
            }
        }
        r
    }

    // ── time ────────────────────────────────────────────────────────────

    /// The end of a window of `ms` from now, in milliseconds.
    pub fn window_end(&self, ms: Double) -> (r: Double)
        ensures
            r.value() == window_from(self@.clock.now, ms.value()),
    {
        self.clock.now().plus(ms.max_zero())
    }

    /// Goes on with a window that ends at `until`: fires the earliest event that
    /// comes due in it (one scheduled by an event of the same window too). Where
    /// there is none, parks the clock at the window's edge and is `Idle`.
    pub fn advance(&mut self, until: Double) -> (r: Step)
        ensures
            final(self)@ == old(self)@.advanced_in(until.value()).engine,
            old(self)@.reaches(until.value()) ==> old(self)@.reads(old(self)@.clock.queue[0].event),
            r@ == (if old(self)@.reaches(until.value()) {
                match old(self)@.advanced_in(until.value()).work {
                    Some(work) => StepOutcome::Ask(work),
                    None => StepOutcome::Done,
                }
            } else {
                StepOutcome::Idle
            }),
    {
        match self.clock.peek_due() {
            Some(due) if due.at_most(until) => self.step(),
            _ => {
                self.clock.park_at_least(until);
                Step::Idle
            },
        }
    }
}

/// Whether `instance` is an end of the live connection `conn`.
pub open spec fn touches(e: EngineView, conn: Seq<char>, instance: Seq<char>) -> bool {
    e.wires.dom().contains(conn) && (e.wires[conn].client_id == instance || e.wires[conn].server_id == instance)
}

/// The names of the functions of a protocol, in order.
pub open spec fn fn_names(proto: ProtocolView) -> Seq<Seq<char>> {
    Seq::new(proto.functions.len(), |i: int| proto.functions[i].name)
}

fn list_fn_names(proto: &ProtocolShape) -> (r: Vec<&str>)
    ensures
        views(r@) == fn_names(proto@),
{
    let mut r: Vec<&str> = Vec::new();
    let mut i: usize = 0;
    while i < proto.functions.len()
        invariant
            i <= proto.functions@.len(),
            r@.len() == i,
            forall|k: int| 0 <= k < i ==> (#[trigger] r@[k])@ == proto@.functions[k].name,
        decreases proto.functions@.len() - i,
    {
        assert(proto@.functions[i as int] == proto.functions@[i as int]@);
        r.push(proto.functions[i].name.as_str());
        i = i + 1;
    }
    assert(views(r@) =~= fn_names(proto@));
    r
}

} // verus!

//! The single-connection pump: one connection's worth of clock, random numbers,
//! [`Channel`] and server dispatcher, driven as a discrete-event simulation. A
//! call doesn't block: the request goes on the wire, and the reply lands later
//! when a delivery event brings the response frame back and [`Pump::result`] can
//! read it.
//!
//! The wire is a datagram wire that carries JSON. Its frames are the runtime's:
//! where one has to be made or read the pump hands out a [`PumpWork`], and goes
//! on with what the host brings back.

use std::collections::HashMap;
use serde_json::Value;
use vstd::prelude::*;
use vstd::std_specs::hash::*;
use crate::arith::{comes_by, edge_of, window_from};
use crate::behavior::{
    script_answer, script_run, scripted, zero_reply, zero_return, AskedView, BehaviorStep, Handler, HandlerView,
    OutcomeView, ReplyWith, SimOutcome, StepView,
};
use crate::clock::{free_until, instant_after, lemma_goes_first, next_number, number_after, Clock, Schedule};
use crate::contract::{
    maybe_request, maybe_response, CallView, Envelope, EnvelopeView, Request, RequestView, RuntimeError,
};
use crate::dict::{views, Copied, Dict};
use crate::double::Double;
use crate::engine::{engine_failure, envelope_of, enveloped, failure};
use crate::faults::{Direction, FaultSpec};
use crate::fixtures;
use crate::format::Codec;
use crate::frame::Tap;
use crate::framing::low16;
use crate::generic::{behaviors_after, dispatched, resolved, BehaviorMap, GenericDispatch};
use crate::json;
use crate::json::{content, members_of, Json};
use crate::rng::Mulberry32;
use crate::shape::{find_protocol, FnView, Framing, ProjectShape, ProjectView, ProtocolShape, ProtocolView, TypeDef, TypeDefView};
use crate::trips;
use crate::trips::{answer_at, comes_back, comes_through};
use crate::wire::{delay_micros, law_clean_wire_passes_through, Channel, ChannelView, Fate, SendOutcome, REORDER_FLUSH};

verus! {

broadcast use group_hash_axioms;

// ── what the pump is made of ────────────────────────────────────────────

/// What a settled call produced.
#[derive(Debug, PartialEq)]
pub enum CallResult {
    /// A decoded success value.
    Success(Value),
    /// A raised schema error: its schema-global `ordinal` and decoded `body`.
    Failure { ordinal: u16, body: Value },
    /// The response frame arrived but its body would not decode, e.g. a
    /// corrupted wire. The call never gets a clean value.
    Undecodable(String),
}

/// What a [`CallResult`] holds.
#[verifier::ext_equal]
pub ghost enum ResultView {
    Success(Json),
    Failure { ordinal: u16, body: Json },
    Undecodable(Seq<char>),
}

impl View for CallResult {
    type V = ResultView;

    open spec fn view(&self) -> ResultView {
        match self {
            CallResult::Success(value) => ResultView::Success(content(*value)),
            CallResult::Failure { ordinal, body } => ResultView::Failure { ordinal: *ordinal, body: content(*body) },
            CallResult::Undecodable(message) => ResultView::Undecodable(message@),
        }
    }
}

/// A scheduled step of the simulation.
pub enum Event {
    /// A request frame has arrived at the server.
    DeliverToServer(Vec<u8>),
    /// A response frame has arrived at the client.
    DeliverToClient(Vec<u8>),
    /// The reorder buffer should be released now.
    FlushReorder(Direction),
    /// A `delay` behaviour's timer elapsed: frame and send its reply now.
    CompleteReply { request_id: u64, outcome: SimOutcome },
}

/// What an [`Event`] holds.
#[verifier::ext_equal]
pub ghost enum EventView {
    DeliverToServer(Seq<u8>),
    DeliverToClient(Seq<u8>),
    FlushReorder(Direction),
    CompleteReply { request_id: u64, outcome: OutcomeView },
}

impl View for Event {
    type V = EventView;

    open spec fn view(&self) -> EventView {
        match self {
            Event::DeliverToServer(frame) => EventView::DeliverToServer(frame@),
            Event::DeliverToClient(frame) => EventView::DeliverToClient(frame@),
            Event::FlushReorder(dir) => EventView::FlushReorder(*dir),
            Event::CompleteReply { request_id, outcome } => EventView::CompleteReply {
                request_id: *request_id,
                outcome: outcome@,
            },
        }
    }
}

/// A call that has its id, and whose request frame the host makes.
#[derive(Debug, PartialEq)]
pub struct PumpCall {
    pub call_id: u16,
    pub request_id: u64,
    pub body: Vec<u8>,
    pub one_way: bool,
}

/// What a [`PumpCall`] holds.
#[verifier::ext_equal]
pub ghost struct PumpCallView {
    pub call_id: u16,
    pub request_id: u64,
    pub body: Seq<u8>,
    pub one_way: bool,
}

impl View for PumpCall {
    type V = PumpCallView;

    open spec fn view(&self) -> PumpCallView {
        PumpCallView {
            call_id: self.call_id,
            request_id: self.request_id,
            body: self.body@,
            one_way: self.one_way,
        }
    }
}

/// What the pump asks of the host.
#[derive(Debug, PartialEq)]
pub enum PumpWork {
    /// Decode a request frame, for [`Pump::request_decoded`].
    DecodeRequest(Vec<u8>),
    /// Decode a response frame, for [`Pump::response_decoded`].
    DecodeResponse(Vec<u8>),
    /// Frame a response, for [`Pump::reply_framed`].
    FrameReply { request_id: u64, envelope: Envelope },
    /// Run a script on the params of a call, for [`Pump::script_ran`].
    RunScript { request_id: u64, source: String, params: Value, oneway: bool },
}

/// What a [`PumpWork`] holds.
#[verifier::ext_equal]
pub ghost enum PumpWorkView {
    DecodeRequest(Seq<u8>),
    DecodeResponse(Seq<u8>),
    FrameReply { request_id: u64, envelope: EnvelopeView },
    RunScript { request_id: u64, source: Seq<char>, params: Json, oneway: bool },
}

impl View for PumpWork {
    type V = PumpWorkView;

    open spec fn view(&self) -> PumpWorkView {
        match self {
            PumpWork::DecodeRequest(frame) => PumpWorkView::DecodeRequest(frame@),
            PumpWork::DecodeResponse(frame) => PumpWorkView::DecodeResponse(frame@),
            PumpWork::FrameReply { request_id, envelope } => PumpWorkView::FrameReply {
                request_id: *request_id,
                envelope: envelope@,
            },
            PumpWork::RunScript { request_id, source, params, oneway } => PumpWorkView::RunScript {
                request_id: *request_id,
                source: source@,
                params: content(*params),
                oneway: *oneway,
            },
        }
    }
}

/// What optional work holds.
pub open spec fn maybe_work(w: Option<PumpWork>) -> Option<PumpWorkView> {
    match w {
        Some(w) => Some(w@),
        None => None,
    }
}

/// What firing an event came to.
#[derive(Debug, PartialEq)]
pub enum PumpStep {
    /// The queue was empty.
    Idle,
    /// The event is done with.
    Done,
    /// The host has to go on.
    Ask(PumpWork),
}

/// What a [`PumpStep`] holds.
#[verifier::ext_equal]
pub ghost enum PumpStepView {
    Idle,
    Done,
    Ask(PumpWorkView),
}

impl View for PumpStep {
    type V = PumpStepView;

    open spec fn view(&self) -> PumpStepView {
        match self {
            PumpStep::Idle => PumpStepView::Idle,
            PumpStep::Done => PumpStepView::Done,
            PumpStep::Ask(work) => PumpStepView::Ask(work@),
        }
    }
}

pub struct Pump {
    pub clock: Clock<Event>,
    pub rng: Mulberry32,
    pub channel: Channel,
    pub dispatch: GenericDispatch,
    pub behaviors: BehaviorMap,
    pub next_request_id: u64,
    pub results: HashMap<u64, CallResult>,
}

/// What a [`Pump`] holds.
#[verifier::ext_equal]
pub ghost struct PumpView {
    pub clock: Schedule<EventView>,
    pub rng: u32,
    pub channel: ChannelView,
    pub proto: ProtocolView,
    pub behaviors: Map<Seq<char>, HandlerView>,
    pub next_request_id: u64,
    pub results: Map<u64, ResultView>,
}

impl View for Pump {
    type V = PumpView;

    open spec fn view(&self) -> PumpView {
        PumpView {
            clock: self.clock@,
            rng: self.rng@,
            channel: self.channel@,
            proto: self.dispatch.proto@,
            behaviors: self.behaviors@,
            next_request_id: self.next_request_id,
            results: self.results@.map_values(|r: CallResult| r@),
        }
    }
}

// ── what its operations do ──────────────────────────────────────────────

/// A pump, and what it asks of the host.
#[verifier::ext_equal]
pub ghost struct Turn {
    pub pump: PumpView,
    pub work: Option<PumpWorkView>,
}

/// The event that a frame travelling in `dir` turns into.
pub open spec fn delivery(dir: Direction, frame: Seq<u8>) -> EventView {
    match dir {
        Direction::Request => EventView::DeliverToServer(frame),
        Direction::Response => EventView::DeliverToClient(frame),
    }
}

/// The clock with the delivery of each of `frames` queued, in this order.
pub open spec fn deliveries(clock: Schedule<EventView>, delay: i64, dir: Direction, frames: Seq<Seq<u8>>) -> Schedule<
    EventView,
>
    decreases frames.len(),
{
    if frames.len() == 0 {
        clock
    } else {
        deliveries(clock, delay, dir, frames.drop_last()).scheduled(delay, delivery(dir, frames.last()))
    }
}

/// What a response comes to at the client.
pub open spec fn result_of(envelope: EnvelopeView) -> ResultView {
    match envelope {
        EnvelopeView::Success(payload) => match Codec::Json.decoded(payload) {
            Some(value) => ResultView::Success(value),
            None => ResultView::Undecodable("ok body did not decode"@),
        },
        EnvelopeView::Failure { id, body } => ResultView::Failure {
            ordinal: id,
            body: if body.len() == 0 {
                Json::Null
            } else {
                match Codec::Json.decoded(body) {
                    Some(value) => value,
                    None => Json::Null,
                }
            },
        },
    }
}

/// "Reply with the zero value of the return type" for every function.
pub open spec fn zero_replies(functions: Seq<FnView>, types: Seq<TypeDefView>) -> Map<Seq<char>, HandlerView>
    decreases functions.len(),
{
    if functions.len() == 0 {
        Map::empty()
    } else {
        let f = functions.last();
        zero_replies(functions.drop_last(), types).insert(f.name, HandlerView::Reply(zero_return(f, types)))
    }
}

impl PumpView {
    /// A pump over `proto`, at the start.
    pub open spec fn over(proto: ProtocolView, types: Seq<TypeDefView>) -> PumpView {
        PumpView {
            clock: Schedule { now: 0, seq: 0, queue: Seq::empty() },
            rng: 1,
            channel: ChannelView::fresh("client"@, "server"@),
            proto,
            behaviors: zero_replies(proto.functions, types),
            next_request_id: 0,
            results: Map::empty(),
        }
    }

    /// With a frame in `dir` handed to the channel, and what the channel decided
    /// scheduled.
    pub open spec fn emitted(self, dir: Direction, frame: Seq<u8>) -> PumpView {
        let sent = self.channel.sent(dir, frame, self.clock.millis(), self.rng);
        PumpView {
            channel: sent.channel,
            rng: sent.rng,
            clock: match sent.fate {
                Fate::Dropped => self.clock,
                Fate::Deliver { frames, delay } => deliveries(self.clock, delay_micros(delay), dir, frames),
                Fate::Buffered { schedule_flush } => if schedule_flush {
                    self.clock.scheduled(REORDER_FLUSH, EventView::FlushReorder(dir))
                } else {
                    self.clock
                },
            },
            ..self
        }
    }

    /// The call of `fn_name` with `params`, or why there is none.
    pub open spec fn outgoing(self, fn_name: Seq<char>, params: Json) -> Result<PumpCallView, RuntimeError> {
        match self.proto.function(fn_name) {
            None => Err(RuntimeError::UnknownCall),
            Some(function) => match Codec::Json.encoded(params) {
                None => Err(RuntimeError::Serialization),
                Some(body) => Ok(
                    PumpCallView {
                        call_id: low16(function.index as int),
                        request_id: next_number(self.next_request_id),
                        body,
                        one_way: function.oneway,
                    },
                ),
            },
        }
    }

    /// After a call was prepared: its id is taken, unless there is no such
    /// function.
    pub open spec fn prepared(self, fn_name: Seq<char>) -> PumpView {
        if self.proto.function(fn_name) is None {
            self
        } else {
            PumpView { next_request_id: next_number(self.next_request_id), ..self }
        }
    }

    /// With the frame of a call on the wire. A one-way call never gets a
    /// response, and has its result at once.
    pub open spec fn issued(self, job: PumpCallView, frame: Seq<u8>) -> PumpView {
        let sent = self.emitted(Direction::Request, frame);
        if job.one_way {
            PumpView { results: sent.results.insert(job.request_id, ResultView::Success(Json::Null)), ..sent }
        } else {
            sent
        }
    }

    /// What an answer to `request_id` comes to.
    pub open spec fn replied(self, request_id: u64, outcome: OutcomeView) -> Turn {
        Turn {
            pump: self,
            work: match enveloped(outcome, Codec::Json) {
                Some(envelope) => Some(PumpWorkView::FrameReply { request_id, envelope }),
                None => None,
            },
        }
    }

    /// What a request at the server comes to. A frame that did not decode, a call
    /// that is unknown, and params that do not decode, get no answer; a forward
    /// is answered with an error, as there is nothing to relay on.
    pub open spec fn served(self, request: Option<RequestView>) -> Turn {
        match request {
            None => Turn { pump: self, work: None },
            Some(req) => {
                let ran = PumpView {
                    behaviors: behaviors_after(self.proto, req.call, req.params, Codec::Json, self.behaviors),
                    ..self
                };
                match dispatched(self.proto, req.call, req.params, Codec::Json, self.behaviors) {
                    Err(_) => Turn { pump: ran, work: None },
                    Ok(StepView::Now(outcome)) => ran.replied(req.request_id, outcome),
                    Ok(StepView::After { delay_ms, outcome }) => Turn {
                        pump: PumpView {
                            clock: ran.clock.scheduled(
                                delay_ms.micros() as i64,
                                EventView::CompleteReply { request_id: req.request_id, outcome },
                            ),
                            ..ran
                        },
                        work: None,
                    },
                    Ok(StepView::Hang) => Turn { pump: ran, work: None },
                    Ok(StepView::Forward { .. }) => ran.replied(
                        req.request_id,
                        engine_failure("forwarding is only available in the engine"@),
                    ),
                    Ok(StepView::Script { source, params, oneway }) => Turn {
                        pump: ran,
                        work: Some(PumpWorkView::RunScript { request_id: req.request_id, source, params, oneway }),
                    },
                }
            },
        }
    }

    /// With the call that a response belongs to settled.
    pub open spec fn received(self, response: Option<(u64, EnvelopeView)>) -> PumpView {
        match response {
            None => self,
            Some((request_id, envelope)) => PumpView {
                results: self.results.insert(request_id, result_of(envelope)),
                ..self
            },
        }
    }

    /// With the reorder buffer released.
    pub open spec fn flushed(self, dir: Direction) -> PumpView {
        PumpView {
            channel: self.channel.flushed(),
            rng: self.channel.flush_state(self.rng),
            clock: deliveries(self.clock, 0, dir, self.channel.released(self.rng)),
            ..self
        }
    }

    /// What an event comes to.
    pub open spec fn applied(self, event: EventView) -> Turn {
        match event {
            EventView::DeliverToServer(frame) => Turn { pump: self, work: Some(PumpWorkView::DecodeRequest(frame)) },
            EventView::DeliverToClient(frame) => Turn { pump: self, work: Some(PumpWorkView::DecodeResponse(frame)) },
            EventView::FlushReorder(dir) => Turn { pump: self.flushed(dir), work: None },
            EventView::CompleteReply { request_id, outcome } => self.replied(request_id, outcome),
        }
    }

    /// What the next event comes to.
    pub open spec fn stepped(self) -> Turn {
        if self.clock.queue.len() == 0 {
            Turn { pump: self, work: None }
        } else {
            PumpView { clock: self.clock.popped(), ..self }.applied(self.clock.queue[0].event)
        }
    }

    /// Whether an event comes due by `until` milliseconds.
    pub open spec fn reaches(self, until: Option<int>) -> bool {
        self.clock.queue.len() > 0 && comes_by(self.clock.queue[0].due, until)
    }

    /// What comes next in a window that ends at `until` milliseconds: the event that
    /// is due in it, or else the end, with the clock parked at the nearest
    /// microsecond.
    pub open spec fn advanced_in(self, until: Option<int>) -> Turn {
        if self.reaches(until) {
            self.stepped()
        } else {
            Turn {
                pump: PumpView { clock: self.clock.parked(edge_of(until) as i64), ..self },
                work: None,
            }
        }
    }
}

// ── the built-in chat ───────────────────────────────────────────────────

/// The built-in chat shape that [`Pump::new`] drives.
pub fn chat_shape() -> (r: ProjectShape)
    ensures
        r@ == (ProjectView { schemas: seq![fixtures::chat_schema()] }),
{
    fixtures::shape()
}

/// The message that `send` replies with in [`Pump::new`].
pub open spec fn hello() -> Json {
    Json::Object(Map::empty().insert("body"@, Json::Text("HELLO"@)).insert("seq"@, Json::whole(1)))
}

fn hello_value() -> (r: Value)
    ensures
        content(r) == hello(),
{
    let mut members: Vec<(String, Value)> = Vec::new();
    members.push(("body".to_owned(), json::text("HELLO".to_owned())));
    members.push(("seq".to_owned(), json::whole(1)));
    proof {
        reveal_with_fuel(members_of, 3);
        assert(members@.drop_last().drop_last() =~= Seq::empty());
        assert(members@.drop_last().last() == members@[0]);
        assert(members_of(members@) =~= hello()->Object_0);
    }
    json::object(members)
}

/// "Reply with the zero value of the return type" for every function: the
/// starting behaviour that a freshly-placed server instance runs.
fn default_behaviors(proto: &ProtocolShape, types: &Vec<TypeDef>) -> (r: BehaviorMap)
    ensures
        r@ == zero_replies(proto@.functions, views(types@)),
{
    let ghost all = proto@.functions;
    let mut out: BehaviorMap = Dict::new();
    let mut i: usize = 0;
    assert(all.take(0) =~= Seq::empty());
    while i < proto.functions.len()
        invariant
            i <= proto.functions@.len(),
            all == proto@.functions,
            out@ == zero_replies(all.take(i as int), views(types@)),
        decreases proto.functions@.len() - i,
    {
        let f = &proto.functions[i];
        proof {
            assert(all.take(i + 1).drop_last() =~= all.take(i as int));
            assert(all.take(i + 1).last() == f@);
        }
        out.insert(f.name.clone(), Handler::Reply(ReplyWith { value: zero_reply(f, types) }));
        i = i + 1;
    }
    assert(all.take(i as int) =~= all);
    out
}

fn deliver_event(dir: Direction, frame: Vec<u8>) -> (r: Event)
    ensures
        r@ == delivery(dir, frame@),
{
    match dir {
        Direction::Request => Event::DeliverToServer(frame),
        Direction::Response => Event::DeliverToClient(frame),
    }
}

/// What a response comes to at the client.
fn call_result(envelope: &Envelope) -> (r: CallResult)
    ensures
        r@ == result_of(envelope@),
{
    match envelope {
        Envelope::Success(payload) => match Codec::Json.decode(payload.as_slice()) {
            Ok(value) => CallResult::Success(value),
            Err(_) => CallResult::Undecodable("ok body did not decode".to_owned()),
        },
        Envelope::Failure { id, body } => {
            let body = if body.len() == 0 {
                json::null()
            } else {
                match Codec::Json.decode(body.as_slice()) {
                    Ok(value) => value,
                    Err(_) => json::null(),
                }
            };
            CallResult::Failure { ordinal: *id, body }
        },
    }
}

impl Default for Pump {
    fn default() -> (r: Self)
        ensures
            r@ == PumpView::chat(),
    {
        Pump::new()
    }
}

impl PumpView {
    /// A pump over the built-in chat protocol, with `send` set to reply with a
    /// fixed message.
    pub open spec fn chat() -> PumpView {
        let start = PumpView::over(
            fixtures::proto_view(fixtures::chat_functions()),
            seq![fixtures::message_view()],
        );
        PumpView { behaviors: start.behaviors.insert("send"@, HandlerView::Reply(hello())), ..start }
    }
}

impl Pump {
    /// A pump over the built-in chat protocol, `send` seeded to reply with a
    /// fixed message.
    pub fn new() -> (r: Self)
        ensures
            r@ == PumpView::chat(),
    {
        let schema = fixtures::schema();
        let proto = fixtures::proto();
        let mut pump = Pump::over(&proto, &schema.types);
        pump.set_behavior("send", Handler::Reply(ReplyWith { value: hello_value() }));
        pump
    }

    /// A pump over `proto`, every function seeded with the zero value of its
    /// return type.
    fn over(proto: &ProtocolShape, types: &Vec<TypeDef>) -> (r: Self)
        ensures
            r@ == PumpView::over(proto@, views(types@)),
    {
        let r = Pump {
            clock: Clock::new(),
            rng: Mulberry32::new(1),
            channel: Channel::new("client".to_owned(), "server".to_owned()),
            behaviors: default_behaviors(proto, types),
            dispatch: GenericDispatch::new(proto.copied()),
            next_request_id: 0,
            results: HashMap::new(),
        };
        assert(r@ =~= PumpView::over(proto@, views(types@)));
        r
    }

    /// A pump for the `ns::protocol` of a compiled project. Every function is
    /// seeded with "reply with the zero value of its return type"; the caller then
    /// swaps in the behaviours the session wants. `None` if the protocol isn't in
    /// the shape, or isn't datagram-framed.
    pub fn from_shape(shape: &ProjectShape, ns: &str, protocol: &str) -> (r: Option<Self>)
        ensures
            match r {
                Some(pump) => shape@.protocol(ns@, protocol@) matches Some((schema, proto)) && proto.framing
                    == Framing::Datagram && pump@ == PumpView::over(proto, schema.types),
                None => !(shape@.protocol(ns@, protocol@) matches Some((_, proto)) && proto.framing
                    == Framing::Datagram),
            },
    {
        match find_protocol(shape, ns, protocol) {
            Some((schema, proto)) => if proto.framing == Framing::Datagram {
                Some(Pump::over(proto, &schema.types))
            } else {
                None
            },
            None => None,
        }
    }

    // ── knobs ───────────────────────────────────────────────────────────

    pub fn faults_mut(&mut self) -> (r: &mut FaultSpec)
        ensures
            *r == old(self)@.channel.faults,
            final(self)@ == (PumpView {
                channel: ChannelView { faults: *final(r), ..old(self)@.channel },
                ..old(self)@
            }),
    {
        self.channel.faults_mut()
    }

    pub fn set_latency(&mut self, ms: Double)
        ensures
            final(self)@ == (PumpView {
                channel: ChannelView { latency_ms: ms.above_zero(), ..old(self)@.channel },
                ..old(self)@
            }),
    {
        self.channel.set_latency(ms);
    }

    /// Re-seeds the fault rolls. A stepped run from a fixed seed is reproducible.
    pub fn set_seed(&mut self, seed: u32)
        ensures
            final(self)@ == (PumpView { rng: seed, ..old(self)@ }),
    {
        self.rng = Mulberry32::new(seed);
    }

    /// Swaps the server behaviour for `fn_name`; takes effect on the next call.
    pub fn set_behavior(&mut self, fn_name: &str, behavior: Handler)
        ensures
            final(self)@ == (PumpView {
                behaviors: old(self)@.behaviors.insert(fn_name@, behavior@),
                ..old(self)@
            }),
    {
        let _ = self.behaviors.insert(fn_name.to_owned(), behavior);
    }

    // ── observation ─────────────────────────────────────────────────────

    /// The current virtual time, in milliseconds.
    pub fn now(&self) -> (r: Double)
        ensures
            r.value() == self@.clock.millis(),
            self@.clock.now >= 0 ==> !r.negative(),
    {
        self.clock.now()
    }

    pub fn pending(&self) -> (r: usize)
        ensures
            r == self@.clock.queue.len(),
    {
        self.clock.pending()
    }

    pub fn tap(&self) -> (r: &Tap)
        ensures
            r@ == self@.channel.tap,
    {
        &self.channel.tap
    }

    pub fn protocol(&self) -> (r: &ProtocolShape)
        ensures
            r@ == self@.proto,
    {
        self.dispatch.protocol()
    }

    /// The outcome of the call with request id `id`, once it has settled.
    pub fn result(&self, id: u64) -> (r: Option<&CallResult>)
        ensures
            match r {
                Some(result) => self@.results.dom().contains(id) && result@ == self@.results[id],
                None => !self@.results.dom().contains(id),
            },
    {
        self.results.get(&id)
    }

    // ── driving ─────────────────────────────────────────────────────────

    /// Takes the id of a call to the function named `fn_name` with `params`, whose
    /// request frame the host makes for [`Pump::request_framed`]. `UnknownCall` if
    /// the protocol has no such function.
    pub fn call(&mut self, fn_name: &str, params: &Value) -> (r: Result<PumpCall, RuntimeError>)
        ensures
            final(self)@ == old(self)@.prepared(fn_name@),
            match r {
                Ok(job) => old(self)@.outgoing(fn_name@, content(*params)) == Ok::<PumpCallView, RuntimeError>(job@),
                Err(e) => old(self)@.outgoing(fn_name@, content(*params)) == Err::<PumpCallView, RuntimeError>(e),
            },
    {
        let function = match self.dispatch.proto.function(fn_name) {
            Some(f) => f,
            None => return Err(RuntimeError::UnknownCall),
        };
        let call_id: u16 = (function.index % 0x1_0000) as u16;
        let one_way = function.oneway;
        let request_id: u64 = number_after(self.next_request_id);
        self.next_request_id = request_id;
        match Codec::Json.encode(params) {
            Ok(body) => Ok(PumpCall { call_id, request_id, body, one_way }),
            Err(_) => Err(RuntimeError::Serialization),
        }
    }

    /// Puts the request frame of a call on the wire.
    pub fn request_framed(&mut self, job: &PumpCall, frame: &Vec<u8>)
        ensures
            final(self)@ == old(self)@.issued(job@, frame@),
    {
        let ghost before = self@;
        self.emit(Direction::Request, frame);
        let ghost sent = self@;
        if job.one_way {
            self.results.insert(job.request_id, CallResult::Success(json::null()));
            assert(self@.results =~= sent.results.insert(job.request_id, ResultView::Success(Json::Null)));
        }
        assert(self@ =~= before.issued(job@, frame@));
    }

    /// Fires the single earliest event.
    pub fn step(&mut self) -> (r: PumpStep)
        ensures
            final(self)@ == old(self)@.stepped().pump,
            r@ == (if old(self)@.clock.queue.len() == 0 {
                PumpStepView::Idle
            } else {
                match old(self)@.stepped().work {
                    Some(work) => PumpStepView::Ask(work),
                    None => PumpStepView::Done,
                }
            }),
    {
        let ghost before = self@;
        let event = match self.clock.pop_next() {
            Some(event) => event,
            None => {
                assert(self@ =~= before);
                return PumpStep::Idle;
            },
        };
        assert(self@ =~= PumpView { clock: before.clock.popped(), ..before });
        match self.apply(event) {
            Some(work) => PumpStep::Ask(work),
            None => PumpStep::Done,
        }
    }

    /// Goes on with a request frame that the host has decoded, or could not: runs
    /// its behaviour and acts on the step.
    pub fn request_decoded(&mut self, request: Option<Request>) -> (r: Option<PumpWork>)
        ensures
            final(self)@ == old(self)@.served(maybe_request(request)).pump,
            maybe_work(r) == old(self)@.served(maybe_request(request)).work,
    {
        let ghost before = self@;
        let req = match request {
            Some(req) => req,
            None => return None,
        };
        let request_id: u64 = req.request_id;
        let step = self.dispatch.dispatch(&req.call, req.params.as_slice(), Codec::Json, &mut self.behaviors);
        assert(self@ =~= PumpView {
            behaviors: behaviors_after(before.proto, req@.call, req@.params, Codec::Json, before.behaviors),
            ..before
        });
        match step {
            // unknown call / undecodable params: no response, the call stays open
            Err(_) => None,
            Ok(BehaviorStep::Now(outcome)) => self.reply_now(request_id, outcome),
            Ok(BehaviorStep::After { delay_ms, outcome }) => {
                let _ = self.clock.schedule(delay_ms, Event::CompleteReply { request_id, outcome });
                None
            },
            Ok(BehaviorStep::Hang) => None,
            Ok(BehaviorStep::Forward { .. }) => self.reply_now(
                request_id,
                failure("forwarding is only available in the engine".to_owned()),
            ),
            Ok(BehaviorStep::Script { source, params, oneway }) => Some(
                PumpWork::RunScript { request_id, source, params, oneway },
            ),
        }
    }

    /// Goes on with a call whose script the host has run, or could not.
    pub fn script_ran(&mut self, request_id: u64, oneway: bool, ran: Result<Value, String>) -> (r: Option<PumpWork>)
        ensures
            final(self)@ == old(self)@.replied(request_id, scripted(oneway, script_run(ran))).pump,
            maybe_work(r) == old(self)@.replied(request_id, scripted(oneway, script_run(ran))).work,
    {
        self.reply_now(request_id, script_answer(oneway, ran))
    }

    /// Goes on with a response frame that the host has decoded, or could not:
    /// settles the matching call.
    pub fn response_decoded(&mut self, response: Option<(u64, Envelope)>)
        ensures
            final(self)@ == old(self)@.received(maybe_response(response)),
    {
        let ghost before = self@;
        if let Some((request_id, envelope)) = response {
            let result = call_result(&envelope);
            let ghost result0 = result@;
            self.results.insert(request_id, result);
            assert(self@.results =~= before.results.insert(request_id, result0));
        }
        assert(self@ =~= before.received(maybe_response(response)));
    }

    /// Goes on with a response whose frame the host has made.
    pub fn reply_framed(&mut self, frame: &Vec<u8>)
        ensures
            final(self)@ == old(self)@.emitted(Direction::Response, frame@),
    {
        self.emit(Direction::Response, frame);
    }

    /// The end of a window of `ms` from now, in milliseconds.
    pub fn window_end(&self, ms: Double) -> (r: Double)
        ensures
            r.value() == window_from(self@.clock.now, ms.value()),
    {
        self.clock.now().plus(ms.max_zero())
    }

    /// Goes on with a window that ends at `until`: fires the earliest event that
    /// comes due in it (one scheduled by an event of the same window too). Where
    /// there is none, parks the clock at the window's edge and is `Idle`.
    pub fn advance(&mut self, until: Double) -> (r: PumpStep)
        ensures
            final(self)@ == old(self)@.advanced_in(until.value()).pump,
            r@ == (if old(self)@.reaches(until.value()) {
                match old(self)@.advanced_in(until.value()).work {
                    Some(work) => PumpStepView::Ask(work),
                    None => PumpStepView::Done,
                }
            } else {
                PumpStepView::Idle
            }),
    {
        match self.clock.peek_due() {
            Some(due) if due.at_most(until) => self.step(),
            _ => {
                self.clock.park_at_least(until);
                PumpStep::Idle
            },
        }
    }

    // ── internals ───────────────────────────────────────────────────────

    /// Queues the delivery of each of `frames`.
    fn deliver(&mut self, delay: i64, dir: Direction, frames: Vec<Vec<u8>>)
        ensures
            final(self)@ == (PumpView {
                clock: deliveries(old(self)@.clock, delay, dir, views(frames@)),
                ..old(self)@
            }),
    {
        let ghost before = self@;
        let ghost all = views(frames@);
        let mut left = frames;
        let mut done: usize = 0;
        let total: usize = left.len();
        assert(all.take(0) =~= Seq::empty());
        while done < total
            invariant
                done <= total,
                total == all.len(),
                views(left@) == all.skip(done as int),
                self@ == (PumpView {
                    clock: deliveries(before.clock, delay, dir, all.take(done as int)),
                    ..before
                }),
            decreases total - done,
        {
            let ghost was = views(left@);
            assert(was.len() == left@.len());
            let frame = left.remove(0);
            proof {
                let t = all.take(done + 1);
                assert(t.drop_last() =~= all.take(done as int));
                assert(views(left@) =~= was.drop_first());
                assert(was.drop_first() =~= all.skip(done + 1));
                assert(was[0] == all[done as int]);
                assert(t.last() == frame@);
            }
            let _ = self.clock.schedule_micros(delay, deliver_event(dir, frame));
            done = done + 1;
        }
        assert(all.take(done as int) =~= all);
    }

    /// Hands a frame to the channel and schedules whatever it decided.
    fn emit(&mut self, dir: Direction, frame: &Vec<u8>)
        ensures
            final(self)@ == old(self)@.emitted(dir, frame@),
    {
        let ghost before = self@;
        let now = self.clock.now();
        match self.channel.send(dir, frame.as_slice(), now, &mut self.rng) {
            SendOutcome::Dropped => {},
            SendOutcome::Deliver { frames, delay_ms } => {
                self.deliver(delay_ms.to_micros(), dir, frames);
            },
            SendOutcome::Buffered { schedule_flush } => {
                if schedule_flush {
                    let _ = self.clock.schedule_micros(REORDER_FLUSH, Event::FlushReorder(dir));
                }
            },
        }
        assert(self@ =~= before.emitted(dir, frame@));
    }

    fn apply(&mut self, event: Event) -> (r: Option<PumpWork>)
        ensures
            final(self)@ == old(self)@.applied(event@).pump,
            maybe_work(r) == old(self)@.applied(event@).work,
    {
        match event {
            Event::DeliverToServer(frame) => Some(PumpWork::DecodeRequest(frame)),
            Event::DeliverToClient(frame) => Some(PumpWork::DecodeResponse(frame)),
            Event::FlushReorder(dir) => {
                let frames = self.channel.flush_reorder(&mut self.rng);
                self.deliver(0, dir, frames);
                assert(self@ =~= old(self)@.flushed(dir));
                None
            },
            Event::CompleteReply { request_id, outcome } => self.reply_now(request_id, outcome),
        }
    }

    /// Puts `outcome` in a response to `request_id`, whose frame the host makes.
    fn reply_now(&mut self, request_id: u64, outcome: SimOutcome) -> (r: Option<PumpWork>)
        ensures
            final(self)@ == old(self)@.replied(request_id, outcome@).pump,
            maybe_work(r) == old(self)@.replied(request_id, outcome@).work,
    {
        match envelope_of(outcome, Codec::Json) {
            Some(envelope) => Some(PumpWork::FrameReply { request_id, envelope }),
            None => None,
        }
    }
}

// ── laws ────────────────────────────────────────────────────────────────

proof fn lemma_deliveries_keep_time(clock: Schedule<EventView>, delay: i64, dir: Direction, frames: Seq<Seq<u8>>)
    ensures
        deliveries(clock, delay, dir, frames).now == clock.now,
    decreases frames.len(),
{
    if frames.len() > 0 {
        lemma_deliveries_keep_time(clock, delay, dir, frames.drop_last());
    }
}

/// Time only moves when an event fires, and then to the instant that the event
/// was due at: never backwards. Nothing that the host brings back moves it.
pub proof fn law_a_pump_moves_time_with_events(
    p: PumpView,
    request: Option<RequestView>,
    response: Option<(u64, EnvelopeView)>,
    dir: Direction,
    frame: Seq<u8>,
)
    ensures
        p.stepped().pump.clock.now >= p.clock.now,
        p.clock.queue.len() > 0 ==> p.stepped().pump.clock.now == (if p.clock.queue[0].due > p.clock.now {
            p.clock.queue[0].due
        } else {
            p.clock.now
        }),
        p.clock.queue.len() == 0 ==> p.stepped() == (Turn { pump: p, work: None }),
        p.served(request).pump.clock.now == p.clock.now,
        p.received(response).clock.now == p.clock.now,
        p.emitted(dir, frame).clock.now == p.clock.now,
{
    if p.clock.queue.len() > 0 {
        let next = PumpView { clock: p.clock.popped(), ..p };
        if let EventView::FlushReorder(dir) = p.clock.queue[0].event {
            lemma_deliveries_keep_time(next.clock, 0, dir, next.channel.released(next.rng));
        }
    }
    let now = p.clock.millis();
    if let Fate::Deliver { frames, delay } = p.channel.sent(dir, frame, now, p.rng).fate {
        lemma_deliveries_keep_time(p.clock, delay_micros(delay), dir, frames);
    }
}

/// A response settles the call that it belongs to, and no other. One that did not
/// decode settles none.
pub proof fn law_a_response_settles_its_call_alone(p: PumpView, id: u64, envelope: EnvelopeView)
    ensures
        ({
            let after = p.received(Some((id, envelope)));
            &&& after == (PumpView { results: after.results, ..p })
            &&& after.results.dom().contains(id)
            &&& after.results[id] == result_of(envelope)
            &&& forall|other: u64|
                other != id ==> {
                    &&& #[trigger] after.results.dom().contains(other) == p.results.dom().contains(other)
                    &&& after.results[other] == p.results[other]
                }
        }),
        p.received(None) == p,
{
}

/// A one-way call has its result at once: there is no response to wait for.
pub proof fn law_a_one_way_call_settles_at_once(p: PumpView, job: PumpCallView, frame: Seq<u8>)
    ensures
        job.one_way ==> p.issued(job, frame).results == p.results.insert(job.request_id, ResultView::Success(Json::Null)),
        !job.one_way ==> p.issued(job, frame).results == p.results,
{
}

/// What a step of a behaviour answers with by itself: at once, or after a while. There
/// is nothing to forward on.
pub open spec fn answer_in(step: StepView) -> Option<OutcomeView> {
    match step {
        StepView::Forward { .. } => Some(engine_failure("forwarding is only available in the engine"@)),
        _ => trips::answer_in(step),
    }
}

/// What a call comes to that is answered with `outcome`.
pub open spec fn answered_with(outcome: OutcomeView) -> ResultView {
    match outcome {
        OutcomeView::Success(value) => ResultView::Success(value),
        OutcomeView::Failure { ordinal, data } => ResultView::Failure { ordinal, body: data },
        OutcomeView::Nothing => ResultView::Success(Json::Null),
    }
}

/// The step that the server's behaviour for `function` makes of a call.
pub open spec fn step_for(p: PumpView, function: FnView, params: Json) -> StepView {
    p.behaviors[function.name].step(AskedView { params, function, protocol: p.proto })
}

/// The instant at which a frame that leaves at `now` arrives.
pub open spec fn arrival(now: i64, p: PumpView) -> i64 {
    instant_after(now, p.channel.latency_ms.micros() as i64)
}

/// The instant at which the answer to a call is back.
pub open spec fn home_at(p: PumpView, step: StepView) -> i64 {
    arrival(answer_at(arrival(p.clock.now, p), step), p)
}

/// Whether a call of `function` goes over a clean wire to a server that answers it with
/// `outcome`, before anything else that is queued; and whether its params and what is
/// answered come through as JSON.
pub open spec fn will_answer(p: PumpView, function: FnView, params: Json, outcome: OutcomeView) -> bool {
    &&& !p.channel.faults.active()
    &&& p.proto.function(function.name) == Some(function)
    &&& function.index < p.proto.functions.len()
    &&& function.index <= u16::MAX
    &&& p.proto.functions[function.index as int] == function
    &&& !function.oneway
    &&& p.behaviors.dom().contains(function.name)
    &&& comes_through(Codec::Json, params)
    &&& answer_in(step_for(p, function, params)) == Some(outcome)
    &&& comes_back(Codec::Json, outcome)
    &&& free_until(p.clock, home_at(p, step_for(p, function, params)))
}

/// The pump once a frame has gone over a clean wire, and is at hand at the other end.
spec fn delivered(p: PumpView, dir: Direction, frame: Seq<u8>) -> PumpView {
    let sent = p.channel.sent(dir, frame, p.clock.millis(), p.rng);
    PumpView {
        channel: sent.channel,
        rng: sent.rng,
        clock: Schedule {
            now: arrival(p.clock.now, p),
            seq: next_number(p.clock.seq),
            queue: p.clock.queue,
        },
        ..p
    }
}

/// A frame on a clean wire: its arrival is the next event.
proof fn lemma_delivered(p: PumpView, dir: Direction, frame: Seq<u8>)
    requires
        !p.channel.faults.active(),
        free_until(p.clock, arrival(p.clock.now, p)),
    ensures
        ({
            let after = p.emitted(dir, frame);
            let there = delivered(p, dir, frame);
            &&& after.clock.queue.len() > 0
            &&& after.clock.queue[0].event == delivery(dir, frame)
            &&& after.stepped() == there.applied(delivery(dir, frame))
            &&& there.channel.faults == p.channel.faults
            &&& there.channel.latency_ms == p.channel.latency_ms
            &&& there.channel.tap.frames.len() == p.channel.tap.frames.len() + 1
        }),
{
    p.channel.latency_ms.lemma_micros();
    law_clean_wire_passes_through(p.channel, dir, frame, p.clock.millis(), p.rng);
    reveal_with_fuel(deliveries, 2);
    assert(seq![frame].drop_last() =~= Seq::<Seq<u8>>::empty());
    let delay = p.channel.latency_ms.micros() as i64;
    assert(p.emitted(dir, frame).clock == p.clock.scheduled(delay, delivery(dir, frame)));
    lemma_goes_first(p.clock, delay, delivery(dir, frame));
    assert(PumpView { clock: p.emitted(dir, frame).clock.popped(), ..p.emitted(dir, frame) } =~= delivered(
        p,
        dir,
        frame,
    ));
}

/// The server's turn at a request: at once where it does not wait, else when the wait
/// is over.
pub open spec fn answered(p: PumpView, request: RequestView, step: StepView) -> Turn {
    if step is After {
        p.served(Some(request)).pump.stepped()
    } else {
        p.served(Some(request))
    }
}

/// A call round-trips, with a host that reads out of the frames `request` and
/// `response` what it put in: it is asked to read the request, for the frame of
/// the server's reply, and to read that. Then the call is settled with what the
/// server's behaviour answers, be it a value or an error, at once or after a while;
/// both frames are on the tap, and what else was queued still is.
pub proof fn law_a_pump_call_round_trips(
    p: PumpView,
    function: FnView,
    params: Json,
    outcome: OutcomeView,
    request: Seq<u8>,
    response: Seq<u8>,
)
    requires
        will_answer(p, function, params, outcome),
    ensures
        ({
            let job = p.outgoing(function.name, params)->Ok_0;
            let id = next_number(p.next_request_id);
            let step = step_for(p, function, params);
            let envelope = enveloped(outcome, Codec::Json)->0;
            let arrived = p.prepared(function.name).issued(job, request).stepped();
            let reply = answered(
                arrived.pump,
                RequestView { call: CallView::Id(job.call_id), request_id: job.request_id, params: job.body },
                step,
            );
            let landed = reply.pump.emitted(Direction::Response, response).stepped();
            let done = landed.pump.received(Some((id, envelope)));
            &&& p.outgoing(function.name, params) is Ok
            &&& job.request_id == id
            &&& arrived.work == Some(PumpWorkView::DecodeRequest(request))
            &&& reply.work == Some(PumpWorkView::FrameReply { request_id: id, envelope })
            &&& landed.work == Some(PumpWorkView::DecodeResponse(response))
            &&& done.results == p.results.insert(id, answered_with(outcome))
            &&& done.clock.queue == p.clock.queue
            &&& done.clock.now == home_at(p, step)
            &&& done.behaviors == p.behaviors.insert(
                function.name,
                p.behaviors[function.name].stepped(AskedView { params, function, protocol: p.proto }),
            )
            &&& done.channel.tap.frames.len() == p.channel.tap.frames.len() + 2
        }),
{
    let job = p.outgoing(function.name, params)->Ok_0;
    let step = step_for(p, function, params);
    let id = next_number(p.next_request_id);
    let ready = p.prepared(function.name);
    lemma_delivered(ready, Direction::Request, request);
    let there = delivered(ready, Direction::Request, request);
    let call = CallView::Id(job.call_id);
    let asked = RequestView { call, request_id: job.request_id, params: job.body };
    assert(job.call_id == function.index);
    assert(resolved(there.proto, call) == Some(function));
    let ran = PumpView {
        behaviors: p.behaviors.insert(
            function.name,
            p.behaviors[function.name].stepped(AskedView { params, function, protocol: p.proto }),
        ),
        ..there
    };
    let replying = answered(there, asked, step).pump;
    if let StepView::After { delay_ms, .. } = step {
        let delay = delay_ms.micros() as i64;
        let event = EventView::CompleteReply { request_id: id, outcome };
        let waiting = PumpView { clock: ran.clock.scheduled(delay, event), ..ran };
        assert(there.served(Some(asked)) == (Turn { pump: waiting, work: None }));
        lemma_goes_first(ran.clock, delay, event);
    } else {
        assert(replying == ran);
    }
    assert(replying.clock.queue == p.clock.queue);
    assert(replying.clock.now == answer_at(there.clock.now, step));
    assert(replying.channel == there.channel);
    lemma_delivered(replying, Direction::Response, response);
}

} // verus!

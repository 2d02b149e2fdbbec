//! Record & replay. A recording is the session at record-start (as a session
//! link) plus the ordered list of user inputs (a call, a behaviour edit, a fault
//! edit), each stamped with the clock time it happened at, relative to
//! record-start.
//!
//! A replay is a straight line: advance the clock to the event's time, apply the
//! input, drain what it scheduled, repeat; then let what is in flight land. A
//! [`Replay`] takes it turn by turn, and hands out the work that the host does in
//! between.

use serde_json::Value;
use vstd::arithmetic::power2::pow2;
use vstd::prelude::*;
use vstd::string::*;
use crate::arith::{
    edge_of, law_whole_differences, law_whole_instants, law_whole_numbers, law_whole_windows_add_up, millis_of, negated,
    not_below_zero, number, sum, window_from,
};
use crate::behavior::BehaviorKind;
use crate::dict::{copied_all, views, Copied};
use crate::double::Double;
use crate::engine::{
    Called, Engine, EngineView, Greeting, GreetingView, Outgoing, OutgoingView, Step, StepOutcome, Turn, Work,
    WorkView,
};
use crate::faults::FaultSpec;
use crate::framing::request_frame;
use crate::json::{content, Json};
use crate::laws::{law_the_host_does_not_move_time, law_time_moves_with_events};
use crate::model::{BehaviorSetting, ClockMode, Session, SessionView, SettingView};
use crate::runs::{carried, law_a_whole_window, lemma_carried_time, tells_apart, Reply};
use crate::session_codec::{base64url, encode_session};
use crate::shape::{find_protocol, SchemaView};
use crate::text::{tagged, tagged_text};

verus! {

/// The version that a recording carries.
pub const RECORDING_VERSION: u32 = 1;

/// How long a replay goes on after its last input, in milliseconds: for everything
/// still in flight to land.
pub const SETTLE_MS: u64 = 5000;

/// One user input.
#[derive(Debug, PartialEq)]
pub enum Input {
    /// A client call on a live connection.
    Call { conn_id: String, function: String, params: Value },
    /// A server instance's behaviour was swapped for one function.
    Behavior { instance_id: String, function: String, setting: BehaviorSetting },
    /// A connection's fault spec was edited.
    Fault { conn_id: String, faults: FaultSpec },
}

/// An [`Input`] plus the clock time it happened at, in milliseconds since
/// record-start.
#[derive(Debug, PartialEq)]
pub struct InputEvent {
    pub input: Input,
    pub at: Double,
}

/// A full recording: the start-state session link and the timestamped inputs.
#[derive(Debug, PartialEq)]
pub struct Recording {
    pub v: u32,
    /// The link of the session when recording started.
    pub session: String,
    pub events: Vec<InputEvent>,
}

/// Captures inputs against a running session for later replay.
#[derive(Debug)]
pub struct Recorder {
    pub events: Vec<InputEvent>,
    pub snapshot: String,
    pub t0: Double,
    pub recording: bool,
}

// ── what they hold ──────────────────────────────────────────────────────

/// What an [`Input`] holds.
#[verifier::ext_equal]
pub ghost enum InputView {
    Call { conn: Seq<char>, function: Seq<char>, params: Json },
    Behavior { instance: Seq<char>, function: Seq<char>, setting: SettingView },
    Fault { conn: Seq<char>, faults: FaultSpec },
}

#[verifier::ext_equal]
pub ghost struct InputEventView {
    pub input: InputView,
    pub at: Option<int>,
}

#[verifier::ext_equal]
pub ghost struct RecordingView {
    pub v: u32,
    pub session: Seq<char>,
    pub events: Seq<InputEventView>,
}

#[verifier::ext_equal]
pub ghost struct RecorderView {
    pub events: Seq<InputEventView>,
    pub snapshot: Seq<char>,
    pub t0: Option<int>,
    pub recording: bool,
}

impl View for Input {
    type V = InputView;

    open spec fn view(&self) -> InputView {
        match self {
            Input::Call { conn_id, function, params } => InputView::Call {
                conn: conn_id@,
                function: function@,
                params: content(*params),
            },
            Input::Behavior { instance_id, function, setting } => InputView::Behavior {
                instance: instance_id@,
                function: function@,
                setting: setting@,
            },
            Input::Fault { conn_id, faults } => InputView::Fault { conn: conn_id@, faults: *faults },
        }
    }
}

impl View for InputEvent {
    type V = InputEventView;

    open spec fn view(&self) -> InputEventView {
        InputEventView { input: self.input@, at: self.at.value() }
    }
}

impl View for Recording {
    type V = RecordingView;

    open spec fn view(&self) -> RecordingView {
        RecordingView { v: self.v, session: self.session@, events: views(self.events@) }
    }
}

impl View for Recorder {
    type V = RecorderView;

    open spec fn view(&self) -> RecorderView {
        RecorderView {
            events: views(self.events@),
            snapshot: self.snapshot@,
            t0: self.t0.value(),
            recording: self.recording,
        }
    }
}

impl Copied for Input {
    fn copied(&self) -> (r: Self) {
        match self {
            Input::Call { conn_id, function, params } => Input::Call {
                conn_id: conn_id.clone(),
                function: function.clone(),
                params: params.clone(),
            },
            Input::Behavior { instance_id, function, setting } => Input::Behavior {
                instance_id: instance_id.clone(),
                function: function.clone(),
                setting: setting.copied(),
            },
            Input::Fault { conn_id, faults } => Input::Fault { conn_id: conn_id.clone(), faults: *faults },
        }
    }
}

impl Copied for InputEvent {
    fn copied(&self) -> (r: Self) {
        InputEvent { input: self.input.copied(), at: self.at }
    }
}

impl Copied for Recording {
    fn copied(&self) -> (r: Self) {
        Recording { v: self.v, session: self.session.clone(), events: copied_all(&self.events) }
    }
}

impl Clone for InputEvent {
    fn clone(&self) -> (r: Self)
        ensures
            r@ == self@,
    {
        self.copied()
    }
}

impl Clone for Recording {
    fn clone(&self) -> (r: Self)
        ensures
            r@ == self@,
    {
        self.copied()
    }
}

// ── recording ───────────────────────────────────────────────────────────

/// The time from `t0` to `now`: none where the clock went back.
pub open spec fn since(t0: Option<int>, now: Option<int>) -> int {
    not_below_zero(sum(now, negated(t0)))
}

impl RecorderView {
    pub open spec fn fresh() -> RecorderView {
        RecorderView { events: Seq::empty(), snapshot: Seq::empty(), t0: Some(0), recording: false }
    }

    /// After a start at `now` with the session link `link`: what was captured
    /// before is gone.
    pub open spec fn started(self, link: Seq<char>, now: Option<int>) -> RecorderView {
        RecorderView { events: Seq::empty(), snapshot: link, t0: now, recording: true }
    }

    /// With `input` captured at `now`, if it is recording.
    pub open spec fn captured(self, input: InputView, now: Option<int>) -> RecorderView {
        if self.recording {
            RecorderView {
                events: self.events.push(InputEventView { input, at: Some(since(self.t0, now)) }),
                ..self
            }
        } else {
            self
        }
    }

    pub open spec fn stopped(self) -> RecorderView {
        RecorderView { recording: false, ..self }
    }

    /// What was recorded.
    pub open spec fn taken(self) -> RecordingView {
        RecordingView { v: RECORDING_VERSION, session: self.snapshot, events: self.events }
    }
}

impl Default for Recorder {
    fn default() -> (r: Self)
        ensures
            r@ == RecorderView::fresh(),
    {
        Recorder::new()
    }
}

impl Recorder {
    pub fn new() -> (r: Self)
        ensures
            r@ == RecorderView::fresh(),
    {
        let r = Recorder { events: Vec::new(), snapshot: String::new(), t0: Double::zero(), recording: false };
        assert(r@ =~= RecorderView::fresh());
        r
    }

    /// Snapshots the session that `envelope` is the JSON of, and starts capturing
    /// from clock time `now`.
    pub fn start(&mut self, envelope: &[u8], now: Double)
        ensures
            final(self)@ == old(self)@.started(base64url(envelope@), now.value()),
    {
        self.snapshot = encode_session(envelope);
        self.events = Vec::new();
        self.t0 = now;
        self.recording = true;
        assert(self@ =~= old(self)@.started(base64url(envelope@), now.value()));
    }

    /// Records an input at clock time `now` (ignored unless recording).
    pub fn capture(&mut self, input: Input, now: Double)
        ensures
            final(self)@ == old(self)@.captured(input@, now.value()),
    {
        if !self.recording {
            return;
        }
        let at = now.plus(self.t0.minus()).max_zero();
        self.events.push(InputEvent { input, at });
        assert(self@ =~= old(self)@.captured(input@, now.value()));
    }

    /// Stops and hands back the recording.
    pub fn stop(&mut self) -> (r: Recording)
        ensures
            final(self)@ == old(self)@.stopped(),
            r@ == old(self)@.taken(),
    {
        self.recording = false;
        assert(self@ =~= old(self)@.stopped());
        let r = Recording { v: RECORDING_VERSION, session: self.snapshot.clone(), events: copied_all(&self.events) };
        assert(r@ =~= old(self)@.taken());
        r
    }

    pub fn count(&self) -> (r: usize)
        ensures
            r == self@.events.len(),
    {
        self.events.len()
    }
}

/// No recorded input lies before the start, and none of them is lost: an input
/// captured while recording is the last one recorded.
pub proof fn law_recorded_times_count_from_the_start(r: RecorderView, input: InputView, now: Option<int>)
    requires
        r.recording,
    ensures
        r.captured(input, now).events.len() == r.events.len() + 1,
        r.captured(input, now).events.last().input == input,
        r.captured(input, now).events.last().at matches Some(at) && at >= 0,
        r.captured(input, now).events.last().at == Some(not_below_zero(sum(now, negated(r.t0)))),
        r.captured(input, now).events.drop_last() == r.events,
{
    assert(r.captured(input, now).events.drop_last() =~= r.events);
}

/// What a recorder hands back holds nothing from before its last start.
pub proof fn law_a_start_forgets(r: RecorderView, link: Seq<char>, now: Option<int>)
    ensures
        r.started(link, now).taken() == RecorderView::fresh().started(link, now).taken(),
        r.started(link, now).taken().events.len() == 0,
{
}

// ── replay ──────────────────────────────────────────────────────────────

/// Why `rec` cannot be replayed; `decoded` is whether its session link decodes.
pub open spec fn replay_refusal(rec: RecordingView, decoded: bool) -> Option<Seq<char>> {
    if rec.v != RECORDING_VERSION {
        Some(tagged("replay: unknown recording version "@, rec.v as u64))
    } else if !decoded {
        Some("replay: the recording's session did not decode"@)
    } else {
        None
    }
}

/// The session that a replay of `rec` starts from, on a stepped clock, or why
/// there is none. `decoded` is the session of its link.
pub fn replay_session(rec: &Recording, decoded: Option<Session>) -> (r: Result<Session, String>)
    ensures
        match r {
            Ok(s) => replay_refusal(rec@, decoded is Some) is None && s@ == (SessionView {
                clock_mode: ClockMode::Stepped,
                ..decoded->0@
            }),
            Err(message) => replay_refusal(rec@, decoded is Some) == Some(message@),
        },
{
    if rec.v != RECORDING_VERSION {
        return Err(tagged_text("replay: unknown recording version ", rec.v as u64));
    }
    match decoded {
        None => Err("replay: the recording's session did not decode".to_owned()),
        Some(session) => {
            let mut session = session;
            session.clock_mode = ClockMode::Stepped;
            Ok(session)
        },
    }
}

/// The schema that an instance speaks.
pub open spec fn schema_of(s: SessionView, instance: Seq<char>) -> Option<SchemaView> {
    match s.instance(instance) {
        Some(inst) => match s.shape.protocol(inst.schema_ns, inst.protocol) {
            Some((schema, _)) => Some(schema),
            None => None,
        },
        None => None,
    }
}

/// With the live wires of an instance of `s` on a new behaviour.
pub open spec fn rewired(
    e: EngineView,
    s: SessionView,
    instance: Seq<char>,
    fn_name: Seq<char>,
    kind: BehaviorKind,
    config: Json,
) -> EngineView {
    match schema_of(s, instance) {
        Some(schema) => e.with_behavior_on(e.connections_of(instance), fn_name, kind, config, schema),
        None => e,
    }
}

/// Puts the live wires of an instance on a new behaviour.
pub(crate) fn rewire(
    engine: &mut Engine,
    session: &Session,
    instance_id: &str,
    fn_name: &str,
    kind: BehaviorKind,
    config: &Value,
)
    ensures
        final(engine)@ == rewired(old(engine)@, session@, instance_id@, fn_name@, kind, content(*config)),
{
    if let Some(inst) = session.instance(instance_id) {
        if let Some((schema, _)) = find_protocol(&session.shape, inst.schema_ns.as_str(), inst.protocol.as_str()) {
            engine.set_instance_behavior(instance_id, fn_name, kind, config, schema);
        }
    }
}

/// What an input comes to: an engine and a session, and a request that the host
/// still has to frame.
#[verifier::ext_equal]
pub ghost struct Effect {
    pub engine: EngineView,
    pub session: SessionView,
    pub ask: Option<OutgoingView>,
}

/// What `input` comes to. A call that is refused and a behaviour that the session
/// refuses are passed over.
#[verifier::opaque]
pub open spec fn effect_of(e: EngineView, s: SessionView, input: InputView) -> Effect {
    match input {
        InputView::Call { conn, function, params } => match e.outgoing(conn, function, params) {
            Err(_) => Effect { engine: e.prepared(conn, function), session: s, ask: None },
            Ok(job) => {
                let turn = e.prepared(conn, function).dispatched_call(job);
                Effect {
                    engine: turn.engine,
                    session: s,
                    ask: match turn.work {
                        Some(WorkView::FrameRequest(job)) => Some(job),
                        _ => None,
                    },
                }
            },
        },
        InputView::Behavior { instance, function, setting } => {
            let session = if s.behavior_refusal(instance, function) is None {
                s.with_behavior(instance, function, setting)
            } else {
                s
            };
            Effect {
                engine: rewired(e, session, instance, function, setting.kind, setting.config),
                session,
                ask: None,
            }
        },
        InputView::Fault { conn, faults } => Effect {
            engine: e.with_faults(conn, faults),
            session: s.with_faults(conn, faults),
            ask: None,
        },
    }
}

/// Applies a recorded input. The result is a request that the host still has to
/// frame.
pub fn apply_input(engine: &mut Engine, session: &mut Session, input: &Input) -> (r: Option<Outgoing>)
    ensures
        final(engine)@ == effect_of(old(engine)@, old(session)@, input@).engine,
        final(session)@ == effect_of(old(engine)@, old(session)@, input@).session,
        effect_of(old(engine)@, old(session)@, input@).ask == (match r {
            Some(job) => Some(job@),
            None => None,
        }),
{
    proof {
        reveal(effect_of);
    }
    match input {
        Input::Call { conn_id, function, params } => {
            if engine.connection_error(conn_id.as_str()).is_some() {
                return None;
            }
            match engine.call(conn_id.as_str(), function.as_str(), params) {
                Ok(Called::Frame(job)) => Some(job),
                _ => None,
            }
        },
        Input::Behavior { instance_id, function, setting } => {
            let _ = session.set_behavior(
                instance_id.as_str(),
                function.as_str(),
                setting.kind,
                Some(setting.config.clone()),
            );
            rewire(
                engine,
                session,
                instance_id.as_str(),
                function.as_str(),
                setting.kind,
                &setting.config,
            );
            None
        },
        Input::Fault { conn_id, faults } => {
            session.set_faults(conn_id.as_str(), *faults);
            engine.set_faults(conn_id.as_str(), *faults);
            None
        },
    }
}

/// Where a replay stands.
#[derive(Clone, Copy, Debug, PartialEq, Eq, Structural)]
pub enum Phase {
    /// On the way to the time of the next input.
    Before,
    /// Firing what the last input scheduled for right then.
    After,
    /// Past the last input: letting everything still in flight land.
    Settling,
    /// At the end.
    Over,
}

/// A replay: the reconstructed session and the engine that runs it. Read the
/// frame log off `engine.tap(conn_id)`.
pub struct Replay {
    pub session: Session,
    pub engine: Engine,
    /// How many inputs are done with.
    pub place: usize,
    /// The end of the window that the clock is in, in milliseconds.
    pub until: Double,
    pub phase: Phase,
}

/// What a [`Replay`] holds.
#[verifier::ext_equal]
pub ghost struct ReplayView {
    pub session: SessionView,
    pub engine: EngineView,
    pub place: int,
    pub until: Option<int>,
    pub phase: Phase,
}

impl View for Replay {
    type V = ReplayView;

    open spec fn view(&self) -> ReplayView {
        ReplayView {
            session: self.session@,
            engine: self.engine@,
            place: self.place as int,
            until: self.until.value(),
            phase: self.phase,
        }
    }
}

impl ReplayView {
    /// Whether the replay stands at an input of `rec`, or past them all.
    pub open spec fn follows(self, rec: RecordingView) -> bool {
        match self.phase {
            Phase::Before | Phase::After => 0 <= self.place < rec.events.len(),
            _ => self.place == rec.events.len(),
        }
    }

    /// On the way to the input at `place`, or, past the last one, to the end.
    /// Neither goes back in time.
    pub open spec fn aimed(self, rec: RecordingView) -> ReplayView {
        let now = self.engine.clock.now;
        if self.place < rec.events.len() {
            let ahead = sum(rec.events[self.place].at, Some(-millis_of(now as int)));
            ReplayView { until: window_from(now, Some(not_below_zero(ahead))), phase: Phase::Before, ..self }
        } else {
            ReplayView {
                until: window_from(now, Some(number(SETTLE_MS as nat))),
                phase: Phase::Settling,
                ..self
            }
        }
    }

    /// The replay of `rec` at its start, over `s`.
    pub open spec fn opened(rec: RecordingView, s: SessionView, greetings: Seq<GreetingView>) -> ReplayView {
        ReplayView {
            session: s,
            engine: EngineView::fresh().rebuilt(s, greetings),
            place: 0,
            until: Some(0),
            phase: Phase::Over,
        }.aimed(rec)
    }

    /// At the end of a window: the input is applied, or the next window opens.
    pub open spec fn turned(self, rec: RecordingView) -> (ReplayView, StepOutcome) {
        match self.phase {
            Phase::Before => {
                let effect = effect_of(self.engine, self.session, rec.events[self.place].input);
                (
                    ReplayView {
                        session: effect.session,
                        engine: effect.engine,
                        until: window_from(self.engine.clock.now, Some(0)),
                        phase: Phase::After,
                        ..self
                    },
                    match effect.ask {
                        Some(job) => StepOutcome::Ask(WorkView::FrameRequest(job)),
                        None => StepOutcome::Done,
                    },
                )
            },
            Phase::After => (ReplayView { place: self.place + 1, ..self }.aimed(rec), StepOutcome::Done),
            _ => (ReplayView { phase: Phase::Over, ..self }, StepOutcome::Idle),
        }
    }

    /// What a turn of the replay comes to: the next event of the window, or its
    /// end.
    pub open spec fn advanced(self, rec: RecordingView) -> (ReplayView, StepOutcome) {
        let turn = self.engine.advanced_in(self.until);
        let on = ReplayView { engine: turn.engine, ..self };
        if self.phase == Phase::Over {
            (self, StepOutcome::Idle)
        } else if self.engine.reaches(self.until) {
            (
                on,
                match turn.work {
                    Some(work) => StepOutcome::Ask(work),
                    None => StepOutcome::Done,
                },
            )
        } else {
            on.turned(rec)
        }
    }
}

impl Replay {
    /// Opens the replay of `rec` over `session`, on a fresh engine.
    pub fn open(rec: &Recording, session: Session, greetings: &Vec<Greeting>) -> (r: Self)
        requires
            session@.opens_beside(Set::empty()),
            greetings@.len() == session@.connections.len(),
        ensures
            r@ == ReplayView::opened(rec@, session@, views(greetings@)),
            r@.follows(rec@),
    {
        let mut engine = Engine::new();
        engine.rebuild(&session, greetings);
        let mut r = Replay { session, engine, place: 0, until: Double::zero(), phase: Phase::Over };
        r.aim(rec);
        r
    }

    fn aim(&mut self, rec: &Recording)
        requires
            old(self).place <= rec.events@.len(),
        ensures
            final(self)@ == old(self)@.aimed(rec@),
    {
        if self.place < rec.events.len() {
            let at = rec.events[self.place].at;
            assert(rec@.events[self.place as int] == rec.events@[self.place as int]@);
            let ahead = at.plus(self.engine.now().minus()).max_zero();
            self.until = self.engine.window_end(ahead);
            self.phase = Phase::Before;
        } else {
            self.until = self.engine.window_end(Double::of_number(SETTLE_MS));
            self.phase = Phase::Settling;
        }
    }

    /// Takes the replay of `rec` one turn on: `Idle` when it is over. What is
    /// asked for is done with `engine`, as for any other step.
    pub fn advance(&mut self, rec: &Recording) -> (r: Step)
        requires
            old(self)@.follows(rec@),
        ensures
            final(self)@ == old(self)@.advanced(rec@).0,
            r@ == old(self)@.advanced(rec@).1,
            final(self)@.follows(rec@),
    {
        if self.phase == Phase::Over {
            return Step::Idle;
        }
        let ghost before = self@;
        let step = self.engine.advance(self.until);
        assert(self@ =~= ReplayView { engine: before.engine.advanced_in(before.until).engine, ..before });
        match step {
            Step::Idle => self.turn(rec),
            other => other,
        }
    }

    /// Goes on at the end of a window.
    fn turn(&mut self, rec: &Recording) -> (r: Step)
        requires
            old(self)@.follows(rec@),
        ensures
            final(self)@ == old(self)@.turned(rec@).0,
            r@ == old(self)@.turned(rec@).1,
            final(self)@.follows(rec@),
    {
        match self.phase {
            Phase::Before => {
                let until = self.engine.window_end(Double::zero());
                assert(rec@.events[self.place as int] == rec.events@[self.place as int]@);
                let ask = apply_input(&mut self.engine, &mut self.session, &rec.events[self.place].input);
                self.until = until;
                self.phase = Phase::After;
                match ask {
                    Some(job) => Step::Ask(Work::FrameRequest(job)),
                    None => Step::Done,
                }
            },
            Phase::After => {
                assert(self.place < rec.events.len());
                self.place = self.place + 1;
                self.aim(rec);
                Step::Done
            },
            _ => {
                self.phase = Phase::Over;
                Step::Idle
            },
        }
    }
}

/// A replay applies an input at the end of the window up to it: nothing is left in
/// it that would come first, and the clock stands at its edge.
pub proof fn law_inputs_are_applied_on_time(r: ReplayView, rec: RecordingView)
    requires
        r.follows(rec),
        r.phase == Phase::Before,
        r.advanced(rec).0.phase == Phase::After,
    ensures
        !r.engine.reaches(r.until),
        r.advanced(rec).0.engine.clock.now == (if edge_of(r.until) as i64 > r.engine.clock.now {
            edge_of(r.until) as i64
        } else {
            r.engine.clock.now
        }),
{
    lemma_effect_time(r.engine.advanced_in(r.until).engine, r.session, rec.events[r.place].input);
}

/// A replay takes the inputs one after the other: it stays at one, or goes on to
/// the next, and is over only past the last.
pub proof fn law_inputs_are_taken_in_order(r: ReplayView, rec: RecordingView)
    requires
        r.follows(rec),
    ensures
        r.advanced(rec).0.follows(rec),
        r.advanced(rec).0.place == r.place || r.advanced(rec).0.place == r.place + 1 && r.phase == Phase::After,
        r.advanced(rec).0.phase == Phase::Over ==> r.advanced(rec).0.place == rec.events.len(),
{
}

/// Where a replay is over, nothing more happens.
pub proof fn law_a_finished_replay_rests(r: ReplayView, rec: RecordingView)
    requires
        r.phase == Phase::Over,
    ensures
        r.advanced(rec) == (r, StepOutcome::Idle),
{
}

// ── whole replays ───────────────────────────────────────────────────────

impl ReplayView {
    /// The replay one turn on, with the work of it done: `host` is what the host
    /// answers a piece of work with.
    pub open spec fn hosted(self, rec: RecordingView, host: spec_fn(WorkView) -> Reply) -> ReplayView {
        let (next, outcome) = self.advanced(rec);
        match outcome {
            StepOutcome::Ask(work) => ReplayView {
                engine: carried(Turn { engine: next.engine, work: Some(work) }, host),
                ..next
            },
            _ => next,
        }
    }

    /// The replay `n` turns on.
    pub open spec fn went(self, rec: RecordingView, host: spec_fn(WorkView) -> Reply, n: nat) -> ReplayView
        decreases n,
    {
        if n == 0 {
            self
        } else {
            self.went(rec, host, (n - 1) as nat).hosted(rec, host)
        }
    }
}

/// Whether the inputs of `rec` came at `times`, in whole milliseconds.
pub open spec fn came_at(rec: RecordingView, times: Seq<int>) -> bool {
    &&& times.len() == rec.events.len()
    &&& forall|i: int| 0 <= i < times.len() ==> (#[trigger] rec.events[i]).at == Some(times[i] * pow2(1074))
}

/// The latest of the first `n` of `times`, or 0 where that is later.
pub open spec fn latest(times: Seq<int>, n: int) -> nat
    decreases n,
{
    if n <= 0 {
        0
    } else if times[n - 1] > latest(times, n - 1) {
        times[n - 1] as nat
    } else {
        latest(times, n - 1)
    }
}

proof fn lemma_latest_grows(times: Seq<int>, k: int, n: int)
    requires
        k <= n,
    ensures
        latest(times, k) <= latest(times, n),
    decreases n - k,
{
    if k < n {
        lemma_latest_grows(times, k, n - 1);
    }
}

/// Where the clock of a replay should go, in milliseconds: on the way to an input
/// and at it to the latest time recorded so far, and at the end as much later as is
/// left for everything to land.
pub open spec fn goal(r: ReplayView, times: Seq<int>) -> nat {
    match r.phase {
        Phase::Before | Phase::After => latest(times, r.place + 1),
        _ => latest(times, r.place) + SETTLE_MS as nat,
    }
}

/// Whether the clock of a replay stands where it should: no further than it should
/// go, and right there at an input and at the end.
pub open spec fn on_time(r: ReplayView, rec: RecordingView, times: Seq<int>) -> bool {
    let now = r.engine.clock.now;
    let there = goal(r, times) * 1000;
    &&& r.follows(rec)
    &&& now <= there
    &&& r.phase != Phase::Over ==> r.until == Some((goal(r, times) * pow2(1074)) as int)
    &&& r.phase == Phase::After || r.phase == Phase::Over ==> now == there
}

proof fn lemma_effect_time(e: EngineView, s: SessionView, input: InputView)
    ensures
        effect_of(e, s, input).engine.clock.now == e.clock.now,
{
    reveal(effect_of);
    if let InputView::Call { conn, function, params } = input {
        if let Ok(job) = e.outgoing(conn, function, params) {
            let ready = e.prepared(conn, function);
            law_the_host_does_not_move_time(
                ready,
                conn,
                None,
                None,
                job,
                request_frame(job.call_name, job.request_id, job.body),
            );
        }
    }
}

proof fn lemma_aimed_on_time(r: ReplayView, rec: RecordingView, times: Seq<int>)
    requires
        came_at(rec, times),
        0 <= r.place <= times.len(),
        r.engine.clock.now == latest(times, r.place) * 1000,
        (latest(times, times.len() as int) + SETTLE_MS) * 1000 <= 0x100_0000_0000_0000,
    ensures
        on_time(r.aimed(rec), rec, times),
{
    let a = latest(times, r.place);
    let now = r.engine.clock.now;
    lemma_latest_grows(times, r.place, times.len() as int);
    law_whole_instants(a);
    if r.place < times.len() {
        let t = times[r.place];
        lemma_latest_grows(times, r.place + 1, times.len() as int);
        assert(rec.events[r.place].at == Some(t * pow2(1074)));
        law_whole_differences(t, a);
        let gap = if t > a {
            (t - a) as nat
        } else {
            0nat
        };
        assert(gap == 0 ==> gap * pow2(1074) == 0);
        law_whole_windows_add_up(now, Some((gap * pow2(1074)) as int), a, gap);
        assert(a + gap == latest(times, r.place + 1));
    } else {
        law_whole_numbers(SETTLE_MS as nat);
        law_whole_windows_add_up(now, Some(number(SETTLE_MS as nat)), a, SETTLE_MS as nat);
    }
}

proof fn lemma_hosted_on_time(r: ReplayView, rec: RecordingView, times: Seq<int>, host: spec_fn(WorkView) -> Reply)
    requires
        came_at(rec, times),
        on_time(r, rec, times),
        tells_apart(r.engine, latest(times, times.len() as int) + SETTLE_MS as nat),
    ensures
        on_time(r.hosted(rec, host), rec, times),
{
    let (next, outcome) = r.advanced(rec);
    let there = goal(r, times);
    lemma_latest_grows(times, r.place, times.len() as int);
    if r.place < times.len() {
        lemma_latest_grows(times, r.place + 1, times.len() as int);
    }
    law_time_moves_with_events(r.engine);
    if r.phase != Phase::Over {
        law_a_whole_window(r.engine, r.until, there);
        if let StepOutcome::Ask(work) = outcome {
            lemma_carried_time(Turn { engine: next.engine, work: Some(work) }, host);
        }
        if !r.engine.reaches(r.until) {
            let parked = r.engine.advanced_in(r.until).engine;
            assert(parked.clock.now == there * 1000);
            match r.phase {
                Phase::Before => {
                    lemma_effect_time(parked, r.session, rec.events[r.place].input);
                    assert(0nat * pow2(1074) == 0);
                    law_whole_windows_add_up(parked.clock.now, Some(0), there, 0);
                },
                Phase::After => {
                    let on = ReplayView { engine: parked, place: r.place + 1, ..r };
                    lemma_aimed_on_time(on, rec, times);
                },
                _ => {},
            }
        }
    }
}

/// Where the inputs of a recording came at whole milliseconds, the clock of a replay
/// stands where it should on every turn; and where the replay is over, it stands as
/// much after the latest recorded time as is left for everything to land. Events may
/// come whenever they do up to 2^53 microseconds, and at whole milliseconds up to 2^56.
pub proof fn law_a_replay_ends_on_time(
    rec: RecordingView,
    times: Seq<int>,
    s: SessionView,
    greetings: Seq<GreetingView>,
    host: spec_fn(WorkView) -> Reply,
    n: nat,
)
    requires
        came_at(rec, times),
        (latest(times, times.len() as int) + SETTLE_MS) * 1000 <= 0x100_0000_0000_0000,
        forall|k: nat|
            k < n ==> tells_apart(
                (#[trigger] ReplayView::opened(rec, s, greetings).went(rec, host, k)).engine,
                latest(times, times.len() as int) + SETTLE_MS as nat,
            ),
    ensures
        on_time(ReplayView::opened(rec, s, greetings).went(rec, host, n), rec, times),
        ReplayView::opened(rec, s, greetings).went(rec, host, n).phase == Phase::Over ==> ReplayView::opened(
            rec,
            s,
            greetings,
        ).went(rec, host, n).engine.clock.now == (latest(times, times.len() as int) + SETTLE_MS) * 1000,
    decreases n,
{
    let start = ReplayView::opened(rec, s, greetings);
    if n == 0 {
        assert(latest(times, 0) == 0);
        let bare = ReplayView {
            session: s,
            engine: EngineView::fresh().rebuilt(s, greetings),
            place: 0,
            until: Some(0),
            phase: Phase::Over,
        };
        assert(bare.engine.clock.now == 0);
        lemma_aimed_on_time(bare, rec, times);
    } else {
        law_a_replay_ends_on_time(rec, times, s, greetings, host, (n - 1) as nat);
        lemma_hosted_on_time(start.went(rec, host, (n - 1) as nat), rec, times, host);
    }
}

/// Two replays of one recording agree on every turn: hosts that answer alike see
/// the same frames, results and times.
pub proof fn law_replays_agree(
    rec: RecordingView,
    s: SessionView,
    greetings: Seq<GreetingView>,
    one: spec_fn(WorkView) -> Reply,
    other: spec_fn(WorkView) -> Reply,
    n: nat,
)
    requires
        forall|work: WorkView| #[trigger] one(work) == other(work),
    ensures
        ReplayView::opened(rec, s, greetings).went(rec, one, n) == ReplayView::opened(rec, s, greetings).went(
            rec,
            other,
            n,
        ),
{
    assert(one =~= other);
}

} // verus!

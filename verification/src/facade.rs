//! [`Sim`]: the surface the playground UI drives. It owns a [`Session`], the
//! [`Engine`] that runs it and a [`Recorder`], and keeps the three in step.
//! Configurations, params and outcomes cross its boundary as JSON texts; what is
//! the JSON of a session, a shape or a fault spec, the host reads and writes.
//!
//! An edit that opens or closes wires comes in two parts, as the handshake frames
//! are the host's: the edit of the session, then [`Sim::follow`] with the frames for
//! it.

use serde_json::Value;
use vstd::prelude::*;
use vstd::string::*;
use vstd::utf8::encode_utf8;
use crate::behavior::{default_kind, default_kind_for, BehaviorKind};
use crate::dict::{change_first, find_first, first_where, views};
use crate::double::Double;
use crate::engine::{
    called_view, CallResult, Called, CalledView, Engine, EngineView, Greeting, GreetingView, ResultView, WorkView,
};
use crate::faults::FaultSpec;
use crate::format::Codec;
use crate::frame::{Frame, FrameView};
use crate::json;
use crate::json::{content, contents, json_text, parse_text, read_json, written_json, Json};
use crate::compare::{params_of, read_params};
use crate::contract::RuntimeError;
use crate::model::{
    BehaviorSetting, ClockMode, FramingChoice, InstanceSpec, NodeView, Placement, Session, SessionView, SettingView,
};
use crate::record::{rewire, rewired, Input, InputView, Recorder, RecorderView, Recording, Replay};
use crate::session_codec::base64url;
use crate::shape::{find_protocol, FnShape, FnView, ProjectShape, ProjectView};
use crate::text::same_text;

verus! {

pub struct Sim {
    pub session: Session,
    pub engine: Engine,
    pub recorder: Recorder,
}

/// What a [`Sim`] holds.
#[verifier::ext_equal]
pub ghost struct SimView {
    pub session: SessionView,
    pub engine: EngineView,
    pub recorder: RecorderView,
}

impl View for Sim {
    type V = SimView;

    open spec fn view(&self) -> SimView {
        SimView { session: self.session@, engine: self.engine@, recorder: self.recorder@ }
    }
}

// ── what crosses to the host ────────────────────────────────────────────

/// A settled outcome, as the host shows it.
pub open spec fn result_json(result: ResultView) -> Json {
    match result {
        ResultView::Success(value) => Json::Object(
            Map::empty().insert("status"@, Json::Text("ok"@)).insert("value"@, value),
        ),
        ResultView::Failure { ordinal, body } => Json::Object(
            Map::empty().insert("status"@, Json::Text("err"@)).insert("ordinal"@, Json::whole(ordinal as u64)).insert(
                "body"@,
                body,
            ),
        ),
        ResultView::Undecodable(message) => Json::Object(
            Map::empty().insert("status"@, Json::Text("undecodable"@)).insert("message"@, Json::Text(message)),
        ),
        ResultView::Timeout => Json::single("status"@, Json::Text("timeout"@)),
    }
}

/// `{ status, … }` for a settled outcome.
pub fn call_result_json(result: &CallResult) -> (r: Value)
    ensures
        content(r) == result_json(result@),
{
    match result {
        CallResult::Success(value) => json::with_member(
            json::single("status", json::text("ok".to_owned())),
            "value".to_owned(),
            value.clone(),
        ),
        CallResult::Failure { ordinal, body } => json::with_member(
            json::with_member(
                json::single("status", json::text("err".to_owned())),
                "ordinal".to_owned(),
                json::whole(*ordinal as u64),
            ),
            "body".to_owned(),
            body.clone(),
        ),
        CallResult::Undecodable(message) => json::with_member(
            json::single("status", json::text("undecodable".to_owned())),
            "message".to_owned(),
            json::text(message.clone()),
        ),
        CallResult::Timeout => json::single("status", json::text("timeout".to_owned())),
    }
}

/// One entry of the behaviour picker: whether `kind` makes sense for `function`.
pub open spec fn catalogue_entry(kind: BehaviorKind, function: FnView) -> Json {
    Json::Object(
        Map::empty().insert("kind"@, Json::Text(kind.tag())).insert("label"@, Json::Text(kind.title())).insert(
            "applies"@,
            Json::Bool(kind.suits(function)),
        ),
    )
}

/// The behaviour picker's options for a function: none for no function.
pub open spec fn catalogue(function: Option<FnView>) -> Json {
    match function {
        None => Json::Array(Seq::empty()),
        Some(f) => Json::Array(
            Seq::new(
                BehaviorKind::catalogue().len(),
                |i: int| catalogue_entry(BehaviorKind::catalogue()[i], f),
            ),
        ),
    }
}

/// The function `fn_name` of `ns::protocol`.
pub open spec fn function_of(shape: ProjectView, ns: Seq<char>, protocol: Seq<char>, fn_name: Seq<char>) -> Option<
    FnView,
> {
    match shape.protocol(ns, protocol) {
        Some((_, proto)) => proto.function(fn_name),
        None => None,
    }
}

fn find_function<'a>(shape: &'a ProjectShape, ns: &str, protocol: &str, fn_name: &str) -> (r: Option<&'a FnShape>)
    ensures
        match r {
            Some(f) => function_of(shape@, ns@, protocol@, fn_name@) == Some(f@),
            None => function_of(shape@, ns@, protocol@, fn_name@) is None,
        },
{
    match find_protocol(shape, ns, protocol) {
        Some((_, proto)) => proto.function(fn_name),
        None => None,
    }
}

// ── what the operations do ──────────────────────────────────────────────

impl SimView {
    /// Why the behaviour `kind` of `fn_name` on `instance` cannot be set: the tag
    /// is unknown, the configuration did not parse, or the session refuses it.
    pub open spec fn behavior_refusal(
        self,
        instance: Seq<char>,
        fn_name: Seq<char>,
        kind: Seq<char>,
        config: Result<Json, Seq<char>>,
    ) -> Option<Seq<char>> {
        if forall|k: BehaviorKind| kind != #[trigger] k.tag() {
            Some("unknown behaviour "@ + kind)
        } else {
            match config {
                Err(message) => Some(message),
                Ok(_) => self.session.behavior_refusal(instance, fn_name),
            }
        }
    }

    /// After a call of `fn_name` on `conn`, and what it comes to: captured where it
    /// was taken.
    pub open spec fn called(self, conn: Seq<char>, fn_name: Seq<char>, params: Json) -> (
        SimView,
        Result<CalledView, RuntimeError>,
    ) {
        let ready = self.engine.prepared(conn, fn_name);
        match self.engine.outgoing(conn, fn_name, params) {
            Err(e) => (SimView { engine: ready, ..self }, Err(e)),
            Ok(job) => {
                let turn = ready.dispatched_call(job);
                (
                    SimView {
                        engine: turn.engine,
                        recorder: self.recorder.captured(
                            InputView::Call { conn, function: fn_name, params },
                            turn.engine.clock.millis(),
                        ),
                        ..self
                    },
                    Ok(
                        match turn.work {
                            Some(WorkView::FrameRequest(job)) => CalledView::Frame(job),
                            _ => CalledView::Sent(job.request_id),
                        },
                    ),
                )
            },
        }
    }

    /// With the behaviour of `fn_name` on `instance` set, on the live wires too,
    /// and captured.
    pub open spec fn with_behavior(
        self,
        instance: Seq<char>,
        fn_name: Seq<char>,
        setting: SettingView,
    ) -> SimView {
        let session = self.session.with_behavior(instance, fn_name, setting);
        SimView {
            session,
            engine: rewired(self.engine, session, instance, fn_name, setting.kind, setting.config),
            recorder: self.recorder.captured(
                InputView::Behavior { instance, function: fn_name, setting },
                self.engine.clock.millis(),
            ),
        }
    }

    /// With the faults of `conn` set, on the live wire too, and captured where
    /// the session has such a connection.
    pub open spec fn with_faults(self, conn: Seq<char>, faults: FaultSpec) -> SimView {
        let session = self.session.with_faults(conn, faults);
        SimView {
            session,
            engine: self.engine.with_faults(conn, faults),
            recorder: if session.connection(conn) is Some {
                self.recorder.captured(InputView::Fault { conn, faults }, self.engine.clock.millis())
            } else {
                self.recorder
            },
        }
    }
}

/// An edit of the session, by its kind.
#[derive(Clone, Copy, Debug, PartialEq, Eq, Structural)]
pub enum SimEdit {
    Shape,
    AddInstance,
    RemoveInstance,
    AddConnection,
    RemoveConnection,
    RenameNode,
    MoveNode,
    Latency,
    CallTimeout,
    Seed,
    ClockMode,
    Behavior,
    Faults,
    Transport,
}

/// What the live wires need after an edit.
#[derive(Clone, Copy, Debug, PartialEq, Eq, Structural)]
pub enum Rewire {
    /// Every wire is opened anew.
    Reopen,
    /// The wires are matched to the session.
    Resync,
    Nothing,
}

impl SimEdit {
    /// What the live wires need after the edit: what a wire was opened with needs it
    /// opened anew; instances and connections that come and go need the wires
    /// matched; anything else reaches the wires by itself, or does not concern them.
    pub open spec fn needs(self) -> Rewire {
        match self {
            SimEdit::Shape | SimEdit::Latency | SimEdit::CallTimeout | SimEdit::Transport => Rewire::Reopen,
            SimEdit::AddInstance | SimEdit::RemoveInstance | SimEdit::AddConnection | SimEdit::RemoveConnection =>
                Rewire::Resync,
            _ => Rewire::Nothing,
        }
    }

    /// What the live wires need after the edit.
    pub fn rewire(self) -> (r: Rewire)
        ensures
            r == self.needs(),
    {
        match self {
            SimEdit::Shape | SimEdit::Latency | SimEdit::CallTimeout | SimEdit::Transport => Rewire::Reopen,
            SimEdit::AddInstance | SimEdit::RemoveInstance | SimEdit::AddConnection | SimEdit::RemoveConnection =>
                Rewire::Resync,
            _ => Rewire::Nothing,
        }
    }
}

impl SimView {
    /// Whether the wires can follow an edit.
    pub open spec fn can_follow(self, edit: SimEdit) -> bool {
        match edit.needs() {
            Rewire::Reopen => self.session.opens_beside(Set::empty()),
            Rewire::Resync => self.engine.can_sync(self.session),
            Rewire::Nothing => true,
        }
    }

    /// With the wires as an edit leaves them.
    pub open spec fn followed(self, edit: SimEdit, greetings: Seq<GreetingView>) -> SimView {
        SimView {
            engine: match edit.needs() {
                Rewire::Reopen => self.engine.rebuilt(self.session, greetings),
                Rewire::Resync => self.engine.synced(self.session, greetings),
                Rewire::Nothing => self.engine,
            },
            ..self
        }
    }
}

impl Sim {
    /// A sim over `session`, with its wires open. `greetings` are the handshake
    /// frames of the session's connections.
    pub fn new(session: Session, greetings: &Vec<Greeting>) -> (r: Self)
        requires
            session@.opens_beside(Set::empty()),
            greetings@.len() == session@.connections.len(),
        ensures
            r@ == (SimView {
                session: session@,
                engine: EngineView::fresh().synced(session@, views(greetings@)),
                recorder: RecorderView::fresh(),
            }),
    {
        let mut engine = Engine::new();
        assert(engine@.wires.dom() =~= Set::empty());
        engine.sync(&session, greetings);
        Sim { session, engine, recorder: Recorder::new() }
    }

    /// The outcome of a replay, in place of what was here: its session, the
    /// engine that ran it, and nothing recorded.
    pub fn replayed(replay: Replay) -> (r: Self)
        ensures
            r@ == (SimView { session: replay@.session, engine: replay@.engine, recorder: RecorderView::fresh() }),
    {
        Sim { session: replay.session, engine: replay.engine, recorder: Recorder::new() }
    }

    /// Matches the live wires to the session: opens the ones that appeared,
    /// closes the ones that vanished, leaves the rest running.
    pub fn resync(&mut self, greetings: &Vec<Greeting>)
        requires
            old(self)@.engine.can_sync(old(self)@.session),
            greetings@.len() == old(self)@.session.connections.len(),
        ensures
            final(self)@ == (SimView {
                engine: old(self)@.engine.synced(old(self)@.session, views(greetings@)),
                ..old(self)@
            }),
    {
        self.engine.sync(&self.session, greetings);
    }

    /// Opens every wire of the session anew.
    pub fn reopen(&mut self, greetings: &Vec<Greeting>)
        requires
            old(self)@.session.opens_beside(Set::empty()),
            greetings@.len() == old(self)@.session.connections.len(),
        ensures
            final(self)@ == (SimView {
                engine: old(self)@.engine.rebuilt(old(self)@.session, views(greetings@)),
                ..old(self)@
            }),
    {
        self.engine.rebuild(&self.session, greetings);
    }

    /// Has the wires follow an edit that was made. `greetings` are the handshake
    /// frames of the session's connections.
    pub fn follow(&mut self, edit: SimEdit, greetings: &Vec<Greeting>)
        requires
            old(self)@.can_follow(edit),
            greetings@.len() == old(self)@.session.connections.len(),
        ensures
            final(self)@ == old(self)@.followed(edit, views(greetings@)),
    {
        match edit.rewire() {
            Rewire::Reopen => self.reopen(greetings),
            Rewire::Resync => self.resync(greetings),
            Rewire::Nothing => {},
        }
    }

    // ── topology ────────────────────────────────────────────────────────

    /// Re-points at a freshly compiled shape (a schema edit). Reconciles the
    /// session; the wires are then to be reopened.
    pub fn set_shape(&mut self, shape: ProjectShape)
        ensures
            final(self)@ == (SimView { session: old(self)@.session.rebuilt(shape@), ..old(self)@ }),
    {
        self.session.rebuild(shape);
    }

    /// Adds an instance to the session, and returns its id; the wires are then to
    /// be resynced.
    pub fn add_instance(&mut self, spec: InstanceSpec, place: Placement) -> (r: String)
        ensures
            final(self)@ == (SimView { session: old(self)@.session.with_instance(spec@, place@), ..old(self)@ }),
            r@ == old(self)@.session.next_instance_id(),
    {
        self.session.add_instance(spec, place)
    }

    /// Removes an instance and its connections from the session; the wires are
    /// then to be resynced.
    pub fn remove_instance(&mut self, id: &str)
        ensures
            final(self)@ == (SimView { session: old(self)@.session.without_instance(id@), ..old(self)@ }),
    {
        self.session.remove_instance(id);
    }

    /// Adds a connection to the session, and returns its id, or why there is
    /// none; the wires are then to be resynced.
    pub fn add_connection(&mut self, client_id: &str, server_id: &str) -> (r: Result<String, String>)
        ensures
            match r {
                Ok(id) => old(self)@.session.connect_refusal(client_id@, server_id@) is None && id@ == old(
                    self,
                )@.session.next_conn_id() && final(self)@ == (SimView {
                    session: old(self)@.session.with_connection(client_id@, server_id@),
                    ..old(self)@
                }),
                Err(message) => old(self)@.session.connect_refusal(client_id@, server_id@) == Some(message@)
                    && final(self)@ == old(self)@,
            },
    {
        self.session.add_connection(client_id, server_id)
    }

    /// Removes a connection from the session; the wires are then to be resynced.
    pub fn remove_connection(&mut self, conn_id: &str)
        ensures
            final(self)@ == (SimView { session: old(self)@.session.without_connection(conn_id@), ..old(self)@ }),
    {
        self.session.remove_connection(conn_id);
    }

    pub fn rename_node(&mut self, node_id: &str, label: &str)
        ensures
            final(self)@ == (SimView { session: old(self)@.session.with_label(node_id@, label@), ..old(self)@ }),
    {
        self.session.rename_node(node_id, label);
    }

    /// Moves a node on the canvas: to the nearest whole position, and none below
    /// zero.
    pub fn move_node(&mut self, node_id: &str, x: Double, y: Double)
        ensures
            exists|nx: Double, ny: Double| #[trigger]
                nx.is_whole_of(x) && #[trigger] ny.is_whole_of(y) && final(self)@ == (SimView {
                    session: SessionView {
                        nodes: change_first(
                            old(self)@.session.nodes,
                            |n: NodeView| n.id == node_id@,
                            |n: NodeView| NodeView { x: nx, y: ny, ..n },
                        ),
                        ..old(self)@.session
                    },
                    ..old(self)@
                }),
    {
        self.session.move_node(node_id, x, y);
    }

    /// Sets the delivery delay of every wire; the wires are then to be reopened.
    pub fn set_latency(&mut self, ms: Double)
        ensures
            final(self)@ == (SimView {
                session: SessionView { latency_ms: ms.above_zero(), ..old(self)@.session },
                ..old(self)@
            }),
    {
        self.session.latency_ms = ms.max_zero();
    }

    /// Sets how long a client waits for a reply; the wires are then to be
    /// reopened.
    pub fn set_call_timeout(&mut self, ms: Double)
        ensures
            final(self)@ == (SimView {
                session: SessionView { call_timeout_ms: ms.above_zero(), ..old(self)@.session },
                ..old(self)@
            }),
    {
        self.session.call_timeout_ms = ms.max_zero();
    }

    pub fn set_seed(&mut self, seed: u32)
        ensures
            final(self)@ == (SimView {
                session: SessionView { seed, ..old(self)@.session },
                engine: EngineView { rng: seed, ..old(self)@.engine },
                ..old(self)@
            }),
    {
        self.session.seed = seed;
        self.engine.set_seed(seed);
    }

    /// `"stepped"`, or anything else for the real clock.
    pub fn set_clock_mode(&mut self, mode: &str)
        ensures
            final(self)@ == (SimView {
                session: SessionView {
                    clock_mode: if mode@ == "stepped"@ {
                        ClockMode::Stepped
                    } else {
                        ClockMode::Real
                    },
                    ..old(self)@.session
                },
                ..old(self)@
            }),
    {
        self.session.clock_mode = if same_text(mode, "stepped") {
            ClockMode::Stepped
        } else {
            ClockMode::Real
        };
    }

    /// Sets a server instance's behaviour for one function, on the live wires
    /// too. `kind` is a behaviour tag (`"reply"`, `"echo"`, …); `config_json` the
    /// text of its configuration.
    pub fn set_behavior(
        &mut self,
        instance_id: &str,
        fn_name: &str,
        kind: &str,
        config_json: &str,
    ) -> (r: Result<(), String>)
        ensures
            match r {
                Ok(_) => old(self)@.behavior_refusal(instance_id@, fn_name@, kind@, read_json(config_json@)) is None
                    && exists|k: BehaviorKind| #[trigger]
                    k.tag() == kind@ && final(self)@ == old(self)@.with_behavior(
                        instance_id@,
                        fn_name@,
                        SettingView { kind: k, config: read_json(config_json@)->Ok_0 },
                    ),
                Err(message) => old(self)@.behavior_refusal(instance_id@, fn_name@, kind@, read_json(config_json@))
                    == Some(message@) && final(self)@ == old(self)@,
            },
    {
        let config = parse_text(config_json);
        self.set_behavior_with(instance_id, fn_name, kind, config)
    }

    /// As [`Sim::set_behavior`], given the configuration, or why it did not parse.
    pub fn set_behavior_with(
        &mut self,
        instance_id: &str,
        fn_name: &str,
        kind: &str,
        config: Result<Value, String>,
    ) -> (r: Result<(), String>)
        ensures
            match r {
                Ok(_) => old(self)@.behavior_refusal(instance_id@, fn_name@, kind@, parsed(config)) is None && exists|
                    k: BehaviorKind,
                | #[trigger]
                    k.tag() == kind@ && final(self)@ == old(self)@.with_behavior(
                        instance_id@,
                        fn_name@,
                        SettingView { kind: k, config: content(config->Ok_0) },
                    ),
                Err(message) => old(self)@.behavior_refusal(instance_id@, fn_name@, kind@, parsed(config)) == Some(
                    message@,
                ) && final(self)@ == old(self)@,
            },
    {
        let ghost before = self@;
        let kind = match BehaviorKind::parse(kind) {
            Some(k) => k,
            None => {
                let mut message = "unknown behaviour ".to_owned();
                message.append(kind);
                return Err(message);
            },
        };
        let config = match config {
            Ok(config) => config,
            Err(message) => return Err(message),
        };
        let ghost setting = SettingView { kind, config: content(config) };
        match self.session.set_behavior(instance_id, fn_name, kind, Some(config.clone())) {
            Err(message) => return Err(message),
            Ok(_) => {},
        }
        rewire(&mut self.engine, &self.session, instance_id, fn_name, kind, &config);
        let now = self.engine.now();
        self.recorder.capture(
            Input::Behavior {
                instance_id: instance_id.to_owned(),
                function: fn_name.to_owned(),
                setting: BehaviorSetting { kind, config },
            },
            now,
        );
        assert(self@ =~= before.with_behavior(instance_id@, fn_name@, setting));
        Ok(())
    }

    /// Replaces a connection's fault spec, on the live wire too.
    pub fn set_faults(&mut self, conn_id: &str, faults: FaultSpec)
        ensures
            final(self)@ == old(self)@.with_faults(conn_id@, faults),
    {
        let ghost before = self@;
        self.session.set_faults(conn_id, faults);
        self.engine.set_faults(conn_id, faults);
        if self.session.connection(conn_id).is_some() {
            let now = self.engine.now();
            self.recorder.capture(Input::Fault { conn_id: conn_id.to_owned(), faults }, now);
        }
        assert(self@ =~= before.with_faults(conn_id@, faults));
    }

    /// Sets a connection's framing (`auto` / `datagram` / `jsonrpc`) and wire
    /// format (`json` / `msgpack`); the wires are then to be reopened.
    pub fn set_transport(&mut self, conn_id: &str, framing: &str, wire_format: &str) -> (r: Result<(), String>)
        ensures
            match r {
                Ok(_) => exists|f: FramingChoice, c: Codec|
                    #![trigger f.tag(), c.label()]
                    f.tag() == framing@ && c.label() == wire_format@ && final(self)@ == (SimView {
                        session: old(self)@.session.with_transport(conn_id@, f, c),
                        ..old(self)@
                    }),
                Err(message) => final(self)@ == old(self)@ && if forall|f: FramingChoice| framing@ != #[trigger] f.tag() {
                    message@ == "unknown framing "@ + framing@
                } else {
                    (forall|c: Codec| wire_format@ != #[trigger] c.label()) && message@ == "unknown wire format "@
                        + wire_format@
                },
            },
    {
        let f = match FramingChoice::parse(framing) {
            Some(f) => f,
            None => {
                let mut message = "unknown framing ".to_owned();
                message.append(framing);
                return Err(message);
            },
        };
        let codec = match Codec::parse(wire_format) {
            Some(c) => c,
            None => {
                let mut message = "unknown wire format ".to_owned();
                message.append(wire_format);
                return Err(message);
            },
        };
        self.session.set_transport(conn_id, f, codec);
        assert(f.tag() == framing@ && codec.label() == wire_format@);
        Ok(())
    }

    // ── driving ─────────────────────────────────────────────────────────

    /// Frames a call with the params that `params_json` is the text of, or asks for
    /// its frame; captured where it was taken. Read the outcome back with
    /// [`Sim::result`].
    pub fn call(&mut self, conn_id: &str, fn_name: &str, params_json: &str) -> (r: Result<Called, String>)
        ensures
            match params_of(params_json@) {
                Err(message) => r is Err && r->Err_0@ == message && final(self)@ == old(self)@,
                Ok(params) => {
                    &&& final(self)@ == old(self)@.called(conn_id@, fn_name@, params).0
                    &&& match old(self)@.called(conn_id@, fn_name@, params).1 {
                        Ok(called) => r is Ok && r->Ok_0@ == called,
                        Err(e) => r is Err && r->Err_0@ == e.tag(),
                    }
                },
            },
    {
        match read_params(params_json) {
            Err(message) => Err(message),
            Ok(params) => match self.call_with(conn_id, fn_name, params) {
                Ok(called) => Ok(called),
                Err(e) => Err(e.name().to_owned()),
            },
        }
    }

    /// As [`Sim::call`], given the params.
    pub fn call_with(&mut self, conn_id: &str, fn_name: &str, params: Value) -> (r: Result<Called, RuntimeError>)
        ensures
            final(self)@ == old(self)@.called(conn_id@, fn_name@, content(params)).0,
            called_view(r) == old(self)@.called(conn_id@, fn_name@, content(params)).1,
    {
        let ghost before = self@;
        let ghost held = content(params);
        let r = match self.engine.call(conn_id, fn_name, &params) {
            Err(e) => Err(e),
            Ok(called) => {
                let now = self.engine.now();
                self.recorder.capture(
                    Input::Call { conn_id: conn_id.to_owned(), function: fn_name.to_owned(), params },
                    now,
                );
                Ok(called)
            },
        };
        assert(self@ =~= before.called(conn_id@, fn_name@, held).0);
        r
    }

    /// The settled outcome of a call, as the text of `{ status, ... }`; `None`
    /// while it is still in flight.
    pub fn result(&self, request_id: u64) -> (r: Option<String>)
        ensures
            match r {
                Some(text) => self@.engine.results.dom().contains(request_id) && written_json(
                    result_json(self@.engine.results[request_id]),
                ) == Some(encode_utf8(text@)),
                None => !self@.engine.results.dom().contains(request_id),
            },
    {
        match self.result_value(request_id) {
            Some(value) => Some(json_text(&value)),
            None => None,
        }
    }

    /// The settled outcome of a call, as `{ status, ... }`; `None` while it is
    /// still in flight.
    pub fn result_value(&self, request_id: u64) -> (r: Option<Value>)
        ensures
            match r {
                Some(value) => self@.engine.results.dom().contains(request_id) && content(value) == result_json(
                    self@.engine.results[request_id],
                ),
                None => !self@.engine.results.dom().contains(request_id),
            },
    {
        match self.engine.result(request_id) {
            Some(result) => Some(call_result_json(result)),
            None => None,
        }
    }

    // ── inspection ──────────────────────────────────────────────────────

    /// The frame that a connection's tap numbered `seq`.
    pub fn frame(&self, conn_id: &str, seq: u32) -> (r: Option<&Frame>)
        ensures
            match r {
                Some(frame) => self@.engine.wires.dom().contains(conn_id@) && first_where(
                    self@.engine.wires[conn_id@].channel.tap.frames,
                    |f: FrameView| f.seq == seq,
                ) == Some(frame@),
                None => self@.engine.wires.dom().contains(conn_id@) ==> first_where(
                    self@.engine.wires[conn_id@].channel.tap.frames,
                    |f: FrameView| f.seq == seq,
                ) is None,
            },
    {
        match self.engine.tap(conn_id) {
            Some(tap) => match find_first(
                &tap.frames,
                |f: &Frame| -> (b: bool) ensures b == (f@.seq == seq) { f.seq == seq },
                Ghost(|f: FrameView| f.seq == seq),
            ) {
                Some(i) => Some(&tap.frames[i]),
                None => None,
            },
            None => None,
        }
    }

    /// The behaviour picker's options for `schema_ns::protocol::fn_name`, as the
    /// text of `[{ "kind", "label", "applies" }]`: `applies` is whether the kind
    /// makes sense for that function. `[]` if the function is unknown.
    pub fn behavior_catalog(&self, schema_ns: &str, protocol: &str, fn_name: &str) -> (r: String)
        ensures
            written_json(catalogue(function_of(self@.session.shape, schema_ns@, protocol@, fn_name@))) == Some(
                encode_utf8(r@),
            ),
    {
        json_text(&self.catalog(schema_ns, protocol, fn_name))
    }

    /// The behaviour picker's options.
    pub fn catalog(&self, schema_ns: &str, protocol: &str, fn_name: &str) -> (r: Value)
        ensures
            content(r) == catalogue(function_of(self@.session.shape, schema_ns@, protocol@, fn_name@)),
    {
        let mut entries: Vec<Value> = Vec::new();
        let ghost found = function_of(self@.session.shape, schema_ns@, protocol@, fn_name@);
        if let Some(function) = find_function(&self.session.shape, schema_ns, protocol, fn_name) {
            let kinds = BehaviorKind::all();
            let mut i: usize = 0;
            while i < kinds.len()
                invariant
                    i <= kinds@.len(),
                    kinds@ == BehaviorKind::catalogue(),
                    entries@.len() == i,
                    forall|k: int|
                        0 <= k < i ==> content(#[trigger] entries@[k]) == catalogue_entry(kinds@[k], function@),
                decreases kinds@.len() - i,
            {
                let kind = kinds[i];
                let entry = json::with_member(
                    json::with_member(
                        json::single("kind", json::text(kind.as_str().to_owned())),
                        "label".to_owned(),
                        json::text(kind.label().to_owned()),
                    ),
                    "applies".to_owned(),
                    json::boolean(kind.applies_to(function)),
                );
                entries.push(entry);
                i = i + 1;
            }
        }
        assert(contents(entries@) =~= catalogue(found)->Array_0);
        json::array(entries)
    }

    /// The behaviour a freshly-added server function starts on, for
    /// `schema_ns::protocol::fn_name`: `"reply"` or `"drop"`.
    pub fn default_behavior_kind(&self, schema_ns: &str, protocol: &str, fn_name: &str) -> (r: &'static str)
        ensures
            r@ == (match function_of(self@.session.shape, schema_ns@, protocol@, fn_name@) {
                Some(f) => default_kind(f).tag(),
                None => "reply"@,
            }),
    {
        match find_function(&self.session.shape, schema_ns, protocol, fn_name) {
            Some(f) => default_kind_for(f).as_str(),
            None => "reply",
        }
    }

    // ── record / replay ─────────────────────────────────────────────────

    /// Starts recording, from the session that `envelope` is the JSON of.
    pub fn record_start(&mut self, envelope: &[u8])
        ensures
            final(self)@ == (SimView {
                recorder: old(self)@.recorder.started(base64url(envelope@), old(self)@.engine.clock.millis()),
                ..old(self)@
            }),
    {
        let now = self.engine.now();
        self.recorder.start(envelope, now);
    }

    pub fn recording(&self) -> (r: bool)
        ensures
            r == self@.recorder.recording,
    {
        self.recorder.recording
    }

    pub fn recording_count(&self) -> (r: usize)
        ensures
            r == self@.recorder.events.len(),
    {
        self.recorder.count()
    }

    /// Stops recording and returns the recording.
    pub fn record_stop(&mut self) -> (r: Recording)
        ensures
            final(self)@ == (SimView { recorder: old(self)@.recorder.stopped(), ..old(self)@ }),
            r@ == old(self)@.recorder.taken(),
    {
        self.recorder.stop()
    }
}

/// A configuration that parsed, or why it did not.
pub open spec fn parsed(config: Result<Value, String>) -> Result<Json, Seq<char>> {
    match config {
        Ok(v) => Ok(content(v)),
        Err(message) => Err(message@),
    }
}

} // verus!

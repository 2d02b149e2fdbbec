//! The simulation as a whole, driven by a small host: one that makes and reads
//! handshakes and datagrams.

use comline_simulator::behavior::{Behavior, BehaviorCtx, BehaviorKind, Echo, Handler, SimOutcome};
use comline_simulator::compare::{read_params, framing_label, transport_matrix, transported, MatrixRun};
use comline_simulator::contract::{Envelope, Request, RequestCall, RuntimeError};
use comline_simulator::double::Double;
use comline_simulator::engine::{
    greeting_plans, CallResult, Called, Engine, Greeting, GreetingPlan, Outgoing, Step, Work,
};
use comline_simulator::facade::{Rewire, Sim, SimEdit};
use comline_simulator::faults::{no_faults, FaultDir};
use comline_simulator::fixtures as chat;
use comline_simulator::fixtures::CONN;
use comline_simulator::format::Codec;
use comline_simulator::frame::{Frame, FrameKind, HANDSHAKE_LEN};
use comline_simulator::framedecode::{
    describe_frame, DecodeCtx, FrameDetail, HandshakeFields, NamedHash,
};
use comline_simulator::framing::WireFraming;
use comline_simulator::model::{
    BehaviorSetting, ClockMode, FramingChoice, InstanceSpec, Placement, Role, Session,
};
use comline_simulator::pump::{chat_shape, CallResult as PumpResult, Pump, PumpStep, PumpWork};
use comline_simulator::record::{
    replay_session, Input, InputEvent, Phase, Recorder, Recording, Replay,
};
use comline_simulator::session_codec::{
    decode_session, encode_session, hash_is_readable, link_bytes, percent_decode, session_from_hash, VERSION,
};
use comline_simulator::shape::{Framing, ProjectShape};
use serde_json::Value;

fn ms(x: f64) -> Double {
    Double { bits: x.to_bits() }
}

fn json(text: &str) -> Value {
    serde_json::from_str(text).unwrap()
}

// ── the host ────────────────────────────────────────────────────────────

const DATAGRAM: &str = "datagram";

/// FNV-1a.
fn name_hash(name: &str) -> u64 {
    name.bytes().fold(0xcbf2_9ce4_8422_2325, |h: u64, b| (h ^ b as u64).wrapping_mul(0x100_0000_01b3))
}

/// `CO`, a version, the schema's hash, the two name hashes, the capabilities.
fn handshake(ir_hash: u64, wire_format: &str, framing: &str) -> Vec<u8> {
    let mut out = vec![b'C', b'O', 1];
    out.extend(ir_hash.to_le_bytes());
    out.extend(name_hash(wire_format).to_le_bytes());
    out.extend(name_hash(framing).to_le_bytes());
    out.extend(0u32.to_le_bytes());
    assert_eq!(out.len(), HANDSHAKE_LEN);
    out
}

fn u64_at(bytes: &[u8], at: usize) -> u64 {
    u64::from_le_bytes(bytes[at..at + 8].try_into().unwrap())
}

fn read_handshake(bytes: &[u8]) -> Option<HandshakeFields> {
    if bytes.len() != HANDSHAKE_LEN || &bytes[..2] != b"CO" {
        return None;
    }
    Some(HandshakeFields {
        ir_hash: u64_at(bytes, 3),
        wire_format: u64_at(bytes, 11),
        framing: u64_at(bytes, 19),
        capabilities: u32::from_le_bytes(bytes[27..31].try_into().unwrap()),
    })
}

/// `[call_id u16][request_id u64][params]`.
fn frame_request(call_id: u16, request_id: u64, params: &[u8]) -> Vec<u8> {
    let mut out = call_id.to_le_bytes().to_vec();
    out.extend(request_id.to_le_bytes());
    out.extend(params);
    out
}

fn read_request(frame: &[u8]) -> Option<Request> {
    if frame.len() < 10 {
        return None;
    }
    Some(Request {
        call: RequestCall::Id(u16::from_le_bytes(frame[..2].try_into().unwrap())),
        request_id: u64_at(frame, 2),
        params: frame[10..].to_vec(),
    })
}

/// `[request_id u64][tag u8][body]`, with the ordinal of an error before its
/// body.
fn frame_reply(request_id: u64, envelope: &Envelope) -> Vec<u8> {
    let mut out = request_id.to_le_bytes().to_vec();
    match envelope {
        Envelope::Success(payload) => {
            out.push(0);
            out.extend(payload);
        }
        Envelope::Failure { id, body } => {
            out.push(1);
            out.extend(id.to_le_bytes());
            out.extend(body);
        }
    }
    out
}

fn read_reply(frame: &[u8]) -> Option<(u64, Envelope)> {
    let tag = *frame.get(8)?;
    let id = u64_at(frame, 0);
    if tag == 0 {
        Some((id, Envelope::Success(frame[9..].to_vec())))
    } else if tag == 1 && frame.len() >= 11 {
        let ordinal = u16::from_le_bytes(frame[9..11].try_into().unwrap());
        Some((id, Envelope::Failure { id: ordinal, body: frame[11..].to_vec() }))
    } else {
        None
    }
}

fn greetings(session: &Session) -> Vec<Greeting> {
    greeting_plans(session)
        .iter()
        .map(|plan: &Option<GreetingPlan>| match plan {
            Some(p) => Greeting {
                client: handshake(p.client_hash, p.codec.name(), p.framing.name(DATAGRAM)),
                server: handshake(p.server_hash, p.codec.name(), p.framing.name(DATAGRAM)),
            },
            None => Greeting { client: Vec::new(), server: Vec::new() },
        })
        .collect()
}

fn sync(engine: &mut Engine, session: &Session) {
    engine.sync(session, &greetings(session));
}

fn rebuild(engine: &mut Engine, session: &Session) {
    engine.rebuild(session, &greetings(session));
}

fn answer(engine: &mut Engine, work: Work) {
    let mut next = Some(work);
    while let Some(work) = next {
        next = match work {
            Work::DecodeRequest { conn, frame } => engine.request_decoded(&conn, read_request(&frame)),
            Work::DecodeResponse { conn, frame } => engine.response_decoded(&conn, read_reply(&frame)),
            Work::FrameRequest(job) => send(engine, job),
            Work::FrameReply { conn, request_id, envelope } => {
                engine.reply_framed(&conn, &frame_reply(request_id, &envelope));
                None
            }
            Work::RunScript { conn, request_id, source, params, oneway } => {
                engine.script_ran(&conn, request_id, oneway, run_script(&source, &params))
            }
        };
    }
}

/// A script engine of one script.
fn run_script(source: &str, params: &Value) -> Result<Value, String> {
    if source == "#{ echoed: params[0] }" {
        let mut out = serde_json::Map::new();
        out.insert("echoed".into(), params[0].clone());
        Ok(Value::Object(out))
    } else {
        Err(format!("cannot run {source}"))
    }
}

fn send(engine: &mut Engine, job: Outgoing) -> Option<Work> {
    let frame = frame_request(job.call_id, job.request_id, &job.body);
    engine.request_framed(job, Some(frame))
}

fn call(engine: &mut Engine, conn: &str, function: &str, params: &str) -> Result<u64, RuntimeError> {
    match engine.call(conn, function, &json(params))? {
        Called::Sent(id) => Ok(id),
        Called::Frame(job) => {
            let id = job.request_id;
            assert!(send(engine, job).is_none());
            Ok(id)
        }
    }
}

fn carry_out(engine: &mut Engine, step: Step) -> bool {
    match step {
        Step::Idle => false,
        Step::Done => true,
        Step::Ask(work) => {
            answer(engine, work);
            true
        }
    }
}

fn step(engine: &mut Engine) -> bool {
    let step = engine.step();
    carry_out(engine, step)
}

fn run(engine: &mut Engine) {
    while step(engine) {}
}

fn advance(engine: &mut Engine, window: f64) {
    let until = engine.window_end(ms(window));
    loop {
        let step = engine.advance(until);
        if !carry_out(engine, step) {
            return;
        }
    }
}

fn wired(session: &Session) -> Engine {
    let mut e = Engine::new();
    sync(&mut e, session);
    e
}

// ── the chat session ────────────────────────────────────────────────────

fn hello() -> Value {
    json(r#"{"body":"HELLO","seq":1}"#)
}

fn settled(value: Value) -> CallResult {
    CallResult::Success(value)
}

fn instance(role: Role) -> InstanceSpec {
    InstanceSpec { schema_ns: "chat".into(), protocol: "Chat".into(), role }
}

/// `chat-1` (server, `send` replies `{body:"HELLO",seq:1}`) and `chat-2`
/// (client) connected as `CONN`.
fn chat_session() -> Session {
    let mut s = Session::empty(chat::shape());
    let srv = s.add_instance(instance(Role::Server), Placement::default());
    let cli = s.add_instance(instance(Role::Client), Placement::default());
    s.set_behavior(&srv, "send", BehaviorKind::Reply, Some(json(r#"{"value":{"body":"HELLO","seq":1}}"#))).unwrap();
    s.add_connection(&cli, &srv).unwrap();
    s
}

fn chat_engine() -> Engine {
    wired(&chat_session())
}

fn server_of(session: &Session) -> String {
    session.instances.iter().find(|i| i.role == Role::Server).unwrap().id.clone()
}

/// The tap frames past the two handshake frames a clean connect records.
fn payload_frames(engine: &Engine, conn: &str) -> Vec<Frame> {
    engine.tap(conn).unwrap().frames.iter().filter(|f| f.kind != FrameKind::Handshake).cloned().collect()
}

// ── engine ──────────────────────────────────────────────────────────────

#[test]
fn a_connect_records_a_handshake_each_way() {
    let e = chat_engine();
    let frames = &e.tap(CONN).unwrap().frames;
    assert_eq!(frames.len(), 2);
    assert!(frames.iter().all(|f| f.kind == FrameKind::Handshake));
    assert_eq!((frames[0].from.as_str(), frames[0].to.as_str()), ("chat-2", "chat-1"));
    assert_eq!((frames[1].from.as_str(), frames[1].to.as_str()), ("chat-1", "chat-2"));
    assert!(e.connection_error(CONN).is_none());
}

#[test]
fn engine_a_call_round_trips_over_the_real_contract() {
    let mut e = chat_engine();
    let id = call(&mut e, CONN, "send", r#"["hi"]"#).unwrap();
    assert_eq!(e.result(id), None);

    run(&mut e);

    assert_eq!(e.result(id), Some(&settled(hello())));
    let p = payload_frames(&e, CONN);
    assert_eq!(p.len(), 2, "one request, one response");
    assert_eq!((p[0].from.as_str(), p[0].to.as_str()), ("chat-2", "chat-1"));
    assert_eq!((p[1].from.as_str(), p[1].to.as_str()), ("chat-1", "chat-2"));
}

#[test]
fn an_unknown_or_missing_function_rejects_a_call() {
    let mut e = chat_engine();
    assert_eq!(call(&mut e, "nope", "send", "[]").unwrap_err(), RuntimeError::Transport);
    assert_eq!(call(&mut e, CONN, "missing", "[]").unwrap_err(), RuntimeError::UnknownCall);
}

#[test]
fn a_partition_refuses_the_handshake() {
    let mut s = chat_session();
    let mut cut = no_faults();
    cut.partition = true;
    s.set_faults(CONN, cut);
    let e = wired(&s);
    assert_eq!(e.connection_error(CONN), Some("handshake"));
    assert_eq!(e.tap(CONN).unwrap().frames.len(), 2, "both attempts are on the tap");
    assert_eq!(wired(&chat_session()).connection_error(CONN), None);
}

#[test]
fn a_window_ends_at_its_edge() {
    let mut e = wired(&chat_session());
    advance(&mut e, 1.5);
    assert_eq!(e.now(), ms(1.5));
    assert!(matches!(e.advance(ms(0.7)), Step::Idle));
    assert_eq!(e.now(), ms(1.5), "time never goes back");
}

#[test]
fn a_window_reaches_as_far_as_its_milliseconds() {
    // an event due at 1 µs, and a window that ends before it
    let mut session = chat_session();
    session.latency_ms = ms(0.001);
    let mut e = wired(&session);
    call(&mut e, CONN, "send", r#"["hi"]"#).unwrap();
    let pending = e.pending();
    advance(&mut e, 0.0006);
    assert_eq!((e.now(), e.pending()), (ms(0.001), pending), "not fired, and parked at the nearest microsecond");
    advance(&mut e, 0.0);
    assert_eq!(e.now(), ms(0.001));
    assert!(payload_frames(&e, CONN).len() == 2, "now it is");

    // the pump: an event at 800 µs, seen from 700 µs through windows that end about there
    for (window, fires) in [(0.1, 0.7 + 0.1 >= 0.8), (0.1000001, true), (0.0999, false), (0.2, true)] {
        let mut pump = Pump::new();
        pump.set_latency(ms(0.8));
        pump_call(&mut pump, "send", r#"["hi"]"#).unwrap();
        pump_advance(&mut pump, 0.7);
        assert_eq!((pump.now(), pump.tap().frames.len()), (ms(0.7), 1));
        pump_advance(&mut pump, window);
        assert_eq!(pump.tap().frames.len() == 2, fires, "{window}");
        assert_eq!(pump.now(), ms(((0.7 + window) * 1000.0f64).round() / 1000.0));
    }
}

#[test]
fn two_windows_come_to_the_same_as_one() {
    let start = || {
        let mut session = chat_session();
        session.latency_ms = ms(30.0);
        let mut e = wired(&session);
        let id = call(&mut e, CONN, "send", r#"["hi"]"#).unwrap();
        (e, id)
    };
    for cut in [0.0, 1.0, 29.0, 30.0, 31.0, 60.0, 75.0, 100.0] {
        let (mut whole, id) = start();
        let (mut parts, _) = start();
        advance(&mut whole, 100.0);
        advance(&mut parts, cut);
        assert_eq!(parts.now(), ms(cut));
        advance(&mut parts, 100.0 - cut);
        assert_eq!((parts.now(), parts.pending()), (whole.now(), whole.pending()));
        assert_eq!(parts.result(id), whole.result(id));
        assert_eq!(payload_frames(&parts, CONN), payload_frames(&whole, CONN));
        assert_eq!(whole.now(), ms(100.0));
    }
}

#[test]
fn a_result_outlasts_whatever_comes_later() {
    let mut session = chat_session();
    session.call_timeout_ms = ms(500.0);
    let mut e = wired(&session);
    let id = call(&mut e, CONN, "send", r#"["hi"]"#).unwrap();
    while e.result(id).is_none() {
        assert!(step(&mut e));
    }
    let first = settled(hello());
    assert_eq!(e.result(id), Some(&first));
    assert_eq!(e.pending(), 0, "its timeout went with it");

    e.set_behavior(CONN, "send", BehaviorKind::Drop, &json("{}"), &chat::schema()).unwrap();
    let late = call(&mut e, CONN, "send", r#"["late"]"#).unwrap();
    assert_ne!(late, id);
    advance(&mut e, 1000.0);
    assert_eq!(e.result(late), Some(&CallResult::Timeout));
    // a second answer to a settled call
    assert!(e.response_decoded(CONN, Some((id, Envelope::Success(b"1".to_vec())))).is_none());
    sync(&mut e, &session);
    rebuild(&mut e, &session);
    run(&mut e);
    assert_eq!(e.result(id), Some(&first));
    assert_eq!(e.result(late), Some(&CallResult::Timeout));
}

#[test]
fn a_settled_call_waits_no_more() {
    let mut session = chat_session();
    session.call_timeout_ms = ms(1000.0);
    let mut e = wired(&session);
    let id = call(&mut e, CONN, "send", r#"["hi"]"#).unwrap();
    assert_eq!(e.pending(), 2, "the request, and the timeout");
    assert!(e.settle(id, settled(json("7"))).is_none());
    assert_eq!(e.pending(), 1);
    assert!(e.settle(id, settled(hello())).is_none());
    run(&mut e);
    assert_eq!(e.result(id), Some(&settled(json("7"))));
    assert_eq!(e.connection_error(CONN), None);
}

#[test]
fn a_version_skew_refuses_the_handshake() {
    let mut session = chat_session();
    let server_id = server_of(&session);
    session.instance_mut(&server_id).unwrap().ir_hash = "0xdifferent".into();

    let mut e = wired(&session);
    assert_eq!(e.connection_error(CONN), Some("handshake"));
    assert_eq!(call(&mut e, CONN, "send", r#"["hi"]"#).unwrap_err(), RuntimeError::Handshake);
}

#[test]
fn engine_latency_shows_up_as_virtual_time() {
    let mut session = chat_session();
    session.latency_ms = ms(50.0);
    let mut e = wired(&session);

    let id = call(&mut e, CONN, "send", r#"["hi"]"#).unwrap();
    run(&mut e);
    assert_eq!(e.result(id), Some(&settled(hello())));
    assert_eq!(e.now(), ms(100.0), "50 ms each way");
}

#[test]
fn a_dropped_request_never_settles_without_a_timeout() {
    let mut session = chat_session();
    session.call_timeout_ms = ms(0.0); // wait forever: isolate the drop path
    session.connections[0].faults.drop_prob = ms(1.0);
    session.connections[0].faults.apply_to = FaultDir::Requests;
    let mut e = wired(&session);

    let id = call(&mut e, CONN, "send", r#"["hi"]"#).unwrap();
    run(&mut e);
    assert_eq!(e.result(id), None);
    assert!(payload_frames(&e, CONN).iter().any(|f| f.fault.as_deref() == Some("dropped")));
}

#[test]
fn sync_is_incremental() {
    let mut session = chat_session();
    let mut e = wired(&session);
    // a frame that only the wire as it was opened first can hold
    call(&mut e, CONN, "send", r#"["hi"]"#).unwrap();
    run(&mut e);
    let c1_frames: Vec<Vec<u8>> = e.tap(CONN).unwrap().frames.iter().map(|f| f.bytes.clone()).collect();
    assert_eq!(c1_frames.len(), 4);
    let frames = |e: &Engine| -> Vec<Vec<u8>> { e.tap(CONN).unwrap().frames.iter().map(|f| f.bytes.clone()).collect() };

    let srv = server_of(&session);
    let cli2 = session.add_instance(instance(Role::Client), Placement::default());
    let c2 = session.add_connection(&cli2, &srv).unwrap();
    sync(&mut e, &session);

    assert_eq!(frames(&e), c1_frames, "c1 left running");
    assert!(e.tap(&c2).is_some(), "c2 opened");
    assert_eq!(e.connection_ids(), ["c1", "c2"]);
    assert_eq!(e.connections_for_instance(&srv), ["c1", "c2"]);
    assert_eq!(e.connections_for_instance(&cli2), ["c2"]);

    session.remove_connection(&c2);
    sync(&mut e, &session);
    assert!(e.tap(&c2).is_none(), "c2 closed");
    assert!(e.tap(CONN).is_some(), "c1 still there");
    assert_eq!(frames(&e), c1_frames);
}

#[test]
fn behaviour_swap_takes_effect_on_the_next_call() {
    let mut e = chat_engine();
    e.set_behavior(CONN, "send", BehaviorKind::Echo, &json("{}"), &chat::schema()).unwrap();
    let id = call(&mut e, CONN, "send", r#"["echo me"]"#).unwrap();
    run(&mut e);
    assert_eq!(e.result(id), Some(&settled(json(r#"["echo me"]"#))));

    assert_eq!(
        e.set_behavior("c9", "send", BehaviorKind::Echo, &json("{}"), &chat::schema()).unwrap_err(),
        "no connection c9"
    );
    assert_eq!(
        e.set_behavior(CONN, "nope", BehaviorKind::Echo, &json("{}"), &chat::schema()).unwrap_err(),
        "no function nope"
    );
}

fn forward_to(conn: &str) -> Option<Value> {
    Some(json(&format!(r#"{{"viaConnectionId":"{conn}","targetFn":"send"}}"#)))
}

#[test]
fn forward_relays_a_call_to_a_second_connection() {
    let mut session = chat_session(); // chat-1 (srv, replies HELLO), chat-2 (cli), c1
    let backend = server_of(&session);

    let gw_client = session.add_instance(instance(Role::Client), Placement::default());
    let c_gw_backend = session.add_connection(&gw_client, &backend).unwrap();

    let gw_server = session.add_instance(instance(Role::Server), Placement::default());
    let outer_client = session.add_instance(instance(Role::Client), Placement::default());
    let c_outer = session.add_connection(&outer_client, &gw_server).unwrap();
    session.set_behavior(&gw_server, "send", BehaviorKind::Forward, forward_to(&c_gw_backend)).unwrap();

    let mut e = wired(&session);
    let id = call(&mut e, &c_outer, "send", r#"["relay me"]"#).unwrap();
    run(&mut e);

    assert_eq!(e.result(id), Some(&settled(hello())));
}

#[test]
fn a_forward_relays_an_error_and_leaves_nothing_behind() {
    let mut session = chat_session();
    session.latency_ms = ms(10.0);
    let backend = server_of(&session);
    let raise = Some(json(r#"{"ordinal":3,"data":{"why":"no"}}"#));
    session.set_behavior(&backend, "send", BehaviorKind::Raise, raise).unwrap();
    let gw_client = session.add_instance(instance(Role::Client), Placement::default());
    let c_gw_backend = session.add_connection(&gw_client, &backend).unwrap();
    let gw_server = session.add_instance(instance(Role::Server), Placement::default());
    let outer_client = session.add_instance(instance(Role::Client), Placement::default());
    let c_outer = session.add_connection(&outer_client, &gw_server).unwrap();
    session.set_behavior(&gw_server, "send", BehaviorKind::Forward, forward_to(&c_gw_backend)).unwrap();
    session.set_transport(&c_outer, FramingChoice::Jsonrpc, Codec::Json);
    session.set_transport(&c_gw_backend, FramingChoice::Datagram, Codec::Msgpack);

    let mut e = wired(&session);
    let id = call(&mut e, &c_outer, "send", r#"["relay me"]"#).unwrap();
    for _ in 0..3 {
        assert!(step(&mut e));
        assert_eq!(e.result(id), None);
    }
    assert!(step(&mut e));
    assert_eq!(e.result(id), Some(&CallResult::Failure { ordinal: 3, body: json(r#"{"why":"no"}"#) }));
    assert_eq!((e.now(), e.pending()), (ms(40.0), 0), "both timeouts are gone");
    assert_eq!(payload_frames(&e, &c_outer).len(), 2);
    assert_eq!(payload_frames(&e, &c_gw_backend).len(), 2);
}

#[test]
fn a_forwarding_cycle_is_refused() {
    let mut session = Session::empty(chat::shape());
    let g1s = session.add_instance(instance(Role::Server), Placement::default());
    let g1c = session.add_instance(instance(Role::Client), Placement::default());
    let g2s = session.add_instance(instance(Role::Server), Placement::default());
    let g2c = session.add_instance(instance(Role::Client), Placement::default());
    let client = session.add_instance(instance(Role::Client), Placement::default());

    let c1_to_g2 = session.add_connection(&g1c, &g2s).unwrap();
    let c2_to_g1 = session.add_connection(&g2c, &g1s).unwrap();
    let c_in = session.add_connection(&client, &g1s).unwrap();

    session.set_behavior(&g1s, "send", BehaviorKind::Forward, forward_to(&c1_to_g2)).unwrap();
    session.set_behavior(&g2s, "send", BehaviorKind::Forward, forward_to(&c2_to_g1)).unwrap();

    let mut e = wired(&session);
    let id = call(&mut e, &c_in, "send", r#"["loop"]"#).unwrap();
    run(&mut e);

    match e.result(id) {
        Some(CallResult::Failure { ordinal: 0, body }) => {
            assert!(body["error"].as_str().unwrap().contains("cycle"), "{body}");
        }
        other => panic!("expected a cycle error, got {other:?}"),
    }
}

#[test]
fn engine_reseeding_keeps_a_run_reproducible() {
    let frames_for = |seed: u32| {
        let mut session = chat_session();
        session.seed = seed;
        session.connections[0].faults.corrupt_prob = ms(0.5);
        let mut e = Engine::new();
        rebuild(&mut e, &session);
        for _ in 0..8 {
            let _ = call(&mut e, CONN, "send", r#"["hi"]"#);
            run(&mut e);
        }
        e.tap(CONN).unwrap().frames.iter().map(|f| (f.bytes.clone(), f.fault.clone())).collect::<Vec<_>>()
    };
    assert_eq!(frames_for(7), frames_for(7));
    assert_ne!(frames_for(7), frames_for(8));
}

#[test]
fn a_dropped_reply_times_the_call_out_and_kills_the_wire() {
    let mut session = chat_session();
    session.call_timeout_ms = ms(120.0);
    session.connections[0].faults.drop_prob = ms(1.0);
    session.connections[0].faults.apply_to = FaultDir::Responses;
    let mut e = wired(&session);

    let id = call(&mut e, CONN, "send", r#"["x"]"#).unwrap();
    run(&mut e);

    assert_eq!(e.result(id), Some(&CallResult::Timeout));
    assert!(e.connection_dead(CONN));
    assert_eq!(e.now(), ms(120.0), "settled at the timeout instant");
    // a dead wire fails every later call fast
    assert_eq!(call(&mut e, CONN, "send", r#"["y"]"#).unwrap_err(), RuntimeError::Timeout);
}

#[test]
fn rebuild_recovers_a_dead_wire() {
    let mut session = chat_session();
    session.call_timeout_ms = ms(120.0);
    session.connections[0].faults.drop_prob = ms(1.0);
    session.connections[0].faults.apply_to = FaultDir::Responses;
    let mut e = wired(&session);
    call(&mut e, CONN, "send", r#"["x"]"#).unwrap();
    run(&mut e);
    assert!(e.connection_dead(CONN));

    session.connections[0].faults.drop_prob = ms(0.0);
    rebuild(&mut e, &session);
    assert!(!e.connection_dead(CONN));

    let id = call(&mut e, CONN, "send", r#"["x"]"#).unwrap();
    run(&mut e);
    assert_eq!(e.result(id), Some(&settled(hello())));
}

#[test]
fn a_zero_timeout_waits_forever() {
    let mut session = chat_session();
    session.call_timeout_ms = ms(0.0);
    session.connections[0].faults.drop_prob = ms(1.0);
    session.connections[0].faults.apply_to = FaultDir::Responses;
    let mut e = wired(&session);

    let id = call(&mut e, CONN, "send", r#"["x"]"#).unwrap();
    advance(&mut e, 1_000_000.0);
    assert_eq!(e.result(id), None, "never settles, never dies");
    assert!(!e.connection_dead(CONN));
    assert_eq!(e.now(), ms(1000000.0));
}

#[test]
fn a_forward_whose_upstream_hangs_times_out_and_kills_both_wires() {
    let mut session = chat_session(); // chat-1 (backend), chat-2, c1
    session.call_timeout_ms = ms(150.0);
    let backend = server_of(&session);
    // make the backend never reply
    session.set_behavior(&backend, "send", BehaviorKind::Drop, Some(json("{}"))).unwrap();

    let gw_client = session.add_instance(instance(Role::Client), Placement::default());
    let c_gw_backend = session.add_connection(&gw_client, &backend).unwrap();
    let gw_server = session.add_instance(instance(Role::Server), Placement::default());
    let outer_client = session.add_instance(instance(Role::Client), Placement::default());
    let c_outer = session.add_connection(&outer_client, &gw_server).unwrap();
    session.set_behavior(&gw_server, "send", BehaviorKind::Forward, forward_to(&c_gw_backend)).unwrap();

    let mut e = wired(&session);
    let id = call(&mut e, &c_outer, "send", r#"["relay"]"#).unwrap();
    run(&mut e);

    // the outer client's own timeout fires first: one session-wide window, and it
    // was scheduled before the nested inner call
    assert_eq!(e.result(id), Some(&CallResult::Timeout));
    assert!(e.connection_dead(&c_outer), "the outer wire is dead");
    assert!(e.connection_dead(&c_gw_backend), "so is the hung upstream");
}

#[test]
fn a_one_way_call_is_settled_at_once() {
    let shape = chat::shape_with(vec![chat::fn_shape("note", 0, true)], "0x1");
    let mut session = Session::empty(shape);
    let srv = session.add_instance(instance(Role::Server), Placement::default());
    let cli = session.add_instance(instance(Role::Client), Placement::default());
    session.add_connection(&cli, &srv).unwrap();
    let mut e = wired(&session);
    let id = call(&mut e, CONN, "note", r#"["psst"]"#).unwrap();
    assert_eq!(e.result(id), Some(&settled(Value::Null)));
    run(&mut e);
    assert_eq!(payload_frames(&e, CONN).len(), 1, "nothing comes back");
}

#[test]
fn a_frame_that_cannot_be_made_leaves_no_call() {
    let mut e = chat_engine();
    match e.call(CONN, "send", &json("[]")).unwrap() {
        Called::Frame(job) => {
            let id = job.request_id;
            assert!(e.request_framed(job, None).is_none());
            run(&mut e);
            assert_eq!(e.result(id), None);
        }
        Called::Sent(_) => panic!("a datagram wire asks for its frame"),
    }
    assert_eq!(payload_frames(&e, CONN).len(), 0);
    assert_eq!(e.pending(), 0);
}

#[test]
fn a_held_frame_is_released_by_its_timer() {
    let mut session = chat_session();
    session.connections[0].faults.reorder_window = 5;
    session.connections[0].faults.apply_to = FaultDir::Requests;
    let mut e = wired(&session);
    let id = call(&mut e, CONN, "send", r#"["hi"]"#).unwrap();
    run(&mut e);
    assert_eq!(e.result(id), Some(&settled(hello())));
    let response = payload_frames(&e, CONN).pop().unwrap();
    assert_eq!(response.at, ms(40.0), "the reorder buffer was flushed first");
}

// ── transports ──────────────────────────────────────────────────────────

#[test]
fn a_call_round_trips_over_every_transport_combo() {
    for (framing, codec) in transport_matrix() {
        let mut session = chat_session();
        session.set_transport(CONN, framing, codec);
        let mut e = wired(&session);
        assert!(e.connection_error(CONN).is_none(), "{framing:?}/{codec:?} connected");

        let id = call(&mut e, CONN, "send", r#"["hi"]"#).unwrap();
        run(&mut e);
        assert_eq!(e.result(id), Some(&settled(hello())), "{framing:?}/{codec:?} decoded body");
    }
}

#[test]
fn an_error_and_a_late_answer_come_back_over_every_transport() {
    for (framing, codec) in transport_matrix() {
        let mut session = chat_session();
        session.latency_ms = ms(20.0);
        session.set_transport(CONN, framing, codec);
        let mut e = wired(&session);
        e.set_behavior(CONN, "send", BehaviorKind::Raise, &json(r#"{"ordinal":7,"data":["no"]}"#), &chat::schema())
            .unwrap();
        let id = call(&mut e, CONN, "send", r#"["hi"]"#).unwrap();
        assert_eq!(e.pending(), 2, "the request, and the timeout");
        assert!(step(&mut e) && step(&mut e));
        assert_eq!(e.result(id), Some(&CallResult::Failure { ordinal: 7, body: json(r#"["no"]"#) }));
        assert_eq!((e.now(), e.pending()), (ms(40.0), 0), "its timeout went with it");

        e.set_behavior(CONN, "send", BehaviorKind::Delay, &json(r#"{"ms":500,"value":"late"}"#), &chat::schema())
            .unwrap();
        let id = call(&mut e, CONN, "send", r#"["hi"]"#).unwrap();
        assert!(step(&mut e) && step(&mut e));
        assert_eq!(e.result(id), None);
        assert!(step(&mut e));
        assert_eq!(e.result(id), Some(&settled(json(r#""late""#))));
        assert_eq!((e.now(), e.pending()), (ms(580.0), 0));
        assert_eq!(payload_frames(&e, CONN).len(), 4);
    }
}

#[test]
fn an_answer_after_the_window_is_too_late() {
    let mut session = chat_session();
    session.call_timeout_ms = ms(100.0);
    let mut e = wired(&session);
    e.set_behavior(CONN, "send", BehaviorKind::Delay, &json(r#"{"ms":100,"value":1}"#), &chat::schema()).unwrap();
    let id = call(&mut e, CONN, "send", r#"["hi"]"#).unwrap();
    run(&mut e);
    assert_eq!(e.result(id), Some(&CallResult::Timeout));
    assert!(e.connection_dead(CONN));
    assert_eq!((e.now(), e.pending()), (ms(100.0), 0), "a drained queue leaves no call waiting");
}

#[test]
fn a_lost_call_times_out_when_its_window_ends() {
    let mut session = chat_session();
    session.latency_ms = ms(20.0);
    let mut e = wired(&session);
    let mut faults = no_faults();
    faults.drop_prob = ms(1.0);
    e.set_faults(CONN, faults);
    let id = call(&mut e, CONN, "send", r#"["hi"]"#).unwrap();
    assert_eq!(e.pending(), 1, "the timeout alone");
    advance(&mut e, 2999.0);
    assert_eq!(e.result(id), None);
    advance(&mut e, 1.0);
    assert_eq!(e.result(id), Some(&CallResult::Timeout));
    assert!(e.connection_dead(CONN));
}

#[test]
fn far_off_windows_end_at_their_millisecond() {
    // past 2^53 microseconds doubles count them by the two, then by the four and the eight
    let mut e = wired(&chat_session());
    let mut now = 0.0;
    for window in [9_007_199_254_741.0, 1.0, 18_014_398_509_481.0, 7.0, 45_035_996_273_000.0, 1.0] {
        advance(&mut e, window);
        now += window;
        assert_eq!(e.now(), ms(now), "{window}");
    }
}

#[test]
fn json_rpc_with_msgpack_is_refused() {
    let mut session = chat_session();
    session.set_transport(CONN, FramingChoice::Jsonrpc, Codec::Msgpack);
    let e = wired(&session);
    assert_eq!(e.connection_error(CONN), Some("json-rpc framing requires the json codec"));
}

fn compare(session: &Session, conn: &str, function: &str, params: &str) -> Vec<MatrixRun> {
    transport_matrix()
        .into_iter()
        .map(|(framing, codec)| {
            let s = transported(session, conn, framing, codec);
            let mut e = Engine::new();
            rebuild(&mut e, &s);
            let id = call(&mut e, conn, function, params).ok();
            run(&mut e);
            MatrixRun::of(&e, conn, framing, codec, id)
        })
        .collect()
}

#[test]
fn compare_transports_agrees_on_the_body_and_differs_on_the_frames() {
    let session = chat_session();
    let runs = compare(&session, CONN, "send", r#"["hi"]"#);
    assert_eq!(runs.len(), 3);

    // every combo decodes to the same reply
    for run in &runs {
        assert_eq!(run.result, Some(settled(hello())), "{} body", run.label);
    }

    // the datagram + msgpack request frame is shorter than the datagram + json
    // one, and the json-rpc one is a text frame
    let req_bytes = |label: &str| {
        runs.iter()
            .find(|r| r.label == label)
            .unwrap()
            .frames
            .iter()
            .find(|f| f.kind == FrameKind::Request)
            .unwrap()
            .bytes
            .clone()
    };
    let dg_json = req_bytes("datagram/json");
    let dg_mp = req_bytes("datagram/msgpack");
    let rpc = req_bytes("jsonrpc/json");
    assert!(dg_mp.len() < dg_json.len(), "msgpack is tighter");
    assert!(std::str::from_utf8(&rpc).unwrap().contains("\"method\":\"send\""));
}

#[test]
fn compare_returns_one_entry_per_transport_combo() {
    let runs = compare(&chat_session(), CONN, "send", r#"["hi"]"#);
    let labels: Vec<&str> = runs.iter().map(|r| r.label.as_str()).collect();
    assert_eq!(labels, ["datagram/json", "datagram/msgpack", "jsonrpc/json"]);
    for run in &runs {
        assert_eq!(run.result, Some(settled(hello())), "{}", run.label);
    }

    let refused = compare(&chat_session(), CONN, "nope", "[]");
    assert!(refused.iter().all(|r| r.result.is_none() && r.frames.len() == 2));
    let nowhere = compare(&chat_session(), "c9", "send", "[]");
    assert!(nowhere.iter().all(|r| r.result.is_none() && r.frames.is_empty()));
    assert_eq!(framing_label(FramingChoice::Auto), "datagram");
}

// ── the pump ────────────────────────────────────────────────────────────

fn pump_answer(pump: &mut Pump, work: PumpWork) {
    let mut next = Some(work);
    while let Some(work) = next {
        next = match work {
            PumpWork::DecodeRequest(frame) => pump.request_decoded(read_request(&frame)),
            PumpWork::DecodeResponse(frame) => {
                pump.response_decoded(read_reply(&frame));
                None
            }
            PumpWork::FrameReply { request_id, envelope } => {
                pump.reply_framed(&frame_reply(request_id, &envelope));
                None
            }
            PumpWork::RunScript { request_id, source, params, oneway } => {
                pump.script_ran(request_id, oneway, run_script(&source, &params))
            }
        };
    }
}

fn pump_call(pump: &mut Pump, function: &str, params: &str) -> Result<u64, RuntimeError> {
    let job = pump.call(function, &json(params))?;
    let frame = frame_request(job.call_id, job.request_id, &job.body);
    pump.request_framed(&job, &frame);
    Ok(job.request_id)
}

fn pump_carry_out(pump: &mut Pump, step: PumpStep) -> bool {
    match step {
        PumpStep::Idle => false,
        PumpStep::Done => true,
        PumpStep::Ask(work) => {
            pump_answer(pump, work);
            true
        }
    }
}

fn pump_step(pump: &mut Pump) -> bool {
    let step = pump.step();
    pump_carry_out(pump, step)
}

fn pump_run(pump: &mut Pump) {
    while pump_step(pump) {}
}

fn pump_advance(pump: &mut Pump, window: f64) {
    let until = pump.window_end(ms(window));
    loop {
        let step = pump.advance(until);
        if !pump_carry_out(pump, step) {
            return;
        }
    }
}

fn pump_with(kind: BehaviorKind, config: &str) -> Pump {
    let schema = chat::schema();
    let mut pump = Pump::new();
    pump.set_behavior("send", kind.make(&json(config), &schema.protocols[0].functions[0], &schema));
    pump
}

#[test]
fn pump_a_call_round_trips_over_the_real_contract() {
    let mut pump = Pump::new();
    let id = pump_call(&mut pump, "send", r#"["hi"]"#).unwrap();
    assert_eq!(pump.result(id), None, "not settled until the pump runs");

    pump_run(&mut pump);

    assert_eq!(pump.result(id), Some(&PumpResult::Success(hello())));
    let frames = &pump.tap().frames;
    assert_eq!(frames.len(), 2, "one request, one response");
    assert_eq!((frames[0].from.as_str(), frames[0].to.as_str()), ("client", "server"));
    assert_eq!((frames[1].from.as_str(), frames[1].to.as_str()), ("server", "client"));
}

#[test]
fn calls_resolve_by_function_name() {
    let mut pump = Pump::new();
    assert_eq!(pump_call(&mut pump, "nope", "[]").unwrap_err(), RuntimeError::UnknownCall);
}

#[test]
fn a_generic_dispatch_behaviour_swap_takes_effect_next_call() {
    let mut pump = Pump::new();
    pump.set_behavior("send", Handler::Echo(Echo));

    let id = pump_call(&mut pump, "send", r#"["echo me"]"#).unwrap();
    pump_run(&mut pump);
    assert_eq!(pump.result(id), Some(&PumpResult::Success(json(r#"["echo me"]"#))));
}

/// Raises its own error on every second call.
struct EverySecond {
    last_failed: bool,
}

impl Behavior for EverySecond {
    fn run(&mut self, ctx: BehaviorCtx<'_>) -> SimOutcome {
        self.last_failed = !self.last_failed;
        if self.last_failed {
            SimOutcome::Failure { ordinal: 9, data: ctx.params }
        } else {
            SimOutcome::Success(ctx.params)
        }
    }
}

#[test]
fn a_pump_runs_a_behaviour_of_ones_own() {
    let mut pump = Pump::new();
    pump.set_behavior("send", Handler::Custom(Box::new(EverySecond { last_failed: false })));
    let first = pump_call(&mut pump, "send", r#"["a"]"#).unwrap();
    let second = pump_call(&mut pump, "send", r#"["b"]"#).unwrap();
    pump_run(&mut pump);
    assert_eq!(pump.result(first), Some(&PumpResult::Failure { ordinal: 9, body: json(r#"["a"]"#) }));
    assert_eq!(pump.result(second), Some(&PumpResult::Success(json(r#"["b"]"#))));
}

#[test]
fn from_shape_seeds_the_zero_value_reply() {
    let mut pump = Pump::from_shape(&chat::shape(), "chat", "Chat").unwrap();

    let id = pump_call(&mut pump, "send", r#"["hi"]"#).unwrap();
    pump_run(&mut pump);
    // Message's zero value: body "", seq 0
    assert_eq!(pump.result(id), Some(&PumpResult::Success(json(r#"{"body":"","seq":0}"#))));
}

#[test]
fn from_shape_is_none_for_a_missing_protocol() {
    let shape = chat_shape();
    assert!(Pump::from_shape(&shape, "chat", "Missing").is_none());
    assert!(Pump::from_shape(&shape, "nope", "Chat").is_none());

    let mut jsonrpc = chat_shape();
    jsonrpc.schemas[0].protocols[0].framing = Framing::Jsonrpc;
    assert!(Pump::from_shape(&jsonrpc, "chat", "Chat").is_none());
}

#[test]
fn pump_latency_shows_up_as_virtual_time() {
    let mut pump = Pump::new();
    pump.set_latency(ms(50.0));
    let id = pump_call(&mut pump, "send", r#"["hi"]"#).unwrap();
    pump_run(&mut pump);

    assert_eq!(pump.result(id), Some(&PumpResult::Success(hello())));
    assert_eq!(pump.now(), ms(100.0), "50 ms each way");
    assert_eq!(pump.tap().frames[0].at, ms(0.0));
    assert_eq!(pump.tap().frames[1].at, ms(50.0));
}

#[test]
fn a_dropped_request_never_settles() {
    let mut pump = Pump::new();
    pump.faults_mut().drop_prob = ms(1.0);
    pump.faults_mut().apply_to = FaultDir::Requests;

    let id = pump_call(&mut pump, "send", r#"["hi"]"#).unwrap();
    pump_run(&mut pump);

    assert_eq!(pump.result(id), None);
    assert_eq!(pump.tap().frames.len(), 1);
    assert_eq!(pump.tap().frames[0].fault.as_deref(), Some("dropped"));
}

#[test]
fn a_corrupted_response_settles_as_undecodable() {
    let mut pump = Pump::new();
    pump.faults_mut().corrupt_prob = ms(1.0);
    pump.faults_mut().apply_to = FaultDir::Responses;

    let id = pump_call(&mut pump, "send", r#"["hi"]"#).unwrap();
    pump_run(&mut pump);

    match pump.result(id) {
        Some(PumpResult::Undecodable(_)) => {}
        other => panic!("expected Undecodable, got {other:?}"),
    }
    assert!(pump.tap().frames.iter().any(|f| f.fault.as_deref() == Some("corrupted")));
}

#[test]
fn step_fires_one_event_at_a_time() {
    let mut pump = Pump::new();
    pump.set_latency(ms(10.0));
    let id = pump_call(&mut pump, "send", r#"["hi"]"#).unwrap();

    assert_eq!(pump.pending(), 1, "request delivery queued");
    assert!(pump_step(&mut pump)); // deliver request → server replies → response queued
    assert_eq!(pump.pending(), 1);
    assert_eq!(pump.result(id), None);

    assert!(pump_step(&mut pump)); // deliver response → call settles
    assert_eq!(pump.result(id), Some(&PumpResult::Success(hello())));
    assert!(!pump_step(&mut pump), "queue drained");
}

#[test]
fn advance_fires_the_whole_chain_within_the_window() {
    let mut pump = Pump::new();
    pump.set_latency(ms(30.0));
    let id = pump_call(&mut pump, "send", r#"["hi"]"#).unwrap();

    pump_advance(&mut pump, 10.0); // nothing due yet (first delivery at t=30)
    assert_eq!(pump.result(id), None);
    assert_eq!(pump.now(), ms(10.0));

    pump_advance(&mut pump, 1000.0); // request lands at 30, response at 60: both inside
    assert_eq!(pump.result(id), Some(&PumpResult::Success(hello())));
    assert_eq!(pump.now(), ms(1010.0));
}

#[test]
fn pump_reseeding_keeps_a_run_reproducible() {
    let frames_for = |seed: u32| {
        let mut pump = Pump::new();
        pump.set_seed(seed);
        pump.faults_mut().corrupt_prob = ms(0.5);
        for _ in 0..8 {
            let _ = pump_call(&mut pump, "send", r#"["hi"]"#);
            pump_run(&mut pump);
        }
        pump.tap().frames.iter().map(|f| (f.bytes.clone(), f.fault.clone())).collect::<Vec<_>>()
    };
    assert_eq!(frames_for(7), frames_for(7));
    assert_ne!(frames_for(7), frames_for(8));
}

#[test]
fn a_delay_behaviour_defers_the_reply_in_virtual_time() {
    let mut pump = pump_with(BehaviorKind::Delay, r#"{"ms":500,"value":{"body":"HELLO","seq":1}}"#);
    pump.set_latency(ms(20.0));

    let id = pump_call(&mut pump, "send", r#"["hi"]"#).unwrap();

    pump_advance(&mut pump, 100.0); // request lands at 20, delay timer set for 520
    assert_eq!(pump.result(id), None);

    pump_advance(&mut pump, 1000.0);
    assert_eq!(pump.result(id), Some(&PumpResult::Success(hello())));
    // request delivered (20) + behaviour delay (500) + response delivered (20)
    assert_eq!(pump.tap().frames[1].at, ms(520.0));
    assert_eq!(pump.now(), ms(1100.0));
}

#[test]
fn a_drop_behaviour_hangs_the_call() {
    let mut pump = pump_with(BehaviorKind::Drop, "{}");

    let id = pump_call(&mut pump, "send", r#"["hi"]"#).unwrap();
    pump_run(&mut pump);

    assert_eq!(pump.result(id), None, "no reply ever comes");
    assert_eq!(pump.tap().frames.len(), 1, "only the request was sent");
}

#[test]
fn a_raise_behaviour_settles_the_call_as_an_error() {
    let mut pump = pump_with(BehaviorKind::Raise, r#"{"ordinal":3,"data":{"why":"nope"}}"#);

    let id = pump_call(&mut pump, "send", r#"["hi"]"#).unwrap();
    pump_run(&mut pump);

    assert_eq!(pump.result(id), Some(&PumpResult::Failure { ordinal: 3, body: json(r#"{"why":"nope"}"#) }));
}

#[test]
fn increment_bumps_the_reply_across_calls() {
    let mut pump = pump_with(BehaviorKind::Increment, r#"{"base":{"body":"","seq":0},"path":"seq"}"#);

    let a = pump_call(&mut pump, "send", r#"["hi"]"#).unwrap();
    pump_run(&mut pump);
    let b = pump_call(&mut pump, "send", r#"["hi"]"#).unwrap();
    pump_run(&mut pump);

    assert_eq!(pump.result(a), Some(&PumpResult::Success(json(r#"{"body":"","seq":1}"#))));
    assert_eq!(pump.result(b), Some(&PumpResult::Success(json(r#"{"body":"","seq":2}"#))));
}

#[test]
fn a_forward_behaviour_without_an_engine_errors() {
    let mut pump = pump_with(BehaviorKind::Forward, r#"{"viaConnectionId":"c2","targetFn":"send"}"#);

    let id = pump_call(&mut pump, "send", r#"["hi"]"#).unwrap();
    pump_run(&mut pump);

    match pump.result(id) {
        Some(PumpResult::Failure { ordinal: 0, body }) => {
            assert!(body["error"].as_str().unwrap().contains("engine"));
        }
        other => panic!("expected an engine error, got {other:?}"),
    }
}

// ── the inspector ───────────────────────────────────────────────────────

fn names() -> Vec<NamedHash> {
    ["json", "msgpack", DATAGRAM, "jsonrpc-2.0"]
        .iter()
        .map(|n| NamedHash { hash: name_hash(n), name: n.to_string() })
        .collect()
}

fn detail(engine: &Engine, conn: &str, seq: u32) -> FrameDetail {
    let info = engine.wire_info(conn).unwrap();
    let frame = engine.tap(conn).unwrap().frames.iter().find(|f| f.seq == seq).unwrap();
    describe_frame(
        frame,
        &DecodeCtx {
            client_name: info.client_name,
            server_name: info.server_name,
            framing: info.framing,
            codec: info.codec,
            fn_names: &info.fn_names,
            datagram: DATAGRAM,
            names: &names(),
        },
        read_handshake(&frame.bytes),
        read_request(&frame.bytes),
        read_reply(&frame.bytes),
    )
}

#[test]
fn decodes_the_handshake_request_and_response_of_a_round_trip() {
    let mut e = chat_engine();
    call(&mut e, CONN, "send", r#"["hi"]"#).unwrap();
    run(&mut e);

    // frames: 1,2 handshake · 3 request · 4 response
    let hs = detail(&e, CONN, 1);
    assert_eq!(hs.kind, "handshake");
    let h = hs.handshake.unwrap();
    assert_eq!(h.wire_format, "json");
    assert_eq!(h.framing, DATAGRAM);
    assert_eq!(h.ir_hash, "0x9f2b1c7d4e6a8035");

    let req = detail(&e, CONN, 3);
    assert_eq!(req.kind, "request");
    assert_eq!(req.function.as_deref(), Some("send"));
    assert_eq!(req.params, Some(json(r#"["hi"]"#)));
    assert_eq!(req.request_id.as_deref(), Some("1"));

    let res = detail(&e, CONN, 4);
    assert_eq!(res.kind, "response");
    assert_eq!(res.request_id.as_deref(), Some("1"));
    assert_eq!(res.ok, Some(hello()));
    assert!(res.err.is_none());
}

#[test]
fn a_corrupted_response_body_reads_as_undecodable() {
    let mut session = chat_session();
    session.connections[0].faults.corrupt_prob = ms(1.0);
    session.connections[0].faults.apply_to = FaultDir::Responses;
    session.call_timeout_ms = ms(0.0);
    let mut e = wired(&session);
    call(&mut e, CONN, "send", r#"["hi"]"#).unwrap();
    run(&mut e);

    let res = detail(&e, CONN, 4);
    assert_eq!(res.kind, "response");
    assert_eq!(res.framing, "undecodable");
    assert_eq!(res.ok, Some(json(r#""<24 undecodable bytes>""#)));
}

#[test]
fn a_raised_error_decodes_its_ordinal_and_body() {
    let mut session = chat_session();
    let server = server_of(&session);
    session
        .set_behavior(&server, "send", BehaviorKind::Raise, Some(json(r#"{"ordinal":4,"data":{"why":"no"}}"#)))
        .unwrap();
    let mut e = wired(&session);
    call(&mut e, CONN, "send", r#"["hi"]"#).unwrap();
    run(&mut e);

    let res = detail(&e, CONN, 4);
    let err = res.err.unwrap();
    assert_eq!(err.ordinal, 4);
    assert_eq!(err.body, json(r#"{"why":"no"}"#));
}

#[test]
fn frames_that_nothing_reads_are_unknown() {
    let none: Vec<&str> = vec![];
    let ctx = |names: &'static Vec<NamedHash>, fns: &'static Vec<&'static str>| DecodeCtx {
        client_name: "a",
        server_name: "b",
        framing: WireFraming::Datagram,
        codec: Codec::Json,
        fn_names: fns,
        datagram: DATAGRAM,
        names,
    };
    let names = Box::leak(Box::new(names()));
    let fns = Box::leak(Box::new(none));
    let frame = |from: &str, bytes: &[u8]| Frame {
        seq: 1,
        from: from.to_string(),
        to: "x".to_string(),
        bytes: bytes.to_vec(),
        at: ms(0.0),
        kind: FrameKind::Request,
        fault: None,
    };
    let ctx = ctx(names, fns);
    assert_eq!(describe_frame(&frame("a", &[1]), &ctx, None, None, None).kind, "unknown");
    assert_eq!(describe_frame(&frame("b", &[1]), &ctx, None, None, None).kind, "unknown");

    // an ordinal that the protocol does not have, and no params
    let bytes = frame_request(7, 3, b"");
    let d = describe_frame(&frame("a", &bytes), &ctx, None, read_request(&bytes), None);
    assert_eq!(d.function.as_deref(), Some("#7"));
    assert_eq!(d.params, Some(Value::Null));

    // names that nobody knows
    let fields = HandshakeFields { ir_hash: 10, wire_format: 255, framing: 0, capabilities: 2 };
    let hs = ctx.describe_handshake(fields).handshake.unwrap();
    assert_eq!(hs.ir_hash, "0x000000000000000a");
    assert_eq!(hs.wire_format, "0xff");
    assert_eq!(hs.framing, "0x0");
    assert_eq!(hs.caps, 2);
}

// ── links ───────────────────────────────────────────────────────────────

fn peopled_session() -> Session {
    let mut s = Session::empty(chat::shape());
    let srv = s.add_instance(instance(Role::Server), Placement::default());
    let cli = s.add_instance(instance(Role::Client), Placement::default());
    let c = s.add_connection(&cli, &srv).unwrap();
    s.set_behavior(&srv, "send", BehaviorKind::Echo, None).unwrap();
    s.connections.iter_mut().find(|x| x.id == c).unwrap().faults.drop_prob = ms(0.5);
    s.latency_ms = ms(25.0);
    s.seed = 99;
    s
}

const ENVELOPE: &[u8] = br#"{"v":1,"session":{"nodes":[],"instances":[],"connections":[]}}"#;

#[test]
fn round_trips_a_populated_session() {
    let encoded = encode_session(ENVELOPE);
    assert!(!encoded.contains(['+', '/', '=']), "payload is base64url, unpadded");
    assert_eq!(link_bytes(&encoded).as_deref(), Some(ENVELOPE));
    assert_eq!(link_bytes(&format!("  {encoded}\n")).as_deref(), Some(ENVELOPE), "white space aside");

    let original = peopled_session();
    let back = decode_session(VERSION, peopled_session(), chat::shape()).expect("decodes");
    assert_eq!(back.instances, original.instances);
    assert_eq!(back.connections, original.connections);
    assert_eq!(back.nodes, original.nodes);
    assert_eq!((back.latency_ms, back.seed), (ms(25.0), 99));
    // the shape is put in again, never carried in the link
    assert_eq!(back.shape, chat::shape());
}

#[test]
fn a_decoded_session_keeps_adding_ids_without_collision() {
    let mut loaded = peopled_session();
    loaded.next_instance = 0;
    loaded.next_node = 0;
    loaded.next_conn = 0;
    let mut back = decode_session(VERSION, loaded, chat::shape()).unwrap();
    // peopled_session used i1, i2: the next must be i3
    let next = back.add_instance(instance(Role::Client), Placement::default());
    assert_eq!(next, "i3");
}

#[test]
fn rejects_garbage_wrong_version_and_non_base64() {
    assert!(link_bytes("not base64!!!").is_none());
    assert!(link_bytes("A").is_none());
    assert!(link_bytes("AB=C").is_none());
    assert!(link_bytes("AB").is_none(), "bits that no byte takes up");
    assert!(decode_session(2, peopled_session(), chat::shape()).is_none());
}

#[test]
fn base64url_knows_its_alphabet_and_its_padding() {
    assert_eq!(encode_session(&[0xfb, 0xff, 0xfe]), "-__-");
    assert_eq!(encode_session(&[0xff]), "_w");
    assert_eq!(encode_session(b"ab"), "YWI");
    assert_eq!(encode_session(b""), "");
    for text in ["_w", "_w=", "_w=="] {
        assert_eq!(link_bytes(text), Some(vec![0xff]), "{text}");
    }
    assert_eq!(link_bytes("_w==="), None);
    assert_eq!(link_bytes(""), Some(vec![]));
}

#[test]
fn session_from_hash_finds_the_payload() {
    assert_eq!(session_from_hash("#s=abc123"), Some("abc123".to_string()));
    assert_eq!(session_from_hash("#foo=1&s=payload_-9&t=2"), Some("payload_-9".to_string()));
    assert_eq!(session_from_hash("s=bare"), Some("bare".to_string()));
    assert_eq!(session_from_hash("#no-session-here"), None);
    assert_eq!(session_from_hash(""), None);
}

#[test]
fn session_from_hash_unescapes_percent_encoding() {
    // `-` is %2D; a fragment that got fully URL-encoded still resolves
    assert_eq!(session_from_hash("#s=ab%2Dcd"), Some("ab-cd".to_string()));
}

#[test]
fn hash_payload_round_trips_end_to_end() {
    let encoded = encode_session(ENVELOPE);
    let url_fragment = format!("#s={encoded}&other=stuff");
    let extracted = session_from_hash(&url_fragment).unwrap();
    assert_eq!(extracted, encoded);
    assert_eq!(link_bytes(&extracted).as_deref(), Some(ENVELOPE));
}

#[test]
fn the_hash_mark_comes_before_the_ampersand_and_the_question_mark() {
    assert_eq!(session_from_hash("?s=q&s=a#s=h"), Some("h".to_string()));
    assert_eq!(session_from_hash("?s=q&s=a"), Some("a".to_string()));
    assert_eq!(session_from_hash("?s=q"), Some("q".to_string()));
}

#[test]
fn escapes_that_are_none_stay_as_they_are() {
    assert_eq!(percent_decode("100%"), "100%");
    assert_eq!(percent_decode("%zz%2"), "%zz%2");
    assert_eq!(percent_decode("%41%0f%C3%A9"), "A\u{f}é");
    assert_eq!(percent_decode("%+f%+5%5+%++"), "\u{f}\u{5}%5+%++", "a sign and a digit count too");
    assert_eq!(percent_decode("%ff"), "\u{fffd}");
    assert_eq!(percent_decode("%é"), "%é");
    assert!(hash_is_readable("#s=%41"));
    assert!(hash_is_readable("#s=%é"));
    assert!(!hash_is_readable("#s=%a€"), "cuts a character in two");
    assert!(hash_is_readable("#x=%a€"), "not in the payload");
}

// ── record & replay ─────────────────────────────────────────────────────

fn a_call(params: &str) -> Input {
    Input::Call { conn_id: CONN.into(), function: "send".into(), params: json(params) }
}

#[test]
fn recorder_snapshots_at_start_and_stamps_relative_times() {
    let mut r = Recorder::new();
    assert!(!r.recording);

    r.capture(Input::Fault { conn_id: "c1".into(), faults: no_faults() }, ms(5.0));
    assert_eq!(r.count(), 0, "ignored before start");

    r.start(ENVELOPE, ms(100.0));
    assert!(r.recording);

    r.capture(a_call("null"), ms(150.0));
    r.capture(a_call("null"), ms(90.0));

    let rec = r.stop();
    assert!(!r.recording);
    assert_eq!(rec.v, 1);
    assert_eq!(rec.events.len(), 2);
    assert_eq!(rec.events[0].at, ms(50.0), "150 − 100");
    assert_eq!(rec.events[1].at, ms(0.0), "clamped, never negative");

    // the snapshot is a real session link
    assert_eq!(link_bytes(&rec.session).as_deref(), Some(ENVELOPE));
}

#[test]
fn a_second_start_clears_the_first_run() {
    let mut r = Recorder::new();
    r.start(ENVELOPE, ms(0.0));
    r.capture(a_call("null"), ms(1.0));
    r.start(ENVELOPE, ms(0.0));
    assert_eq!(r.count(), 0);
}

fn call_at(at: f64, params: &str) -> InputEvent {
    InputEvent { input: a_call(params), at: ms(at) }
}

/// A recording of two `send` calls on the chat session.
fn two_call_recording() -> Recording {
    let mut r = Recorder::new();
    r.start(ENVELOPE, ms(0.0));
    Recording {
        v: 1,
        session: r.stop().session,
        events: vec![call_at(0.0, r#"["one"]"#), call_at(200.0, r#"["two"]"#)],
    }
}

/// A replay of `rec`, whose link carries `decoded`.
fn replay(rec: &Recording, decoded: Option<Session>) -> Result<Replay, String> {
    let session = replay_session(rec, decoded)?;
    let frames = greetings(&session);
    let mut replay = Replay::open(rec, session, &frames);
    loop {
        let step = replay.advance(rec);
        if !carry_out(&mut replay.engine, step) {
            return Ok(replay);
        }
    }
}

#[test]
fn replay_is_deterministic() {
    let rec = two_call_recording();
    let frames = |r: &Recording| {
        let engine = replay(r, Some(chat_session())).unwrap().engine;
        engine.tap(CONN).unwrap().frames.iter().map(|f| (f.bytes.clone(), f.at, f.fault.clone())).collect::<Vec<_>>()
    };
    assert_eq!(frames(&rec), frames(&rec));
}

#[test]
fn replay_runs_the_recorded_calls() {
    let Replay { session, engine, .. } = replay(&two_call_recording(), Some(chat_session())).unwrap();
    let payload: Vec<Frame> = engine
        .tap(CONN)
        .unwrap()
        .frames
        .iter()
        .filter(|f| f.kind == FrameKind::Response)
        .cloned()
        .collect();
    assert_eq!(payload.len(), 2, "both calls got a reply");
    assert!(payload.iter().all(|f| f.from == "chat-1"));
    assert_eq!(session.clock_mode, ClockMode::Stepped);
    assert_eq!(engine.now(), ms(5200.0));
}

#[test]
fn replay_applies_a_recorded_behaviour_edit() {
    let mut rec = two_call_recording();
    // between the two calls, switch `send` to echo
    rec.events.insert(
        1,
        InputEvent {
            input: Input::Behavior {
                instance_id: server_of(&chat_session()),
                function: "send".into(),
                setting: BehaviorSetting { kind: BehaviorKind::Echo, config: json("{}") },
            },
            at: ms(100.0),
        },
    );

    let Replay { session, engine, .. } = replay(&rec, Some(chat_session())).unwrap();
    let bodies: Vec<Value> = engine
        .tap(CONN)
        .unwrap()
        .frames
        .iter()
        .filter(|f| f.kind == FrameKind::Response)
        .map(|f| {
            // datagram response: [request_id u64][tag u8][json body]
            serde_json::from_slice(&f.bytes[9..]).unwrap()
        })
        .collect();
    assert_eq!(bodies[0], hello(), "first call: reply");
    assert_eq!(bodies[1], json(r#"["two"]"#), "second call: echoed after the edit");
    let server = session.instance(&server_of(&session)).unwrap();
    assert_eq!(server.behaviors.get("send").unwrap().kind, BehaviorKind::Echo);
}

#[test]
fn replay_applies_a_recorded_fault_edit() {
    let mut rec = two_call_recording();
    let mut cut = no_faults();
    cut.drop_prob = ms(1.0);
    cut.apply_to = FaultDir::Responses;
    rec.events.insert(1, InputEvent { input: Input::Fault { conn_id: CONN.into(), faults: cut }, at: ms(100.0) });

    let Replay { session, engine, .. } = replay(&rec, Some(chat_session())).unwrap();
    let responses = engine
        .tap(CONN)
        .unwrap()
        .frames
        .iter()
        .filter(|f| f.kind == FrameKind::Response && f.fault.is_none())
        .count();
    assert_eq!(responses, 1, "only the pre-fault reply got through clean");
    assert_eq!(session.connections[0].faults, cut);
}

#[test]
fn replay_rejects_a_bad_session_snapshot() {
    let rec = Recording { v: 1, session: "not a session".into(), events: vec![] };
    assert!(link_bytes(&rec.session).is_none());
    assert_eq!(
        replay(&rec, None).map(|_| ()).unwrap_err(),
        "replay: the recording's session did not decode"
    );

    let wrong_version = Recording { v: 2, session: two_call_recording().session, events: vec![] };
    assert_eq!(
        replay(&wrong_version, Some(chat_session())).map(|_| ()).unwrap_err(),
        "replay: unknown recording version 2"
    );
}

#[test]
fn a_finished_replay_stands_after_its_latest_input() {
    for (times, end) in [
        (vec![], 5000.0),
        (vec![0.0], 5000.0),
        (vec![50.0, 250.0], 5250.0),
        (vec![400.0, 100.0], 5400.0),
        (vec![-7.0], 5000.0),
    ] {
        let mut rec = two_call_recording();
        rec.events = times.into_iter().map(|at| call_at(at, r#"["hi"]"#)).collect();
        let one = replay(&rec, Some(chat_session())).unwrap();
        let other = replay(&rec, Some(chat_session())).unwrap();
        assert_eq!(one.engine.now(), ms(end));
        assert_eq!(one.engine.tap(CONN).unwrap().frames, other.engine.tap(CONN).unwrap().frames);
    }
}

#[test]
fn an_input_goes_before_what_is_due_after_it() {
    // the first request arrives at 1 µs; the second is made at 0.6 µs, before that
    let mut session = chat_session();
    session.latency_ms = ms(0.001);
    let mut rec = two_call_recording();
    rec.events = vec![call_at(0.0, r#"["one"]"#), call_at(0.0006, r#"["two"]"#)];
    let done = replay(&rec, Some(session)).unwrap();
    let kinds: Vec<FrameKind> = payload_frames(&done.engine, CONN).iter().map(|f| f.kind).collect();
    assert_eq!(kinds, [FrameKind::Request, FrameKind::Request, FrameKind::Response, FrameKind::Response]);
}

#[test]
fn a_live_connection_needs_nothing_to_stay() {
    let mut session = chat_session();
    let mut e = wired(&session);
    let srv = server_of(&session);
    session.instances.retain(|i| i.id != srv);
    assert!(!session.is_wired());
    assert!(e.syncs(&session), "its wire is open already");
    sync(&mut e, &session);
    assert!(e.tap(CONN).is_some());
    assert!(!Engine::new().syncs(&session), "it could not be opened");
}

#[test]
fn a_replay_never_goes_back() {
    let rec = Recording {
        v: 1,
        session: String::new(),
        events: vec![call_at(0.005, "null"), call_at(0.009, "null"), call_at(0.002, "null"), call_at(0.03, "null")],
    };
    let done = replay(&rec, Some(chat_session())).unwrap();
    let sent: Vec<Double> = done
        .engine
        .tap(CONN)
        .unwrap()
        .frames
        .iter()
        .filter(|f| f.kind == FrameKind::Request)
        .map(|f| f.at)
        .collect();
    assert_eq!(sent, [ms(0.005), ms(0.009), ms(0.009), ms(0.03)]);
    assert_eq!((done.place, done.phase), (4, Phase::Over));
    assert_eq!(done.engine.now(), ms(5000.03));
}

// ── the surface ─────────────────────────────────────────────────────────

fn sim() -> Sim {
    Sim::new(Session::empty(chat::shape()), &vec![])
}

fn resync(s: &mut Sim) {
    let frames = greetings(&s.session);
    s.resync(&frames);
}

fn reopen(s: &mut Sim) {
    let frames = greetings(&s.session);
    s.reopen(&frames);
}

/// A sim with a server, a client, and the connection between them.
fn peopled_sim() -> (Sim, String, String) {
    let mut s = sim();
    let srv = s.add_instance(instance(Role::Server), Placement::default());
    let cli = s.add_instance(instance(Role::Client), Placement::default());
    let conn = s.add_connection(&cli, &srv).unwrap();
    resync(&mut s);
    (s, srv, conn)
}

#[test]
fn build_a_topology_and_run_a_call() {
    let (mut s, _, conn) = peopled_sim();

    let id = call(&mut s.engine, &conn, "send", r#"["hi"]"#).unwrap();
    assert_eq!(s.result(id), None);
    run(&mut s.engine);

    let out = json(&s.result(id).unwrap());
    assert_eq!(out["status"], "ok");
    // default seeded behaviour is reply-with-zero-value
    assert_eq!(out["value"], json(r#"{"body":"","seq":0}"#));

    assert_eq!(s.engine.tap(&conn).unwrap().frames.len(), 4, "2 handshake + request + response");
    assert_eq!(s.frame(&conn, 3).unwrap().kind, FrameKind::Request);
    assert!(s.frame(&conn, 5).is_none());
    assert!(s.frame("c9", 1).is_none());
}

#[test]
fn set_behavior_swaps_the_live_wire() {
    let (mut s, srv, conn) = peopled_sim();

    s.set_behavior(&srv, "send", "echo", "{}").unwrap();
    let id = call(&mut s.engine, &conn, "send", r#"["echo me"]"#).unwrap();
    run(&mut s.engine);

    assert_eq!(s.result_value(id).unwrap()["value"], json(r#"["echo me"]"#));

    assert_eq!(s.set_behavior_with(&srv, "send", "shout", Err("bad".into())).unwrap_err(), "unknown behaviour shout");
    assert_eq!(s.set_behavior_with(&srv, "send", "echo", Err("bad".into())).unwrap_err(), "bad");
    assert_eq!(
        s.set_behavior(&srv, "nope", "echo", "{}").unwrap_err(),
        "setBehavior: no function nope"
    );
    assert_eq!(
        s.set_behavior("i9", "send", "echo", "{}").unwrap_err(),
        "setBehavior: not a server instance"
    );
}

#[test]
fn a_scripted_behaviour_runs_through_the_facade() {
    let (mut s, srv, conn) = peopled_sim();

    s.set_behavior(&srv, "send", "script", r##"{"source":"#{ echoed: params[0] }"}"##).unwrap();
    let id = call(&mut s.engine, &conn, "send", r#"["scripted!"]"#).unwrap();
    run(&mut s.engine);

    let out = json(&s.result(id).unwrap());
    assert_eq!(out["value"], json(r#"{"echoed":"scripted!"}"#));
}

#[test]
fn a_script_that_comes_to_nothing_fails_the_call() {
    let (mut s, srv, conn) = peopled_sim();
    s.set_behavior(&srv, "send", "script", r#"{"source":"nope"}"#).unwrap();
    let id = call(&mut s.engine, &conn, "send", r#"["hi"]"#).unwrap();
    run(&mut s.engine);
    assert_eq!(
        s.engine.result(id),
        Some(&CallResult::Failure { ordinal: 0, body: json(r#"{"error":"cannot run nope"}"#) })
    );

    let mut pump = pump_with(BehaviorKind::Script, r##"{"source":"#{ echoed: params[0] }"}"##);
    let id = pump_call(&mut pump, "send", r#"["hi"]"#).unwrap();
    pump_run(&mut pump);
    assert_eq!(pump.result(id), Some(&PumpResult::Success(json(r#"{"echoed":"hi"}"#))));
}

#[test]
fn describe_frame_reads_a_request_back() {
    let (mut s, _, conn) = peopled_sim();
    call(&mut s.engine, &conn, "send", r#"["hi"]"#).unwrap();
    run(&mut s.engine);

    let req = detail(&s.engine, &conn, 3);
    assert_eq!(req.kind, "request");
    assert_eq!(req.function.as_deref(), Some("send"));
    assert_eq!(req.params, Some(json(r#"["hi"]"#)));
}

#[test]
fn record_then_load_replay_reproduces_the_run() {
    let session = chat_session();
    let frames = greetings(&session);
    let mut s = Sim::new(session, &frames);
    s.set_clock_mode("stepped");
    assert_eq!(s.session.clock_mode, ClockMode::Stepped);
    s.record_start(ENVELOPE);
    match s.call(CONN, "send", r#"["one"]"#).unwrap() {
        Called::Frame(job) => assert!(send(&mut s.engine, job).is_none()),
        Called::Sent(_) => panic!("a datagram wire asks for its frame"),
    }
    run(&mut s.engine);
    assert_eq!(s.recording_count(), 1);
    assert!(s.call("c9", "send", "[]").is_err());
    assert_eq!(s.recording_count(), 1, "a refused call is not recorded");
    let recording = s.record_stop();
    assert!(!s.recording());

    let fresh = Sim::replayed(replay(&recording, Some(chat_session())).unwrap());
    assert!(
        fresh.engine.tap(CONN).unwrap().frames.iter().any(|f| f.kind == FrameKind::Response),
        "the replayed call produced a reply"
    );
    assert_eq!(fresh.recording_count(), 0);
}

#[test]
fn each_edit_needs_its_wires() {
    for edit in [SimEdit::Shape, SimEdit::Latency, SimEdit::CallTimeout, SimEdit::Transport] {
        assert_eq!(edit.rewire(), Rewire::Reopen);
    }
    for edit in
        [SimEdit::AddInstance, SimEdit::RemoveInstance, SimEdit::AddConnection, SimEdit::RemoveConnection]
    {
        assert_eq!(edit.rewire(), Rewire::Resync);
    }
    for edit in [
        SimEdit::RenameNode,
        SimEdit::MoveNode,
        SimEdit::Seed,
        SimEdit::ClockMode,
        SimEdit::Behavior,
        SimEdit::Faults,
    ] {
        assert_eq!(edit.rewire(), Rewire::Nothing);
    }
    let (mut s, _, conn) = peopled_sim();
    let old_frames = s.engine.tap(&conn).unwrap().frames.len();
    s.set_latency(ms(25.0));
    let frames = greetings(&s.session);
    s.follow(SimEdit::Seed, &frames);
    assert_eq!(s.engine.tap(&conn).unwrap().frames.len(), old_frames);
    s.follow(SimEdit::Latency, &frames);
    call(&mut s.engine, &conn, "send", r#"["hi"]"#).unwrap();
    run(&mut s.engine);
    assert_eq!(s.engine.now(), ms(50.0), "the new latency is on the wire");
}

#[test]
fn edits_are_recorded() {
    let (mut s, srv, conn) = peopled_sim();
    s.record_start(ENVELOPE);
    s.set_behavior(&srv, "send", "echo", "{}").unwrap();
    let mut faults = no_faults();
    faults.partition = true;
    s.set_faults(&conn, faults);
    s.set_faults("c9", faults);
    let rec = s.record_stop();
    assert_eq!(rec.events.len(), 2, "an unknown connection has nothing to record");
    assert_eq!(
        rec.events[0].input,
        Input::Behavior {
            instance_id: srv,
            function: "send".into(),
            setting: BehaviorSetting { kind: BehaviorKind::Echo, config: json("{}") },
        }
    );
    assert_eq!(rec.events[1].input, Input::Fault { conn_id: conn.clone(), faults });
    assert_eq!(s.session.connection(&conn).unwrap().faults, faults);
}

#[test]
fn set_transport_switches_a_live_connection() {
    let session = chat_session();
    let frames = greetings(&session);
    let mut s = Sim::new(session, &frames);

    s.set_transport(CONN, "jsonrpc", "json").unwrap();
    reopen(&mut s);
    let id = call(&mut s.engine, CONN, "send", r#"["hi"]"#).unwrap();
    run(&mut s.engine);
    assert_eq!(s.result_value(id).unwrap()["value"], hello());
    // the request frame is now a json-rpc text frame
    assert_eq!(detail(&s.engine, CONN, 3).framing, "jsonrpc-2.0");
    assert_eq!(detail(&s.engine, CONN, 3).function.as_deref(), Some("send"));
    assert_eq!(detail(&s.engine, CONN, 4).ok, Some(hello()));

    // the parse succeeds but the combo is invalid → the connection is refused
    s.set_transport(CONN, "jsonrpc", "msgpack").unwrap();
    reopen(&mut s);
    assert_eq!(s.engine.connection_error(CONN), Some("json-rpc framing requires the json codec"));

    assert_eq!(s.set_transport(CONN, "smoke", "json").unwrap_err(), "unknown framing smoke");
    assert_eq!(s.set_transport(CONN, "auto", "xml").unwrap_err(), "unknown wire format xml");
}

#[test]
fn behavior_catalog_lists_kinds_and_gates_them() {
    let s = sim();

    let catalog = json(&s.behavior_catalog("chat", "Chat", "send"));
    let catalog = catalog.as_array().unwrap();
    assert_eq!(catalog.len(), 8);

    let by_kind = |k: &str| catalog.iter().find(|e| e["kind"] == k).unwrap()["applies"].as_bool().unwrap();
    assert!(by_kind("reply"));
    assert!(by_kind("increment")); // send returns a struct ref
    assert!(!by_kind("raise")); // send has no throws
    assert!(by_kind("script"));

    assert_eq!(s.behavior_catalog("chat", "Chat", "nope"), "[]");
    assert_eq!(s.default_behavior_kind("chat", "Chat", "send"), "reply");
    assert_eq!(s.default_behavior_kind("chat", "Chat", "nope"), "reply");
}

#[test]
fn every_outcome_has_its_status() {
    let (mut s, srv, conn) = peopled_sim();
    s.set_call_timeout(ms(50.0));
    reopen(&mut s);
    s.set_behavior(&srv, "send", "raise", r#"{"ordinal":2,"data":"no"}"#).unwrap();
    let raised = call(&mut s.engine, &conn, "send", "[]").unwrap();
    run(&mut s.engine);
    assert_eq!(s.result_value(raised), Some(json(r#"{"status":"err","ordinal":2,"body":"no"}"#)));

    s.set_behavior(&srv, "send", "drop", "{}").unwrap();
    let hung = call(&mut s.engine, &conn, "send", "[]").unwrap();
    run(&mut s.engine);
    assert_eq!(s.result_value(hung), Some(json(r#"{"status":"timeout"}"#)));

    s.set_behavior(&srv, "send", "reply", r#"{"value":"HELLO"}"#).unwrap();
    reopen(&mut s);
    let mut faults = no_faults();
    faults.corrupt_prob = ms(1.0);
    faults.apply_to = FaultDir::Responses;
    s.set_faults(&conn, faults);
    let garbled = call(&mut s.engine, &conn, "send", "[]").unwrap();
    run(&mut s.engine);
    assert_eq!(s.result_value(garbled).unwrap()["status"], "undecodable");
}

#[test]
fn the_knobs_reach_the_session_and_the_wires() {
    let (mut s, _, conn) = peopled_sim();
    s.set_latency(ms(-3.0));
    assert_eq!(s.session.latency_ms, ms(0.0));
    s.set_latency(ms(30.0));
    reopen(&mut s);
    call(&mut s.engine, &conn, "send", "[]").unwrap();
    run(&mut s.engine);
    assert_eq!(s.engine.now(), ms(60.0));
    s.set_seed(9);
    assert_eq!(s.session.seed, 9);
    s.set_clock_mode("whatever");
    assert_eq!(s.session.clock_mode, ClockMode::Real);
    let node = s.session.nodes[0].id.clone();
    s.rename_node(&node, "Gateway");
    s.move_node(&node, ms(2.5), ms(-1.0));
    let moved = s.session.node(&node).unwrap();
    assert_eq!((moved.label.as_str(), moved.x, moved.y), ("Gateway", ms(3.0), ms(0.0)));

    s.remove_connection(&conn);
    resync(&mut s);
    assert!(s.engine.tap(&conn).is_none());
    s.remove_instance("i1");
    assert!(s.session.instance("i1").is_none());
    s.set_shape(ProjectShape { schemas: vec![] });
    reopen(&mut s);
    assert!(s.session.instances.is_empty());
}

#[test]
fn texts_are_read_and_written() {
    let (mut s, srv, conn) = peopled_sim();
    // a configuration that is no JSON is refused with the parser's own words
    let why = serde_json::from_str::<Value>("{oops").unwrap_err().to_string();
    assert_eq!(s.set_behavior(&srv, "send", "echo", "{oops").unwrap_err(), why);
    assert_eq!(s.set_behavior(&srv, "send", "shout", "{oops").unwrap_err(), "unknown behaviour shout");
    s.set_behavior(&srv, "send", "reply", r#"{"value": {"b": 1, "a": "x"}}"#).unwrap();

    let before = s.engine.next_request_id;
    assert_eq!(s.call(&conn, "send", "{oops").map(|_| ()).unwrap_err(), format!("bad params json: {why}"));
    assert_eq!(s.engine.next_request_id, before, "no id is taken");
    assert_eq!(read_params("{oops").unwrap_err(), format!("bad params json: {why}"));
    assert_eq!(read_params(r#" ["hi"] "#), Ok(json(r#"["hi"]"#)));
    assert_eq!(s.call("c9", "send", "[]").map(|_| ()).unwrap_err(), "Transport");
    assert_eq!(s.call(&conn, "nope", "[]").map(|_| ()).unwrap_err(), "UnknownCall");
    assert_eq!(RuntimeError::Timeout.name(), "Timeout");

    let id = match s.call(&conn, "send", r#"["hi"]"#).unwrap() {
        Called::Frame(job) => {
            let id = job.request_id;
            assert!(send(&mut s.engine, job).is_none());
            id
        }
        Called::Sent(_) => panic!("a datagram wire asks for its frame"),
    };
    assert_eq!(s.result(id), None);
    run(&mut s.engine);
    assert_eq!(s.result(id).unwrap(), r#"{"status":"ok","value":{"a":"x","b":1}}"#);
}

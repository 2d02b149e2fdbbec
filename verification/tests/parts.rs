//! The parts of the simulation, one at a time.

use comline_simulator::behavior::{
    default_kind_for, Behavior, BehaviorCtx, BehaviorKind, BehaviorStep, Echo, Handler, ReplyWith, SimOutcome,
};
use comline_simulator::clock::{number_after, Clock};
use comline_simulator::contract::{Envelope, RequestCall, RuntimeError};
use comline_simulator::dict::{rank, Dict, Rank};
use comline_simulator::double::Double;
use comline_simulator::faults::{
    corrupt_bytes, fault_applies_to, faults_active, no_faults, Direction, FaultDir, FaultSpec,
};
use comline_simulator::format::Codec;
use comline_simulator::frame::{classify, FrameKind, Tap, HANDSHAKE_LEN};
use comline_simulator::framedecode::to_hex;
use comline_simulator::framing::{
    jsonrpc_decode_request, jsonrpc_decode_response, jsonrpc_encode_request, jsonrpc_encode_response_err,
    WireFraming,
};
use comline_simulator::generic::{BehaviorMap, GenericDispatch};
use comline_simulator::rng::Mulberry32;
use comline_simulator::shape::{
    find_protocol, is_numeric_prim, type_label, zero_value, FieldShape, FnShape, Framing, ProjectShape,
    ProtocolShape, SchemaShape, TypeDef, TypeRef,
};
use comline_simulator::text::u64_bytes;
use comline_simulator::wire::{Channel, SendOutcome};
use serde_json::Value;

fn ms(x: f64) -> Double {
    Double { bits: x.to_bits() }
}

fn num(x: Double) -> f64 {
    f64::from_bits(x.bits)
}

fn json(text: &str) -> Value {
    serde_json::from_str(text).unwrap()
}

// ── behaviours ──────────────────────────────────────────────────────────

fn proto(oneway: bool) -> ProtocolShape {
    ProtocolShape {
        name: "P".into(),
        framing: Framing::Datagram,
        functions: vec![FnShape {
            name: "f".into(),
            index: 0,
            oneway,
            args: vec![],
            returns: None,
            throws: vec![],
        }],
    }
}

fn ctx(p: &ProtocolShape, params: Value) -> BehaviorCtx<'_> {
    BehaviorCtx { params, function: &p.functions[0], protocol: p }
}

#[test]
fn reply_with_returns_the_fixed_value() {
    let p = proto(false);
    let mut b = ReplyWith { value: json(r#"{"ok":true}"#) };
    assert_eq!(b.run(ctx(&p, Value::Null)), SimOutcome::Success(json(r#"{"ok":true}"#)));
}

#[test]
fn echo_returns_the_params() {
    let p = proto(false);
    let mut b = Echo;
    assert_eq!(b.run(ctx(&p, json("[1,2,3]"))), SimOutcome::Success(json("[1,2,3]")));
}

#[test]
fn a_one_way_function_sends_nothing_back() {
    let p = proto(true);
    let mut b = Echo;
    assert_eq!(b.run(ctx(&p, json(r#"["x"]"#))), SimOutcome::Nothing);
}

#[test]
fn every_kind_parses_back_from_its_tag() {
    let all = BehaviorKind::all();
    assert_eq!(all.len(), 8);
    for kind in all {
        assert_eq!(BehaviorKind::parse(kind.as_str()), Some(kind));
    }
    assert_eq!(BehaviorKind::parse("Reply"), None);
    assert_eq!(BehaviorKind::parse(""), None);
}

#[test]
fn a_one_way_function_starts_on_drop() {
    assert_eq!(default_kind_for(&proto(true).functions[0]), BehaviorKind::Drop);
    assert_eq!(default_kind_for(&proto(false).functions[0]), BehaviorKind::Reply);
}

#[test]
fn increment_counts_on_from_its_base() {
    let p = chat_proto();
    let schema = chat_schema();
    let mut plain = BehaviorKind::Increment.make(&json(r#"{"base":41,"path":""}"#), &p.functions[0], &schema);
    assert_eq!(plain.run(ctx(&p, Value::Null)), BehaviorStep::Now(SimOutcome::Success(json("42"))));
    assert_eq!(plain.run(ctx(&p, Value::Null)), BehaviorStep::Now(SimOutcome::Success(json("43"))));

    let mut nested =
        BehaviorKind::Increment.make(&json(r#"{"base":{"body":"","seq":0},"path":"seq"}"#), &p.functions[0], &schema);
    assert_eq!(
        nested.run(ctx(&p, Value::Null)),
        BehaviorStep::Now(SimOutcome::Success(json(r#"{"body":"","seq":1}"#)))
    );
}

#[test]
fn every_kind_makes_its_handler() {
    let p = chat_proto();
    let schema = chat_schema();
    let f = &p.functions[0];
    let make = |kind: BehaviorKind, config: &str| kind.make(&json(config), f, &schema);
    assert!(matches!(make(BehaviorKind::Echo, "{}"), Handler::Echo(Echo)));
    assert!(matches!(make(BehaviorKind::Drop, "{}"), Handler::Drop));
    assert!(matches!(
        make(BehaviorKind::Raise, r#"{"ordinal":4,"data":{"why":"no"}}"#),
        Handler::Raise { ordinal: 4, data } if data == json(r#"{"why":"no"}"#)
    ));
    assert!(matches!(
        make(BehaviorKind::Forward, r#"{"viaConnectionId":"c2","targetFn":"send"}"#),
        Handler::Forward { via, target_fn } if via == "c2" && target_fn == "send"
    ));
    assert!(matches!(
        make(BehaviorKind::Script, r##"{"source":"#{}"}"##),
        Handler::Script { source } if source == "#{}"
    ));
    assert!(matches!(
        make(BehaviorKind::Delay, r#"{"ms":500,"value":1}"#),
        Handler::Delay { ms: wait, value } if wait == ms(500.0) && value == json("1")
    ));
}

/// Answers with how many calls it took, and of which protocol.
struct Tally {
    taken: u64,
}

impl Behavior for Tally {
    fn run(&mut self, ctx: BehaviorCtx<'_>) -> SimOutcome {
        self.taken += 1;
        SimOutcome::Success(json(&format!("[\"{}\",{}]", ctx.protocol.name, self.taken)))
    }
}

#[test]
fn a_behaviour_of_ones_own_is_run() {
    let d = GenericDispatch::new(chat_proto());
    let mut behaviors: BehaviorMap = Dict::new();
    behaviors.insert("send".into(), Handler::Custom(Box::new(Tally { taken: 0 })));
    for n in 1..4 {
        assert_eq!(
            step(&d, RequestCall::Id(0), &Value::Null, &mut behaviors).unwrap(),
            BehaviorStep::Now(SimOutcome::Success(json(&format!("[\"Chat\",{n}]"))))
        );
    }
    behaviors.insert("send".into(), Handler::Custom(Box::new(Echo)));
    assert_eq!(
        step(&d, RequestCall::Id(0), &json("[7]"), &mut behaviors).unwrap(),
        BehaviorStep::Now(SimOutcome::Success(json("[7]")))
    );
}

#[test]
fn a_default_config_makes_the_default_behaviour() {
    let p = chat_proto();
    let schema = chat_schema();
    let config = BehaviorKind::Reply.default_config(&p.functions[0], &schema);
    assert_eq!(config, json(r#"{"value":{}}"#));
    assert!(matches!(
        BehaviorKind::Reply.make(&config, &p.functions[0], &schema),
        Handler::Reply(reply) if reply == ReplyWith { value: json("{}") }
    ));
}

// ── clock ───────────────────────────────────────────────────────────────

fn drain(c: &mut Clock<&'static str>) -> Vec<&'static str> {
    let mut out = Vec::new();
    while let Some(e) = c.pop_next() {
        out.push(e);
    }
    out
}

#[test]
fn fires_in_due_time_order_then_insertion_order() {
    let mut c: Clock<&'static str> = Clock::new();
    c.schedule(ms(30.0), "c");
    c.schedule(ms(10.0), "a");
    c.schedule(ms(10.0), "a2"); // same time as "a": must come after it
    c.schedule(ms(20.0), "b");

    assert_eq!(drain(&mut c), ["a", "a2", "b", "c"]);
}

#[test]
fn pop_next_advances_now_to_the_event() {
    let mut c: Clock<()> = Clock::new();
    c.schedule(ms(42.0), ());
    assert_eq!(c.now(), ms(0.0));
    c.pop_next();
    assert_eq!(c.now(), ms(42.0));
}

#[test]
fn scheduling_is_relative_to_the_current_time() {
    let mut c: Clock<&'static str> = Clock::new();
    c.schedule(ms(10.0), "first");
    c.pop_next(); // now = 10
    c.schedule(ms(5.0), "second"); // due at 15, not 5
    assert_eq!(c.peek_due(), Some(ms(15.0)));
    c.pop_next();
    assert_eq!(c.now(), ms(15.0));
}

#[test]
fn cancel_removes_a_pending_event_by_handle() {
    let mut c: Clock<&'static str> = Clock::new();
    c.schedule(ms(10.0), "a");
    let h = c.schedule(ms(20.0), "b");
    c.schedule(ms(30.0), "c");
    c.cancel(h);
    c.cancel(9999); // unknown handle: no-op

    assert_eq!(drain(&mut c), ["a", "c"]);
}

#[test]
fn park_at_least_only_moves_time_forward() {
    let mut c: Clock<()> = Clock::new();
    c.park_at_least(ms(100.0));
    assert_eq!(c.now(), ms(100.0));
    c.park_at_least(ms(50.0));
    assert_eq!(c.now(), ms(100.0), "never goes backwards");
}

#[test]
fn peek_due_is_none_when_empty() {
    let mut c: Clock<()> = Clock::new();
    assert_eq!(c.peek_due(), None);
    c.schedule(ms(5.0), ());
    assert_eq!(c.peek_due(), Some(ms(5.0)));
    c.pop_next();
    assert_eq!(c.peek_due(), None);
}

#[test]
fn a_negative_or_missing_delay_is_due_at_once() {
    let mut c: Clock<&'static str> = Clock::new();
    c.park_at_least(ms(7.0));
    c.schedule(ms(-3.0), "a");
    c.schedule(ms(f64::NAN), "b");
    assert_eq!(c.peek_due(), Some(ms(7.0)));
    assert_eq!(c.pending(), 2);
    assert_eq!(drain(&mut c), ["a", "b"]);
    assert_eq!(c.now(), ms(7.0));
}

#[test]
fn a_far_delay_stops_at_the_end_of_time() {
    let mut c: Clock<&'static str> = Clock::new();
    c.park_at_least(ms(0.001));
    c.schedule(ms(1e300), "never");
    assert_eq!(c.peek_micros(), Some(i64::MAX));
    assert_eq!(number_after(u64::MAX), u64::MAX);
    assert_eq!(number_after(4), 5);
}

// ── doubles ─────────────────────────────────────────────────────────────

#[test]
fn milliseconds_become_microseconds() {
    for (x, us) in [(0.0, 0), (1.0, 1_000), (0.5, 500), (12.345, 12_345), (3000.0, 3_000_000), (-4.0, 0)] {
        assert_eq!(ms(x).to_micros(), us, "{x}");
    }
    assert_eq!(ms(-4.0).to_signed_micros(), -4_000);
    assert_eq!(ms(f64::NAN).to_micros(), 0);
}

#[test]
fn a_position_rounds_above_zero() {
    for (x, r) in [(-20.0, 0.0), (33.7, 34.0), (0.5, 1.0), (2.5, 3.0), (2.4, 2.0), (0.0, 0.0)] {
        assert_eq!(num(ms(x).round_above_zero()), r, "{x}");
    }
}

#[test]
fn the_larger_of_a_double_and_zero() {
    assert_eq!(num(ms(-1.5).max_zero()), 0.0);
    assert_eq!(num(ms(1.5).max_zero()), 1.5);
    assert_eq!(num(ms(f64::NAN).max_zero()), 0.0);
    assert!(ms(0.1).is_positive());
    assert!(!ms(0.0).is_positive());
    assert!(!ms(-0.1).is_positive());
}

// ── random numbers ──────────────────────────────────────────────────────

#[test]
fn matches_the_javascript_reference_stream() {
    let cases: &[(u32, [f64; 6])] = &[
        (
            1,
            [
                0.6270739405881613,
                0.002735721180215478,
                0.5274470399599522,
                0.9810509674716741,
                0.9683778982143849,
                0.281103502959013,
            ],
        ),
        (
            42,
            [
                0.6011037519201636,
                0.44829055899754167,
                0.8524657934904099,
                0.6697340414393693,
                0.17481389874592423,
                0.5265925421845168,
            ],
        ),
        (
            123_456_789,
            [
                0.2577907438389957,
                0.9707721115555614,
                0.7853280142880976,
                0.20616457983851433,
                0.30307188746519387,
                0.7470660470426083,
            ],
        ),
    ];

    for &(seed, expected) in cases {
        let mut rng = Mulberry32::new(seed);
        for (i, want) in expected.iter().enumerate() {
            let got = num(rng.next_f64());
            assert!((got - want).abs() < 1e-15, "seed {seed}, draw {i}: got {got}, want {want}");
        }
    }
}

#[test]
fn draws_stay_in_the_unit_interval() {
    let mut rng = Mulberry32::new(7);
    for _ in 0..10_000 {
        let x = num(rng.next_f64());
        assert!((0.0..1.0).contains(&x), "{x} out of range");
    }
}

#[test]
fn same_seed_same_stream() {
    let mut a = Mulberry32::new(99);
    let mut b = Mulberry32::new(99);
    for _ in 0..256 {
        assert_eq!(a.next_f64().bits, b.next_f64().bits);
    }
}

#[test]
fn a_chance_of_one_is_certain_and_of_none_is_not() {
    let mut rng = Mulberry32::new(3);
    for _ in 0..256 {
        assert!(rng.chance(ms(1.0)));
        assert!(!rng.chance(ms(0.0)));
        assert!(!rng.chance(ms(f64::NAN)));
    }
}

// ── faults ──────────────────────────────────────────────────────────────

#[test]
fn default_spec_is_inert() {
    assert!(!faults_active(&no_faults()));
}

#[test]
fn every_knob_registers_as_active() {
    let on = |f: fn(&mut FaultSpec)| {
        let mut s = no_faults();
        f(&mut s);
        faults_active(&s)
    };
    assert!(on(|s| s.partition = true));
    assert!(on(|s| s.drop_prob = ms(0.1)));
    assert!(on(|s| s.corrupt_prob = ms(0.1)));
    assert!(on(|s| s.reorder_window = 2));
    assert!(on(|s| s.delay_max = ms(50.0)));
    // delay_min alone (without a max) is not a fault
    assert!(!on(|s| s.delay_min = ms(50.0)));
}

#[test]
fn apply_to_gates_direction() {
    let mut s = no_faults();

    s.apply_to = FaultDir::Both;
    assert!(fault_applies_to(&s, Direction::Request));
    assert!(fault_applies_to(&s, Direction::Response));

    s.apply_to = FaultDir::Requests;
    assert!(fault_applies_to(&s, Direction::Request));
    assert!(!fault_applies_to(&s, Direction::Response));

    s.apply_to = FaultDir::Responses;
    assert!(!fault_applies_to(&s, Direction::Request));
    assert!(fault_applies_to(&s, Direction::Response));
}

#[test]
fn corrupt_flips_one_byte_in_the_back_half() {
    let original = [0u8; 10];
    let mut rng = Mulberry32::new(1);
    let out = corrupt_bytes(&original, &mut rng);

    assert_eq!(out.len(), original.len());
    let flipped: Vec<usize> = (0..out.len()).filter(|&i| out[i] != original[i]).collect();
    // seed 1's first draw (0.627…) lands the flip at index 8.
    assert_eq!(flipped, vec![8]);
    assert_eq!(out[8], 0xff);
}

#[test]
fn corrupt_leaves_an_empty_slice_alone() {
    let mut rng = Mulberry32::new(1);
    assert!(corrupt_bytes(&[], &mut rng).is_empty());
}

// ── frames ──────────────────────────────────────────────────────────────

fn handshake_frame() -> Vec<u8> {
    let mut f = vec![0u8; HANDSHAKE_LEN];
    f[0] = 0x43; // 'C'
    f[1] = 0x4f; // 'O'
    f
}

#[test]
fn classifies_a_handshake_by_magic_and_length() {
    assert_eq!(classify(&handshake_frame()), FrameKind::Handshake);
    // right magic, wrong length → not a handshake
    let mut short = handshake_frame();
    short.truncate(20);
    assert_ne!(classify(&short), FrameKind::Handshake);
}

#[test]
fn classifies_json_rpc_by_the_method_key() {
    let req = br#"{"jsonrpc":"2.0","method":"send","id":1}"#;
    let res = br#"{"jsonrpc":"2.0","result":{"seq":1},"id":1}"#;
    assert_eq!(classify(req), FrameKind::Request);
    assert_eq!(classify(res), FrameKind::Response);
}

#[test]
fn a_binary_datagram_defaults_to_request() {
    assert_eq!(classify(&[0x00, 0x01, 0x02, 0x03]), FrameKind::Request);
}

#[test]
fn tap_numbers_frames_and_keeps_them_in_order() {
    let mut tap = Tap::new();
    let s1 = tap.record("a", "b", &[1, 2, 3], ms(0.0), FrameKind::Request, None);
    let s2 = tap.record("b", "a", &[4, 5], ms(1.0), FrameKind::Response, Some("dropped".into()));

    assert_eq!((s1, s2), (1, 2));
    assert_eq!(tap.frames.len(), 2);
    assert_eq!(tap.frames[0].from, "a");
    assert_eq!(tap.frames[0].bytes, vec![1, 2, 3]);
    assert_eq!(tap.frames[1].kind, FrameKind::Response, "the hint stands for a datagram");
    assert_eq!(tap.frames[1].fault.as_deref(), Some("dropped"));

    tap.clear();
    assert!(tap.frames.is_empty());
    // the counter keeps climbing after a clear
    assert_eq!(tap.record("a", "b", &[], ms(2.0), FrameKind::Request, None), 3);
}

#[test]
fn a_handshake_ignores_the_direction_hint() {
    let mut tap = Tap::new();
    tap.record("a", "b", &handshake_frame(), ms(0.0), FrameKind::Request, None);
    assert_eq!(tap.frames[0].kind, FrameKind::Handshake);
}

#[test]
fn to_hex_is_space_separated_lowercase() {
    assert_eq!(to_hex(&[0xde, 0xad, 0x00, 0x0f]), "de ad 00 0f");
    assert_eq!(to_hex(&[]), "");
}

// ── one connection's channel ────────────────────────────────────────────

fn rng() -> Mulberry32 {
    Mulberry32::new(1)
}

fn channel() -> Channel {
    Channel::new("client".to_string(), "server".to_string())
}

#[test]
fn a_clean_channel_delivers_immediately() {
    let mut ch = channel();
    let out = ch.send(Direction::Request, b"hello", ms(0.0), &mut rng());
    assert_eq!(out, SendOutcome::Deliver { frames: vec![b"hello".to_vec()], delay_ms: ms(0.0) });
    assert_eq!(ch.tap.frames.len(), 1);
    assert_eq!(ch.tap.frames[0].from, "client");
    assert_eq!(ch.tap.frames[0].to, "server");
    assert!(ch.tap.frames[0].fault.is_none());
}

#[test]
fn latency_becomes_the_delivery_delay() {
    let mut ch = channel();
    ch.set_latency(ms(50.0));
    let out = ch.send(Direction::Response, b"pong", ms(10.0), &mut rng());
    assert_eq!(out, SendOutcome::Deliver { frames: vec![b"pong".to_vec()], delay_ms: ms(50.0) });
}

#[test]
fn a_total_drop_is_recorded_but_not_delivered() {
    let mut ch = channel();
    ch.faults_mut().drop_prob = ms(1.0);
    let out = ch.send(Direction::Request, b"hello", ms(0.0), &mut rng());
    assert_eq!(out, SendOutcome::Dropped);
    assert_eq!(ch.tap.frames[0].fault.as_deref(), Some("dropped"));
}

#[test]
fn a_partition_drops_even_a_handshake() {
    let mut ch = channel();
    ch.faults_mut().partition = true;
    let mut hs = vec![0u8; 31];
    hs[0] = b'C';
    hs[1] = b'O';
    let out = ch.send(Direction::Request, &hs, ms(0.0), &mut rng());
    assert_eq!(out, SendOutcome::Dropped);
    assert_eq!(ch.tap.frames[0].fault.as_deref(), Some("dropped · partition"));
}

#[test]
fn apply_to_keeps_the_other_direction_clean() {
    let mut ch = channel();
    ch.faults_mut().drop_prob = ms(1.0);
    ch.faults_mut().apply_to = FaultDir::Responses;

    // a request is out of scope: delivered clean despite drop_prob = 1
    let out = ch.send(Direction::Request, b"req", ms(0.0), &mut rng());
    assert!(matches!(out, SendOutcome::Deliver { .. }));
    assert!(ch.tap.frames[0].fault.is_none());

    // a response is in scope: dropped
    let out = ch.send(Direction::Response, b"res", ms(0.0), &mut rng());
    assert_eq!(out, SendOutcome::Dropped);
}

#[test]
fn corruption_flips_a_byte_and_annotates_the_frame() {
    let mut ch = channel();
    ch.faults_mut().corrupt_prob = ms(1.0);
    let original = b"aaaaaaaaaaaaaaaa";
    let out = ch.send(Direction::Request, original, ms(0.0), &mut rng());
    match out {
        SendOutcome::Deliver { frames, delay_ms } => {
            assert_eq!(delay_ms, ms(0.0));
            assert_ne!(frames[0], original, "a byte was flipped");
        }
        other => panic!("expected delivery, got {other:?}"),
    }
    assert_eq!(ch.tap.frames[0].fault.as_deref(), Some("corrupted"));
}

#[test]
fn jitter_delays_delivery_and_notes_the_millis() {
    let mut ch = channel();
    ch.faults_mut().delay_min = ms(100.0);
    ch.faults_mut().delay_max = ms(100.0); // fixed 100 ms, no randomness
    let out = ch.send(Direction::Request, b"x", ms(0.0), &mut rng());
    match out {
        SendOutcome::Deliver { delay_ms, .. } => assert_eq!(delay_ms, ms(100.0)),
        other => panic!("expected delivery, got {other:?}"),
    }
    assert_eq!(ch.tap.frames[0].fault.as_deref(), Some("+100 ms"));
}

#[test]
fn reorder_buffers_until_the_window_fills_then_flushes_the_batch() {
    let mut ch = channel();
    ch.faults_mut().reorder_window = 3;
    let mut r = rng();

    let a = ch.send(Direction::Request, b"a", ms(0.0), &mut r);
    assert_eq!(a, SendOutcome::Buffered { schedule_flush: true });
    let b = ch.send(Direction::Request, b"b", ms(0.0), &mut r);
    assert_eq!(b, SendOutcome::Buffered { schedule_flush: false });

    let c = ch.send(Direction::Request, b"c", ms(0.0), &mut r);
    match c {
        SendOutcome::Deliver { frames, delay_ms } => {
            assert_eq!(delay_ms, ms(0.0));
            let mut sorted = frames.clone();
            sorted.sort();
            assert_eq!(sorted, vec![b"a".to_vec(), b"b".to_vec(), b"c".to_vec()]);
        }
        other => panic!("expected a flushed batch, got {other:?}"),
    }
    assert_eq!(ch.tap.frames.len(), 3, "every buffered frame was recorded");

    // buffer drained: the next frame schedules a fresh flush timer
    let d = ch.send(Direction::Request, b"d", ms(0.0), &mut r);
    assert_eq!(d, SendOutcome::Buffered { schedule_flush: true });
}

#[test]
fn a_flush_on_an_empty_buffer_yields_nothing() {
    let mut ch = channel();
    assert!(ch.flush_reorder(&mut rng()).is_empty());
}

#[test]
fn a_flush_releases_what_is_held() {
    let mut ch = channel();
    ch.faults_mut().reorder_window = 9;
    let mut r = rng();
    for b in [b"a", b"b", b"c"] {
        ch.send(Direction::Request, b, ms(0.0), &mut r);
    }
    let mut out = ch.flush_reorder(&mut r);
    out.sort();
    assert_eq!(out, vec![b"a".to_vec(), b"b".to_vec(), b"c".to_vec()]);
    assert!(ch.flush_reorder(&mut r).is_empty());
}

// ── framings and formats ────────────────────────────────────────────────

#[test]
fn jsonrpc_request_round_trips() {
    let mut frame = Vec::new();
    let params = Codec::Json.encode(&json(r#"[7,"x"]"#)).unwrap();
    let f = WireFraming::Jsonrpc;
    f.encode_request("greet", 1, &params, b"", &mut frame);
    assert_eq!(
        std::str::from_utf8(&frame).unwrap(),
        r#"{"jsonrpc":"2.0","method":"greet","params":[7,"x"],"id":1}"#
    );

    let req = f.decode_request(&frame, None).unwrap();
    assert_eq!(req.call, RequestCall::Name("greet".to_string()));
    assert_eq!(req.request_id, 1);
    assert_eq!(req.params, br#"[7,"x"]"#);
}

#[test]
fn jsonrpc_ok_and_err_responses_round_trip() {
    let f = WireFraming::Jsonrpc;

    let mut ok = Vec::new();
    f.encode_response_ok(9, br#"{"body":"hi"}"#, b"", &mut ok);
    assert_eq!(f.decode_response(&ok, None), Some((9, Envelope::Success(br#"{"body":"hi"}"#.to_vec()))));

    let mut err = Vec::new();
    f.encode_response_err(9, 3, br#"{"why":"no"}"#, b"", &mut err);
    assert_eq!(
        f.decode_response(&err, None),
        Some((9, Envelope::Failure { id: 3, body: br#"{"why":"no"}"#.to_vec() }))
    );
}

#[test]
fn garbage_is_no_jsonrpc_frame() {
    for frame in [&b""[..], b"[]", b"{", b"{}", b"\xff\xfe"] {
        assert_eq!(jsonrpc_decode_request(frame), None);
        assert_eq!(jsonrpc_decode_response(frame), None);
    }
    // a request without an id or params is a notification
    let req = jsonrpc_decode_request(br#"{"method":"f"}"#).unwrap();
    assert_eq!((req.call, req.request_id), (RequestCall::Name("f".to_string()), 0));
    assert_eq!(req.params, b"null");
}

#[test]
fn a_datagram_is_what_the_runtime_makes_of_it() {
    let f = WireFraming::Datagram;
    let mut out = b"head ".to_vec();
    f.encode_request("ignored", 5, b"[]", b"one ", &mut out);
    f.encode_response_ok(5, b"[]", b"two ", &mut out);
    f.encode_response_err(5, 1, b"[]", b"three", &mut out);
    assert_eq!(out, b"head one two three");
    let response = || Some((5, Envelope::Success(b"body".to_vec())));
    assert_eq!(f.decode_response(b"{}", response()), response());
    assert_eq!(f.decode_request(br#"{"method":"f"}"#, None), None);
}

#[test]
fn damage_counts_only_where_the_frame_is_read() {
    let mut err = Vec::new();
    jsonrpc_encode_response_err(9, 3, "\"h\u{e9}\"".as_bytes(), &mut err);
    let whole = Some((9, Envelope::Failure { id: 3, body: "\"h\u{e9}\"".as_bytes().to_vec() }));
    assert_eq!(jsonrpc_decode_response(&err), whole);
    let text = String::from_utf8(err.clone()).unwrap();

    let damaged = |at: usize| {
        let mut frame = err.clone();
        frame[at] ^= 0xff;
        jsonrpc_decode_response(&frame)
    };
    // nobody reads the version or the message
    assert_eq!(damaged(text.find("2.0").unwrap()), whole);
    assert_eq!(damaged(text.find("application").unwrap()), whole);
    // the code, the body, the id and the names are read
    for place in ["3,", "h\u{e9}", "9}", "message", "jsonrpc", "data", "{"] {
        assert_eq!(damaged(text.find(place).unwrap()), None, "{place}");
    }

    let mut ask = Vec::new();
    jsonrpc_encode_request("greet", 1, b"[7]", &mut ask);
    ask[12] ^= 0xff;
    assert_eq!(jsonrpc_decode_request(&ask).map(|req| req.params), Some(b"[7]".to_vec()));
}

#[test]
fn a_field_stands_once() {
    assert_eq!(jsonrpc_decode_request(br#"{"method":"f","id":1,"method":"f"}"#), None);
    assert_eq!(jsonrpc_decode_request(br#"{"method":"f", "\u006dethod" : "g"}"#), None);
    assert_eq!(jsonrpc_decode_response(br#" {"id":1,"result":[1,2],"id":1} "#), None);
    assert_eq!(jsonrpc_decode_response(br#"{"id":1,"error":{"code":1,"data":2,"code":1}}"#), None);
    // what is not read may stand as often as it likes, as may any name deeper in
    let req = jsonrpc_decode_request(br#"{"x":1,"method":"f","x":"},{","params":{"id":1,"id":[","]}}"#).unwrap();
    assert_eq!(req.call, RequestCall::Name("f".to_string()));
    assert_eq!(req.params, br#"{"id":1,"id":[","]}"#);
}

#[test]
fn a_frame_may_be_a_list() {
    let req = jsonrpc_decode_request(br#" ["greet", [7], 4] "#).unwrap();
    assert_eq!((req.call, req.request_id), (RequestCall::Name("greet".to_string()), 4));
    assert_eq!(req.params, b"[7]");
    assert_eq!(jsonrpc_decode_request(br#"["greet"]"#).unwrap().params, b"null");
    assert_eq!(jsonrpc_decode_request(br#"["greet", [7], 4, 5]"#), None);
    assert_eq!(
        jsonrpc_decode_response(br#"[null, [3, "no"], 4]"#),
        Some((4, Envelope::Failure { id: 3, body: b"\"no\"".to_vec() }))
    );
    assert_eq!(jsonrpc_decode_response(br#"[1, null]"#), None);
}

#[test]
fn only_jsonrpc_carries_the_call_by_name() {
    assert!(WireFraming::Jsonrpc.is_named());
    assert!(!WireFraming::Datagram.is_named());
    assert_eq!(WireFraming::Jsonrpc.name("datagram"), "jsonrpc-2.0");
    assert_eq!(WireFraming::Datagram.name("datagram"), "datagram");
}

#[test]
fn both_formats_bring_a_value_back() {
    let value = json(r#"{"list":[1,-2,"three",null,true],"nested":{"x":9007199254740993}}"#);
    for codec in [Codec::Json, Codec::Msgpack] {
        let bytes = codec.encode(&value).unwrap();
        assert_eq!(codec.decode(&bytes), Ok(value.clone()), "{codec:?}");
        assert_eq!(Codec::parse(codec.name()), Some(codec));
    }
    assert_eq!(Codec::Json.encode(&json("[1]")).unwrap(), b"[1]");
    assert_eq!(Codec::Msgpack.encode(&json("[1]")).unwrap(), [0x91, 0x01]);
    assert_eq!(Codec::Json.decode(b"nope"), Err(RuntimeError::Serialization));
    assert_eq!(Codec::Msgpack.decode(&[0xc1]), Err(RuntimeError::Serialization));
    assert_eq!(Codec::parse("xml"), None);
    assert_eq!(Codec::default(), Codec::Json);
}

#[test]
fn numbers_write_out_in_decimal() {
    assert_eq!(u64_bytes(0), b"0");
    assert_eq!(u64_bytes(1_204), b"1204");
    assert_eq!(u64_bytes(u64::MAX), u64::MAX.to_string().as_bytes());
}

// ── the dispatcher ──────────────────────────────────────────────────────

fn chat_proto() -> ProtocolShape {
    ProtocolShape {
        name: "Chat".into(),
        framing: Framing::Datagram,
        functions: vec![FnShape {
            name: "send".into(),
            index: 0,
            oneway: false,
            args: vec![],
            returns: Some(TypeRef::Ref { name: "Message".into() }),
            throws: vec![],
        }],
    }
}

fn chat_schema() -> SchemaShape {
    SchemaShape {
        namespace: "chat".into(),
        ir_hash: "0x0".into(),
        protocols: vec![chat_proto()],
        errors: vec![],
        types: vec![TypeDef::Struct { name: "Message".into(), fields: vec![] }],
    }
}

fn step(
    d: &GenericDispatch,
    call: RequestCall,
    params: &Value,
    behaviors: &mut BehaviorMap,
) -> Result<BehaviorStep, RuntimeError> {
    let bytes = Codec::Json.encode(params).unwrap();
    d.dispatch(&call, &bytes, Codec::Json, behaviors)
}

#[test]
fn resolves_by_id_and_by_name() {
    let d = GenericDispatch::new(chat_proto());
    let mut behaviors: BehaviorMap = Dict::new();
    behaviors.insert("send".into(), Handler::Echo(Echo));

    assert!(matches!(step(&d, RequestCall::Id(0), &Value::Null, &mut behaviors).unwrap(), BehaviorStep::Now(_)));
    assert!(matches!(
        step(&d, RequestCall::Name("send".into()), &Value::Null, &mut behaviors).unwrap(),
        BehaviorStep::Now(_)
    ));
}

#[test]
fn an_unknown_call_or_unbound_function_is_rejected() {
    let d = GenericDispatch::new(chat_proto());
    let mut behaviors: BehaviorMap = Dict::new();

    assert_eq!(
        step(&d, RequestCall::Id(0), &Value::Null, &mut behaviors).unwrap_err(),
        RuntimeError::UnknownCall,
        "no behaviour bound"
    );
    behaviors.insert("send".into(), Handler::Echo(Echo));
    assert_eq!(
        step(&d, RequestCall::Id(9), &Value::Null, &mut behaviors).unwrap_err(),
        RuntimeError::UnknownCall
    );
    assert_eq!(
        step(&d, RequestCall::Name("nope".into()), &Value::Null, &mut behaviors).unwrap_err(),
        RuntimeError::UnknownCall
    );
}

#[test]
fn params_reach_the_behaviour_decoded() {
    let d = GenericDispatch::new(chat_proto());
    let mut behaviors: BehaviorMap = Dict::new();
    behaviors.insert("send".into(), Handler::Echo(Echo));

    let params = json(r#"["hello"]"#);
    assert_eq!(
        step(&d, RequestCall::Id(0), &params, &mut behaviors).unwrap(),
        BehaviorStep::Now(SimOutcome::Success(params))
    );
}

#[test]
fn params_that_do_not_decode_are_rejected() {
    let d = GenericDispatch::new(chat_proto());
    let mut behaviors: BehaviorMap = Dict::new();
    behaviors.insert("send".into(), Handler::Echo(Echo));
    assert_eq!(
        d.dispatch(&RequestCall::Id(0), b"{", Codec::Json, &mut behaviors).unwrap_err(),
        RuntimeError::Serialization
    );
    assert_eq!(
        d.dispatch(&RequestCall::Id(0), b"", Codec::Json, &mut behaviors).unwrap(),
        BehaviorStep::Now(SimOutcome::Success(Value::Null)),
        "no params are null"
    );
}

#[test]
fn a_delay_behaviour_surfaces_as_an_after_step() {
    let d = GenericDispatch::new(chat_proto());
    let schema = chat_schema();
    let mut behaviors: BehaviorMap = Dict::new();
    behaviors.insert(
        "send".into(),
        BehaviorKind::Delay.make(&json(r#"{"ms":500,"value":null}"#), &chat_proto().functions[0], &schema),
    );

    assert_eq!(
        step(&d, RequestCall::Id(0), &Value::Null, &mut behaviors).unwrap(),
        BehaviorStep::After { delay_ms: ms(500.0), outcome: SimOutcome::Success(Value::Null) }
    );
}

// ── shapes ──────────────────────────────────────────────────────────────

fn prim(name: &str) -> TypeRef {
    TypeRef::Prim { name: name.into() }
}

fn reference(name: &str) -> TypeRef {
    TypeRef::Ref { name: name.into() }
}

#[test]
fn zero_value_walks_structs_enums_and_prims() {
    let types = vec![
        TypeDef::Struct {
            name: "Message".into(),
            fields: vec![
                FieldShape { name: "body".into(), ty: prim("string"), optional: false },
                FieldShape { name: "seq".into(), ty: prim("u64"), optional: false },
            ],
        },
        TypeDef::Enum { name: "Status".into(), variants: vec!["Idle".into(), "Busy".into()] },
    ];

    assert_eq!(zero_value(&reference("Message"), &types), json(r#"{"body":"","seq":0}"#));
    assert_eq!(zero_value(&reference("Status"), &types), json(r#""Idle""#));
    assert_eq!(zero_value(&TypeRef::Array { of: Box::new(TypeRef::Unit) }, &types), json("[]"));
    assert_eq!(zero_value(&prim("bool"), &types), json("false"));
    assert_eq!(zero_value(&reference("Missing"), &types), Value::Null);
}

#[test]
fn zero_value_stops_on_a_recursive_struct() {
    let types = vec![TypeDef::Struct {
        name: "Node".into(),
        fields: vec![FieldShape { name: "next".into(), ty: reference("Node"), optional: true }],
    }];
    assert_eq!(zero_value(&reference("Node"), &types), json(r#"{"next":null}"#));
}

#[test]
fn type_label_reads_back_the_signature_syntax() {
    assert_eq!(type_label(&TypeRef::Unit), "()");
    assert_eq!(type_label(&TypeRef::Array { of: Box::new(reference("Message")) }), "Message[]");
    assert_eq!(type_label(&TypeRef::Union { of: vec![prim("A"), prim("B")] }), "A | B");
}

#[test]
fn a_protocol_is_found_by_its_namespace_and_name() {
    let shape = ProjectShape { schemas: vec![chat_schema()] };
    let (schema, proto) = find_protocol(&shape, "chat", "Chat").unwrap();
    assert_eq!(schema.namespace, "chat");
    assert_eq!(proto.name, "Chat");
    assert_eq!(schema.types[0].name(), "Message");
    assert!(find_protocol(&shape, "chat", "Missing").is_none());
    assert!(find_protocol(&shape, "nope", "Chat").is_none());
}

#[test]
fn numeric_primitives_are_told_apart() {
    for name in ["u8", "u64", "s32", "f64", "float"] {
        assert!(is_numeric_prim(name), "{name}");
    }
    for name in ["string", "bool", "i32", "Message", ""] {
        assert!(!is_numeric_prim(name), "{name}");
    }
}

// ── dictionaries ────────────────────────────────────────────────────────

#[test]
fn a_dictionary_keeps_its_keys_in_order() {
    let mut d: Dict<String> = Dict::new();
    for key in ["m", "a", "z", "a", "é", "ab"] {
        d.insert(key.to_string(), key.to_uppercase());
    }
    assert_eq!(d.keys(), ["a", "ab", "m", "z", "é"]);
    assert_eq!(d.len(), 5);
    assert_eq!(d.get("ab").map(|s| s.as_str()), Some("AB"));
    assert_eq!(d.remove("m").as_deref(), Some("M"));
    assert!(!d.contains_key("m"));
    assert_eq!(d.remove("m"), None);
    assert_eq!(rank("a", "ab"), Rank::Before);
}

#[test]
fn a_json_body_is_written_without_blanks() {
    let value = json(" [ 1 , { \"a b\" : \" c \" } , \"\" ] ");
    assert_eq!(Codec::Json.encode(&value).unwrap(), b"[1,{\"a b\":\" c \"},\"\"]");
    assert_eq!(Codec::Json.encode(&json("\"  \"")).unwrap(), b"\"  \"");
}

#[test]
fn a_number_has_its_nearest_double() {
    let f = chat_proto().functions[0].clone();
    let schema = chat_schema();
    let wait = |n: &str| match BehaviorKind::Delay.make(&json(&format!("{{\"ms\":{n}}}")), &f, &schema) {
        Handler::Delay { ms, .. } => ms,
        _ => unreachable!(),
    };
    assert_eq!(wait("0"), ms(0.0));
    assert_eq!(wait("9007199254740993"), ms(9007199254740992.0), "the even one of two that are equally near");
    assert_eq!(wait("18446744073709551615"), ms(18446744073709551616.0));
    assert_eq!(wait("-3"), ms(-3.0));
    assert_eq!(wait("0.25"), ms(0.25));
}

//! What a wire is when it is opened, and what is set on it afterwards.

use vstd::prelude::*;
use crate::behavior::{BehaviorKind, HandlerView, OutcomeView, StepView};
use crate::chances::law_a_flush_lets_go_of_all;
use crate::contract::{RequestView, RuntimeError};
use crate::double::Double;
use crate::edits::{instance_at, last_named, law_instances_are_found_by_id};
use crate::engine::{
    deliveries, hash_number, maybe_plan, opened, opened_all, plan_of, wire_behaviors, ContView, EngineView,
    EventView, GreetingView, OutgoingView, ResultView, Turn, WireView, WorkView,
};
use crate::faults::{Direction, FaultSpec};
use crate::format::Codec;
use crate::framing::{request_of_frame, response_of_frame, WireFraming};
use crate::generic::dispatched;
use crate::json::Json;
use crate::model::{ConnectionView, FramingChoice, InstanceView, SessionView};
use crate::shape::{FnView, Framing, ProtocolView, SchemaView};
use crate::text::{all_digits, digits_value};
use crate::wire::{delay_micros, Fate};

verus! {

/// Whether `c` joins the instances at `a` and `b` of the session, and the latter speaks
/// `proto` of `schema`.
pub open spec fn joins(
    s: SessionView,
    c: ConnectionView,
    a: int,
    b: int,
    schema: SchemaView,
    proto: ProtocolView,
) -> bool {
    &&& instance_at(s, c.client_id, a)
    &&& instance_at(s, c.server_id, b)
    &&& s.shape.protocol(s.instances[b].schema_ns, s.instances[b].protocol) == Some((schema, proto))
}

/// Whether `bytes` are a handshake: 31 bytes that start with `CO`.
pub open spec fn greets(bytes: Seq<u8>) -> bool {
    bytes.len() == 31 && bytes[0] == 0x43 && bytes[1] == 0x4f
}

/// A wire that is opened for a connection left on auto speaks JSON-RPC exactly where the
/// protocol of its server declares JSON-RPC. One with a choice of its own speaks that.
/// The two handshakes announce what the wire speaks.
pub proof fn law_a_wire_speaks_what_was_chosen(
    s: SessionView,
    c: ConnectionView,
    g: GreetingView,
    rng: u32,
    a: int,
    b: int,
    schema: SchemaView,
    proto: ProtocolView,
)
    requires
        joins(s, c, a, b, schema, proto),
    ensures
        c.framing == FramingChoice::Auto ==> (opened(s, c, g, rng).0.framing == WireFraming::Jsonrpc <==> proto.framing
            == Framing::Jsonrpc),
        c.framing == FramingChoice::Auto ==> (opened(s, c, g, rng).0.framing == WireFraming::Datagram <==> proto.framing
            == Framing::Datagram),
        c.framing == FramingChoice::Jsonrpc ==> opened(s, c, g, rng).0.framing == WireFraming::Jsonrpc,
        c.framing == FramingChoice::Datagram ==> opened(s, c, g, rng).0.framing == WireFraming::Datagram,
        plan_of(s, c).framing == opened(s, c, g, rng).0.framing,
        plan_of(s, c).codec == c.wire_format,
{
    law_instances_are_found_by_id(s, c.client_id, a);
    law_instances_are_found_by_id(s, c.server_id, b);
}

proof fn lemma_opened_at(
    s: SessionView,
    greetings: Seq<GreetingView>,
    n: int,
    wires: Map<Seq<char>, WireView>,
    rng: u32,
    i: int,
) -> (state: u32)
    requires
        0 <= i < n <= s.connections.len(),
        !wires.contains_key(s.connections[i].id),
        s.leads(i),
    ensures
        opened_all(s, greetings, n, wires, rng).0.contains_key(s.connections[i].id),
        opened_all(s, greetings, n, wires, rng).0[s.connections[i].id] == opened(
            s,
            s.connections[i],
            greetings[i],
            state,
        ).0,
    decreases n,
{
    let id = s.connections[i].id;
    let part = opened_all(s, greetings, n - 1, wires, rng);
    if i == n - 1 {
        lemma_not_opened(s, greetings, n - 1, wires, rng, id);
        part.1
    } else {
        lemma_opened_at(s, greetings, n - 1, wires, rng, i)
    }
}

proof fn lemma_not_opened(
    s: SessionView,
    greetings: Seq<GreetingView>,
    n: int,
    wires: Map<Seq<char>, WireView>,
    rng: u32,
    id: Seq<char>,
)
    requires
        n <= s.connections.len(),
        !wires.contains_key(id),
        forall|j: int| 0 <= j < n ==> (#[trigger] s.connections[j]).id != id,
    ensures
        !opened_all(s, greetings, n, wires, rng).0.contains_key(id),
    decreases n,
{
    if n > 0 {
        lemma_not_opened(s, greetings, n - 1, wires, rng, id);
        assert(s.connections[n - 1].id != id);
    }
}

/// After a rebuild there is a wire for the first connection of each id. Left on auto it
/// speaks JSON-RPC exactly where the protocol of its server declares it; else it speaks
/// what was chosen.
pub proof fn law_a_rebuilt_engine_speaks_what_was_chosen(
    e: EngineView,
    s: SessionView,
    greetings: Seq<GreetingView>,
    i: int,
    a: int,
    b: int,
    schema: SchemaView,
    proto: ProtocolView,
)
    requires
        0 <= i < s.connections.len(),
        s.leads(i),
        joins(s, s.connections[i], a, b, schema, proto),
    ensures
        ({
            let c = s.connections[i];
            let wires = e.rebuilt(s, greetings).wires;
            &&& wires.contains_key(c.id)
            &&& wires[c.id].framing == WireFraming::Jsonrpc <==> c.framing == FramingChoice::Jsonrpc || (c.framing
                == FramingChoice::Auto && proto.framing == Framing::Jsonrpc)
            &&& wires[c.id].codec == c.wire_format
            &&& wires[c.id].channel.faults == c.faults
            &&& wires[c.id].proto == proto
        }),
{
    let c = s.connections[i];
    let kept = Map::<Seq<char>, WireView>::empty().restrict(s.connection_ids().to_set());
    let state = lemma_opened_at(s, greetings, s.connections.len() as int, kept, s.seed, i);
    law_a_wire_speaks_what_was_chosen(s, c, greetings[i], state, a, b, schema, proto);
    law_a_wire_carries_its_connection(s, c, greetings[i], state, a, b, schema, proto);
}

/// A wire carries the faults and the format of its connection, the latency and the
/// timeout of the session where they are above zero, the ids and the names of its two
/// ends, and the protocol of its server. It is alive.
pub proof fn law_a_wire_carries_its_connection(
    s: SessionView,
    c: ConnectionView,
    g: GreetingView,
    rng: u32,
    a: int,
    b: int,
    schema: SchemaView,
    proto: ProtocolView,
)
    requires
        joins(s, c, a, b, schema, proto),
    ensures
        ({
            let wire = opened(s, c, g, rng).0;
            &&& wire.proto == proto
            &&& wire.codec == c.wire_format
            &&& wire.channel.faults == c.faults
            &&& wire.channel.latency_ms.bits == (if !s.latency_ms.is_nan() && s.latency_ms.scaled() > 0 {
                s.latency_ms.bits
            } else {
                0
            })
            &&& wire.timeout_ms.bits == (if !s.call_timeout_ms.is_nan() && s.call_timeout_ms.scaled() > 0 {
                s.call_timeout_ms.bits
            } else {
                0
            })
            &&& wire.client_id == s.instances[a].id
            &&& wire.client_name == s.instances[a].name
            &&& wire.server_id == s.instances[b].id
            &&& wire.server_name == s.instances[b].name
            &&& wire.channel.client == s.instances[a].name
            &&& wire.channel.server == s.instances[b].name
            &&& !wire.dead
        }),
{
    law_instances_are_found_by_id(s, c.client_id, a);
    law_instances_are_found_by_id(s, c.server_id, b);
}

/// Two handshakes bring a wire up exactly where it is not cut, both ends have the same
/// hash, and JSON-RPC is not asked to carry MessagePack. They are on the tap, the
/// client's in front, and take no draw.
pub proof fn law_who_comes_up(
    s: SessionView,
    c: ConnectionView,
    g: GreetingView,
    rng: u32,
    a: int,
    b: int,
    schema: SchemaView,
    proto: ProtocolView,
)
    requires
        joins(s, c, a, b, schema, proto),
        greets(g.client),
        greets(g.server),
    ensures
        ({
            let wire = opened(s, c, g, rng).0;
            let mixed = wire.framing == WireFraming::Jsonrpc && c.wire_format == Codec::Msgpack;
            &&& wire.error is None <==> !mixed && !c.faults.partition && s.instances[a].ir_hash
                == s.instances[b].ir_hash
            &&& mixed ==> wire.error == Some("json-rpc framing requires the json codec"@)
            &&& wire.error is Some && !mixed ==> wire.error == Some("handshake"@)
            &&& opened(s, c, g, rng).1 == rng
            &&& wire.channel.tap.frames.len() == 2
            &&& wire.channel.tap.frames[0].bytes == g.client
            &&& wire.channel.tap.frames[0].from == s.instances[a].name
            &&& wire.channel.tap.frames[0].to == s.instances[b].name
            &&& wire.channel.tap.frames[1].bytes == g.server
            &&& wire.channel.tap.frames[1].from == s.instances[b].name
            &&& wire.channel.tap.frames[1].to == s.instances[a].name
        }),
{
    law_instances_are_found_by_id(s, c.client_id, a);
    law_instances_are_found_by_id(s, c.server_id, b);
}

proof fn lemma_behaviors(functions: Seq<FnView>, server: InstanceView, schema: SchemaView, j: int)
    ensures
        last_named(functions, j) ==> wire_behaviors(functions, server, schema).contains_key(functions[j].name)
            && wire_behaviors(functions, server, schema)[functions[j].name] == (if server.behaviors.contains_key(
            functions[j].name,
        ) {
            server.behaviors[functions[j].name].kind.made(
                server.behaviors[functions[j].name].config,
                functions[j],
                schema,
            )
        } else {
            BehaviorKind::Reply.made(Json::Object(Map::empty()), functions[j], schema)
        }),
        forall|name: Seq<char>| #[trigger]
            wire_behaviors(functions, server, schema).contains_key(name) ==> exists|i: int|
                0 <= i < functions.len() && (#[trigger] functions[i]).name == name,
    decreases functions.len(),
{
    if functions.len() > 0 {
        let short = functions.drop_last();
        let last = functions.len() - 1;
        lemma_behaviors(short, server, schema, j);
        if last_named(functions, j) && j < last {
            assert forall|i: int| j < i < short.len() implies (#[trigger] short[i]).name != short[j].name by {
                assert(functions[i].name != functions[j].name);
            }
            assert(last_named(short, j));
            assert(functions[last].name != functions[j].name);
        }
        assert forall|name: Seq<char>| #[trigger]
            wire_behaviors(functions, server, schema).contains_key(name) implies exists|i: int|
            0 <= i < functions.len() && (#[trigger] functions[i]).name == name by {
            if name == functions[last].name {
                assert(functions[last].name == name);
            } else {
                assert(wire_behaviors(short, server, schema).contains_key(name));
                let i = choose|i: int| 0 <= i < short.len() && (#[trigger] short[i]).name == name;
                assert(functions[i].name == name);
            }
        }
    }
}

/// A wire does for each function of its protocol what its server is set to, and for no
/// other name anything.
pub proof fn law_a_wire_does_what_its_server_is_set_to(
    s: SessionView,
    c: ConnectionView,
    g: GreetingView,
    rng: u32,
    a: int,
    b: int,
    schema: SchemaView,
    proto: ProtocolView,
    j: int,
)
    requires
        joins(s, c, a, b, schema, proto),
        last_named(proto.functions, j),
        s.instances[b].behaviors.contains_key(proto.functions[j].name),
    ensures
        ({
            let name = proto.functions[j].name;
            let set = s.instances[b].behaviors[name];
            let wire = opened(s, c, g, rng).0;
            &&& wire.behaviors.contains_key(name)
            &&& wire.behaviors[name] == set.kind.made(set.config, proto.functions[j], schema)
            &&& forall|other: Seq<char>| #[trigger]
                wire.behaviors.contains_key(other) ==> exists|i: int|
                    0 <= i < proto.functions.len() && (#[trigger] proto.functions[i]).name == other
        }),
{
    law_instances_are_found_by_id(s, c.client_id, a);
    law_instances_are_found_by_id(s, c.server_id, b);
    lemma_behaviors(proto.functions, s.instances[b], schema, j);
}

// ── what is set on a live wire ──────────────────────────────────────────

/// Faults that are set on a wire are what its next frame meets. Nothing else of the
/// engine changes.
pub proof fn law_faults_reach_the_wire(e: EngineView, conn: Seq<char>, faults: FaultSpec)
    requires
        e.wires.contains_key(conn),
    ensures
        ({
            let after = e.with_faults(conn, faults);
            &&& after.wires.contains_key(conn)
            &&& after.wires[conn].channel.faults == faults
            &&& after.wires[conn].channel.latency_ms == e.wires[conn].channel.latency_ms
            &&& after.wires[conn].channel.tap == e.wires[conn].channel.tap
            &&& after.wires[conn].channel.held == e.wires[conn].channel.held
            &&& after.wires[conn].behaviors == e.wires[conn].behaviors
            &&& after.wires[conn].framing == e.wires[conn].framing
            &&& after.wires[conn].codec == e.wires[conn].codec
            &&& after.wires[conn].error == e.wires[conn].error
            &&& after.wires[conn].dead == e.wires[conn].dead
            &&& after.wires[conn].timeout_ms == e.wires[conn].timeout_ms
            &&& forall|other: Seq<char>|
                other != conn ==> (#[trigger] after.wires.contains_key(other) == e.wires.contains_key(other)) && (
                e.wires.contains_key(other) ==> after.wires[other] == e.wires[other])
            &&& after.clock == e.clock
            &&& after.rng == e.rng
            &&& after.results == e.results
            &&& after.in_flight == e.in_flight
        }),
{
}

/// A behaviour that is set on a wire is what the wire does for that function from then
/// on. Its other functions, and the other wires, do what they did.
pub proof fn law_a_behaviour_reaches_the_wire(e: EngineView, conn: Seq<char>, fn_name: Seq<char>, handler: HandlerView)
    requires
        e.wires.contains_key(conn),
    ensures
        ({
            let after = e.with_behavior(conn, fn_name, handler);
            &&& after.wires.contains_key(conn)
            &&& after.wires[conn].behaviors.contains_key(fn_name)
            &&& after.wires[conn].behaviors[fn_name] == handler
            &&& forall|other: Seq<char>|
                other != fn_name ==> (#[trigger] after.wires[conn].behaviors.contains_key(other)
                    == e.wires[conn].behaviors.contains_key(other)) && (e.wires[conn].behaviors.contains_key(other)
                    ==> after.wires[conn].behaviors[other] == e.wires[conn].behaviors[other])
            &&& after.wires[conn].channel == e.wires[conn].channel
            &&& forall|other: Seq<char>|
                other != conn ==> (#[trigger] after.wires.contains_key(other) == e.wires.contains_key(other)) && (
                e.wires.contains_key(other) ==> after.wires[other] == e.wires[other])
            &&& after.clock == e.clock
            &&& after.rng == e.rng
            &&& after.results == e.results
        }),
{
}

/// A behaviour that is set on some connections is made anew on each of them that is open
/// and has such a function, and on no other.
pub proof fn law_a_behaviour_reaches_its_connections(
    e: EngineView,
    conns: Set<Seq<char>>,
    fn_name: Seq<char>,
    kind: BehaviorKind,
    config: Json,
    schema: SchemaView,
    conn: Seq<char>,
)
    requires
        e.wires.contains_key(conn),
    ensures
        ({
            let after = e.with_behavior_on(conns, fn_name, kind, config, schema);
            &&& after.wires.contains_key(conn)
            &&& conns.contains(conn) && e.wires[conn].proto.function(fn_name) is Some
                ==> after.wires[conn].behaviors.contains_key(fn_name) && after.wires[conn].behaviors[fn_name]
                == kind.made(config, e.wires[conn].proto.function(fn_name)->0, schema)
            &&& !conns.contains(conn) || e.wires[conn].proto.function(fn_name) is None ==> after.wires[conn]
                == e.wires[conn]
            &&& after.clock == e.clock
            &&& after.rng == e.rng
        }),
{
}

/// The connections of an instance are those that it is the client or the server of.
pub proof fn law_connections_of_an_instance(e: EngineView, instance: Seq<char>, conn: Seq<char>)
    ensures
        e.connections_of(instance).contains(conn) <==> e.wires.contains_key(conn) && (e.wires[conn].client_id == instance
            || e.wires[conn].server_id == instance),
{
}

// ── calls ───────────────────────────────────────────────────────────────

/// A call goes out exactly where the connection is open, came up and is alive, its
/// protocol has the function, and the parameters encode. It then has the place of the
/// function as its number, its name, a new request id, and the framing and the timeout
/// of the wire.
pub proof fn law_a_call_goes_out(e: EngineView, conn: Seq<char>, fn_name: Seq<char>, params: Json)
    requires
        e.next_request_id < u64::MAX,
    ensures
        ({
            let wire = e.wires[conn];
            let out = e.outgoing(conn, fn_name, params);
            &&& !e.wires.contains_key(conn) ==> out == Err::<OutgoingView, RuntimeError>(RuntimeError::Transport)
            &&& e.wires.contains_key(conn) && wire.error is Some ==> out == Err::<OutgoingView, RuntimeError>(RuntimeError::Handshake)
            &&& e.wires.contains_key(conn) && wire.error is None && wire.dead ==> out == Err::<OutgoingView, RuntimeError>(RuntimeError::Timeout)
            &&& e.wires.contains_key(conn) && wire.error is None && !wire.dead ==> match wire.proto.function(fn_name) {
                None => out == Err::<OutgoingView, RuntimeError>(RuntimeError::UnknownCall),
                Some(f) => match wire.codec.encoded(params) {
                    None => out == Err::<OutgoingView, RuntimeError>(RuntimeError::Serialization),
                    Some(body) => {
                        &&& out is Ok
                        &&& out->Ok_0.conn == conn
                        &&& f.index < 0x1_0000 ==> out->Ok_0.call_id == f.index
                        &&& out->Ok_0.call_name == fn_name
                        &&& out->Ok_0.request_id == e.next_request_id + 1
                        &&& out->Ok_0.body == body
                        &&& out->Ok_0.framing == wire.framing
                        &&& out->Ok_0.one_way == f.oneway
                        &&& out->Ok_0.timeout_ms == wire.timeout_ms
                        &&& out->Ok_0.cont is None
                    },
                },
            }
        }),
{
}

// ── rebuilds ────────────────────────────────────────────────────────────

/// A rebuild forgets what was in flight and what was forwarded, and starts from the seed
/// of the session. What was settled, the time, what is queued and the ids given out
/// stay.
pub proof fn law_what_a_rebuild_forgets(e: EngineView, s: SessionView, greetings: Seq<GreetingView>, id: u64)
    ensures
        ({
            let after = e.rebuilt(s, greetings);
            &&& after.clock == e.clock
            &&& after.results == e.results
            &&& after.next_request_id == e.next_request_id
            &&& !after.in_flight.contains(id)
            &&& !after.forwards.contains_key(id)
            &&& !after.timeouts.contains_key(id)
            &&& s.connections.len() == 0 ==> after.rng == s.seed
        }),
{
}

/// A fresh engine stands at time zero with nothing queued, no wire, no call and the
/// seed 1.
pub proof fn law_an_engine_starts_empty(id: u64, conn: Seq<char>)
    ensures
        ({
            let e = EngineView::fresh();
            &&& e.clock.now == 0
            &&& e.clock.queue.len() == 0
            &&& e.rng == 1
            &&& e.next_request_id == 0
            &&& !e.wires.contains_key(conn)
            &&& !e.results.contains_key(id)
            &&& !e.in_flight.contains(id)
            &&& !e.forwards.contains_key(id)
            &&& !e.forwarding.contains(conn)
        }),
{
}

// ── frames ──────────────────────────────────────────────────────────────

/// What becomes of a frame on a wire is what its channel decides: nothing is queued for
/// one that is lost; one that is let through is queued for its end after its delay; and
/// one that is held has a flush queued 40 milliseconds on, where it asks for one.
pub proof fn law_what_becomes_of_a_frame(e: EngineView, conn: Seq<char>, dir: Direction, frame: Seq<u8>)
    requires
        e.wires.contains_key(conn),
    ensures
        ({
            let wire = e.wires[conn];
            let sent = wire.channel.sent(dir, frame, e.clock.millis(), e.rng);
            let after = e.emitted(conn, dir, frame);
            &&& after.rng == sent.rng
            &&& after.wires.contains_key(conn)
            &&& after.wires[conn].channel == sent.channel
            &&& after.wires[conn].dead == wire.dead
            &&& after.wires[conn].behaviors == wire.behaviors
            &&& sent.fate is Dropped ==> after.clock == e.clock
            &&& sent.fate == (Fate::Buffered { schedule_flush: false }) ==> after.clock == e.clock
            &&& sent.fate == (Fate::Buffered { schedule_flush: true }) ==> after.clock == e.clock.scheduled(
                40_000,
                EventView::FlushReorder { conn, dir },
            )
            &&& (sent.fate matches Fate::Deliver { frames, delay } && frames == seq![frame] && dir == Direction::Request)
                ==> after.clock == e.clock.scheduled(
                delay_micros(sent.fate->delay),
                EventView::DeliverToServer { conn, frame },
            )
            &&& (sent.fate matches Fate::Deliver { frames, delay } && frames == seq![frame] && dir == Direction::Response)
                ==> after.clock == e.clock.scheduled(
                delay_micros(sent.fate->delay),
                EventView::DeliverToClient { conn, frame },
            )
        }),
{
    reveal_with_fuel(deliveries, 2);
    assert(seq![frame].drop_last() =~= Seq::empty());
}

/// A frame for a connection that is not open goes nowhere.
pub proof fn law_a_frame_for_no_wire_goes_nowhere(e: EngineView, conn: Seq<char>, dir: Direction, frame: Seq<u8>)
    requires
        !e.wires.contains_key(conn),
    ensures
        e.emitted(conn, dir, frame) == e,
{
}

// ── forwards ────────────────────────────────────────────────────────────

/// A call is forwarded exactly over a connection that is open, came up, and has no
/// forwarded call on it already.
pub proof fn law_where_a_call_can_be_forwarded(e: EngineView, via: Seq<char>)
    ensures
        e.forward_refusal(via) is None <==> e.wires.contains_key(via) && e.wires[via].error is None
            && !e.forwarding.contains(via),
        !e.wires.contains_key(via) ==> e.forward_refusal(via) == Some("forward: no connection "@ + via),
        e.wires.contains_key(via) && (e.wires[via].error matches Some(error)) ==> e.forward_refusal(via) == Some(
            "forward: "@ + via + " refused ("@ + e.wires[via].error->0 + ")"@,
        ),
        e.wires.contains_key(via) && e.wires[via].error is None && e.forwarding.contains(via) ==> e.forward_refusal(via)
            == Some("forwarding cycle"@),
{
}

/// A forward over a connection whose server has no such function is answered with an
/// error of ordinal 0 that names the connection and the function, and leaves the
/// connection free.
pub proof fn law_a_forward_to_no_function_says_so(e: EngineView, cont: ContView, params: Json)
    requires
        e.wires.contains_key(cont.via),
        e.wires[cont.via].error is None,
        !e.wires[cont.via].dead,
        !e.forwarding.contains(cont.via),
        e.wires[cont.via].proto.function(cont.target_fn) is None,
    ensures
        e.forwarded(cont, params) == e.replied(
            cont.outer_conn,
            cont.outer_request_id,
            OutcomeView::Failure {
                ordinal: 0,
                data: Json::Object(
                    Map::empty().insert(
                        "error"@,
                        Json::Text("forward: "@ + cont.via + " has no "@ + cont.target_fn),
                    ),
                ),
            },
        ),
{
    reveal(EngineView::forwarded);
    assert(e.forwarding.insert(cont.via).remove(cont.via) =~= e.forwarding);
}

// ── what is announced ───────────────────────────────────────────────────

/// A hash is the number that its hex digits write behind `0x`, as far as 64 bits go.
/// Anything else announces zero.
pub proof fn law_a_hash_is_the_number_it_writes(digits: Seq<char>, other: Seq<char>)
    ensures
        digits.len() > 0 && digits[0] != '+' && all_digits(digits, 16) && digits_value(digits, 16) <= u64::MAX
            ==> hash_number(seq!['0', 'x'] + digits) == digits_value(digits, 16),
        digits.len() == 0 || (digits[0] != '+' && !(all_digits(digits, 16) && digits_value(digits, 16) <= u64::MAX))
            ==> hash_number(seq!['0', 'x'] + digits) == 0,
        other.len() < 2 || other[0] != '0' || other[1] != 'x' ==> hash_number(other) == 0,
{
    let all = seq!['0', 'x'] + digits;
    assert(all.skip(2) =~= digits);
    assert(all[0] == '0' && all[1] == 'x');
}

/// The two handshakes announce the hashes of the two ends, each its own.
pub proof fn law_each_end_announces_its_hash(
    s: SessionView,
    c: ConnectionView,
    a: int,
    b: int,
    schema: SchemaView,
    proto: ProtocolView,
)
    requires
        joins(s, c, a, b, schema, proto),
        hash_number(s.instances[a].ir_hash) <= u64::MAX,
        hash_number(s.instances[b].ir_hash) <= u64::MAX,
    ensures
        plan_of(s, c).client_hash == hash_number(s.instances[a].ir_hash),
        plan_of(s, c).server_hash == hash_number(s.instances[b].ir_hash),
        s.can_open(c),
        maybe_plan(s, c) == Some(plan_of(s, c)),
{
    law_instances_are_found_by_id(s, c.client_id, a);
    law_instances_are_found_by_id(s, c.server_id, b);
}

/// A connection cannot be opened whose client or server is not there, or whose server
/// speaks what is not compiled.
pub proof fn law_what_cannot_be_opened(s: SessionView, c: ConnectionView, b: int)
    ensures
        (forall|j: int| 0 <= j < s.instances.len() ==> (#[trigger] s.instances[j]).id != c.client_id) ==> !s.can_open(c),
        (forall|j: int| 0 <= j < s.instances.len() ==> (#[trigger] s.instances[j]).id != c.server_id) ==> !s.can_open(c),
        instance_at(s, c.server_id, b) && s.shape.protocol(s.instances[b].schema_ns, s.instances[b].protocol) is None
            ==> !s.can_open(c),
        !s.can_open(c) ==> maybe_plan(s, c) is None,
{
    law_instances_are_found_by_id(s, c.client_id, 0);
    law_instances_are_found_by_id(s, c.server_id, 0);
    law_instances_are_found_by_id(s, c.server_id, b);
}

/// A flush delivers at once, in turn, what its channel lets go of, and leaves the wire
/// holding nothing.
pub proof fn law_a_flush_delivers_what_was_held(e: EngineView, conn: Seq<char>, dir: Direction)
    requires
        e.wires.contains_key(conn),
    ensures
        e.flushed(conn, dir).wires.contains_key(conn),
        e.flushed(conn, dir).wires[conn].channel.held.len() == 0,
        !e.flushed(conn, dir).wires[conn].channel.flush_pending,
        e.flushed(conn, dir).wires[conn].channel.tap == e.wires[conn].channel.tap,
        e.flushed(conn, dir).clock == deliveries(e.clock, 0, conn, dir, e.wires[conn].channel.released(e.rng)),
        e.wires[conn].channel.released(e.rng).to_multiset() == e.wires[conn].channel.held.to_multiset(),
{
    law_a_flush_lets_go_of_all(e.wires[conn].channel, e.rng);
}

// ── events ──────────────────────────────────────────────────────────────

/// What an event comes to: a flush releases its wire, a reply that was put off is
/// answered, the end of a window times its call out, and a frame is read where its wire
/// speaks JSON-RPC, and handed to the host to decode where it speaks datagrams.
pub proof fn law_what_an_event_comes_to(
    e: EngineView,
    conn: Seq<char>,
    dir: Direction,
    id: u64,
    outcome: OutcomeView,
    frame: Seq<u8>,
)
    requires
        e.wires.contains_key(conn),
    ensures
        e.applied(EventView::FlushReorder { conn, dir }).engine == e.flushed(conn, dir),
        e.applied(EventView::FlushReorder { conn, dir }).work is None,
        e.applied(EventView::CompleteReply { conn, request_id: id, outcome }) == e.replied(conn, id, outcome),
        e.applied(EventView::Timeout { conn, request_id: id }) == e.timed_out(conn, id),
        e.wires[conn].framing == WireFraming::Datagram ==> e.applied(EventView::DeliverToServer { conn, frame }).work
            == Some(WorkView::DecodeRequest { conn, frame }) && e.applied(EventView::DeliverToServer { conn, frame }).engine
            == e,
        e.wires[conn].framing == WireFraming::Datagram ==> e.applied(EventView::DeliverToClient { conn, frame }).work
            == Some(WorkView::DecodeResponse { conn, frame }) && e.applied(
            EventView::DeliverToClient { conn, frame },
        ).engine == e,
        e.wires[conn].framing == WireFraming::Jsonrpc ==> e.applied(EventView::DeliverToServer { conn, frame })
            == e.served(conn, request_of_frame(frame)),
        e.wires[conn].framing == WireFraming::Jsonrpc ==> e.applied(EventView::DeliverToClient { conn, frame })
            == e.received(conn, response_of_frame(frame)),
{
    reveal(EngineView::applied);
}

/// A request whose behaviour is a script has the host run its source on the parameters
/// of the call.
pub proof fn law_a_script_is_run_on_the_call(
    e: EngineView,
    conn: Seq<char>,
    req: RequestView,
    source: Seq<char>,
    params: Json,
    oneway: bool,
)
    requires
        e.wires.contains_key(conn),
        dispatched(e.wires[conn].proto, req.call, req.params, e.wires[conn].codec, e.wires[conn].behaviors) == Ok::<
            StepView,
            RuntimeError,
        >(StepView::Script { source, params, oneway }),
    ensures
        e.served(conn, Some(req)).work == Some(
            WorkView::RunScript { conn, request_id: req.request_id, source, params, oneway },
        ),
        e.served(conn, Some(req)).engine.clock == e.clock,
{
}

/// A request whose answer is put off has the answer queued for when it is due.
pub proof fn law_an_answer_put_off_is_queued(
    e: EngineView,
    conn: Seq<char>,
    req: RequestView,
    delay_ms: Double,
    outcome: OutcomeView,
)
    requires
        e.wires.contains_key(conn),
        dispatched(e.wires[conn].proto, req.call, req.params, e.wires[conn].codec, e.wires[conn].behaviors) == Ok::<
            StepView,
            RuntimeError,
        >(StepView::After { delay_ms, outcome }),
    ensures
        e.served(conn, Some(req)).work is None,
        e.served(conn, Some(req)).engine.clock == e.clock.scheduled(
            delay_ms.micros() as i64,
            EventView::CompleteReply { conn, request_id: req.request_id, outcome },
        ),
{
}

/// A request that cannot be read, or that no behaviour answers, leaves the time, the
/// queue and the results as they were, and asks for nothing.
pub proof fn law_a_request_without_an_answer(e: EngineView, conn: Seq<char>, req: RequestView)
    requires
        e.wires.contains_key(conn),
    ensures
        e.served(conn, None) == (Turn { engine: e, work: None }),
        (dispatched(e.wires[conn].proto, req.call, req.params, e.wires[conn].codec, e.wires[conn].behaviors) is Err || dispatched(
            e.wires[conn].proto,
            req.call,
            req.params,
            e.wires[conn].codec,
            e.wires[conn].behaviors,
        ) == Ok::<StepView, RuntimeError>(StepView::Hang)) ==> e.served(conn, Some(req)).work is None && e.served(
            conn,
            Some(req),
        ).engine.clock == e.clock && e.served(conn, Some(req)).engine.results == e.results && e.served(
            conn,
            Some(req),
        ).engine.wires[conn].channel == e.wires[conn].channel,
{
}

/// A call that is issued is on its wire; a one-way one has `null` for its result at once
/// and is not waited for, and any other is in flight, and times out where there is a
/// timeout above zero.
pub proof fn law_what_issuing_a_call_does(e: EngineView, job: OutgoingView, frame: Seq<u8>)
    requires
        job.cont is None,
    ensures
        ({
            let sent = e.emitted(job.conn, Direction::Request, frame);
            let after = e.issued(job, frame);
            &&& after.wires == sent.wires
            &&& after.rng == sent.rng
            &&& job.one_way ==> after.results == e.results.insert(job.request_id, ResultView::Success(Json::Null))
                && after.in_flight == e.in_flight && after.clock == sent.clock
            &&& !job.one_way ==> after.results == e.results && after.in_flight == e.in_flight.insert(job.request_id)
            &&& !job.one_way && !(!job.timeout_ms.is_nan() && job.timeout_ms.scaled() > 0) ==> after.clock == sent.clock
            &&& !job.one_way && !job.timeout_ms.is_nan() && job.timeout_ms.scaled() > 0 ==> after.clock
                == sent.clock.scheduled(
                job.timeout_ms.micros() as i64,
                EventView::Timeout { conn: job.conn, request_id: job.request_id },
            )
        }),
{
}

/// A behaviour can be set on a wire exactly where it is open and its protocol has the
/// function.
pub proof fn law_where_a_wire_takes_a_behaviour(e: EngineView, conn: Seq<char>, fn_name: Seq<char>)
    ensures
        e.behavior_refusal(conn, fn_name) is None <==> e.wires.contains_key(conn) && e.wires[conn].proto.function(
            fn_name,
        ) is Some,
        !e.wires.contains_key(conn) ==> e.behavior_refusal(conn, fn_name) == Some("no connection "@ + conn),
        e.wires.contains_key(conn) && e.wires[conn].proto.function(fn_name) is None ==> e.behavior_refusal(conn, fn_name)
            == Some("no function "@ + fn_name),
{
}

} // verus!

//! The simulation's state: the compiled [`ProjectShape`], the nodes on the
//! canvas (each hosting one or more instances), and the connections between
//! instances. Plain data + operations; the engine turns each [`Connection`] into
//! a live wire and the host renders all of it.

use serde_json::Value;
use vstd::prelude::*;
use crate::behavior::{default_kind, default_kind_for, BehaviorKind};
use crate::clock::{next_number, number_after};
use crate::dict::{
    change_first, copied_all, count_where, find_first, first_where, lemma_filter_one, lemma_filtered, lemma_first_where, lemma_found,
    lemma_none_where, retain, views, Copied, Dict,
};
use crate::double::Double;
use crate::faults::{no_faults, FaultSpec};
use crate::format::Codec;
use crate::frame::maybe_text;
use crate::json::{content, Json};
use crate::shape::{find_protocol, FnShape, FnView, ProjectShape, ProjectView, ProtocolShape, ProtocolView, SchemaShape, SchemaView};
use crate::text::{
    decimal, joined, lemma_decimal_reads_back, lowercase, number_in, read_number, same_text, tagged, tagged_text,
    to_lowercase, trim, trimmed,
};

verus! {

// ── the types ───────────────────────────────────────────────────────────

/// Which side of a protocol an instance plays.
#[derive(Clone, Copy, Debug, PartialEq, Eq, Structural)]
pub enum Role {
    Server,
    Client,
}

/// Whether the sim advances on wall-clock time or only on explicit steps. The
/// engine itself is always stepped; this records the user's choice for the host.
#[derive(Clone, Copy, Debug, PartialEq, Eq, Structural)]
pub enum ClockMode {
    Real,
    Stepped,
}

/// One function's configured behaviour on a server instance.
#[derive(Debug, PartialEq)]
pub struct BehaviorSetting {
    pub kind: BehaviorKind,
    pub config: Value,
}

#[derive(Debug, PartialEq)]
pub struct Instance {
    pub id: String,
    pub name: String,
    pub role: Role,
    /// The schema namespace + protocol this instance speaks.
    pub schema_ns: String,
    pub protocol: String,
    /// Server only: one behaviour per function name. Empty for a client.
    pub behaviors: Dict<BehaviorSetting>,
    /// The schema's `ir_hash` when this instance was placed or last resynced. A
    /// `rebuild` does NOT touch it: so editing a schema and returning leaves a
    /// surviving instance built against the old IR, which the handshake then
    /// rejects (the version-skew demo). [`Session::resync_instance`] snaps it
    /// forward.
    pub ir_hash: String,
    /// The canvas node hosting this instance.
    pub node_id: String,
}

#[derive(Debug, PartialEq)]
pub struct Node {
    pub id: String,
    pub label: String,
    /// Canvas position (the host owns it; the engine ignores it).
    pub x: Double,
    pub y: Double,
    /// The instances in this box, in display order. Always one at least.
    pub instance_ids: Vec<String>,
}

/// Which framing a connection speaks: `Auto` follows the protocol's `@framing`,
/// the others override it (for the framing / codec compare).
#[derive(Clone, Copy, Debug, PartialEq, Eq, Structural)]
pub enum FramingChoice {
    Auto,
    Datagram,
    Jsonrpc,
}

#[derive(Debug, PartialEq)]
pub struct Connection {
    pub id: String,
    pub client_id: String,
    pub server_id: String,
    /// The unreliable-wire spec for this connection. Mutated in place by the
    /// inspector; the engine hands it to the wire.
    pub faults: FaultSpec,
    /// The framing this connection speaks.
    pub framing: FramingChoice,
    /// The wire format (JSON / MessagePack).
    pub wire_format: Codec,
}

#[derive(Debug, PartialEq)]
pub struct Session {
    /// The compiled project. Recomputed from the open schemas on load, so the
    /// session link never carries it.
    pub shape: ProjectShape,
    pub nodes: Vec<Node>,
    pub instances: Vec<Instance>,
    pub connections: Vec<Connection>,
    /// Fixed per-frame delivery delay for every wire, ms.
    pub latency_ms: Double,
    /// How long a client waits for a reply before it gives up.
    pub call_timeout_ms: Double,
    /// Seeds the fault rolls: a stepped run with a fixed seed is reproducible.
    pub seed: u32,
    pub clock_mode: ClockMode,
    /// Monotonic id counters. Not in a session link;
    /// [`Session::reseed_counters`] rebuilds them past everything in a loaded
    /// session.
    pub next_instance: u64,
    pub next_node: u64,
    pub next_conn: u64,
}

/// Where a freshly-added instance goes on the canvas.
#[derive(Debug)]
pub struct Placement {
    /// Drop onto an existing node to add the instance there; otherwise a new
    /// node is created at `x` / `y`.
    pub node_id: Option<String>,
    pub x: Double,
    pub y: Double,
}

/// What an instance speaks: namespace, protocol, and side.
#[derive(Debug)]
pub struct InstanceSpec {
    pub schema_ns: String,
    pub protocol: String,
    pub role: Role,
}

// ── what they hold ──────────────────────────────────────────────────────

#[verifier::ext_equal]
pub ghost struct SettingView {
    pub kind: BehaviorKind,
    pub config: Json,
}

#[verifier::ext_equal]
pub ghost struct InstanceView {
    pub id: Seq<char>,
    pub name: Seq<char>,
    pub role: Role,
    pub schema_ns: Seq<char>,
    pub protocol: Seq<char>,
    pub behaviors: Map<Seq<char>, SettingView>,
    pub ir_hash: Seq<char>,
    pub node_id: Seq<char>,
}

#[verifier::ext_equal]
pub ghost struct NodeView {
    pub id: Seq<char>,
    pub label: Seq<char>,
    pub x: Double,
    pub y: Double,
    pub instance_ids: Seq<Seq<char>>,
}

#[verifier::ext_equal]
pub ghost struct ConnectionView {
    pub id: Seq<char>,
    pub client_id: Seq<char>,
    pub server_id: Seq<char>,
    pub faults: FaultSpec,
    pub framing: FramingChoice,
    pub wire_format: Codec,
}

#[verifier::ext_equal]
pub ghost struct SessionView {
    pub shape: ProjectView,
    pub nodes: Seq<NodeView>,
    pub instances: Seq<InstanceView>,
    pub connections: Seq<ConnectionView>,
    pub latency_ms: Double,
    pub call_timeout_ms: Double,
    pub seed: u32,
    pub clock_mode: ClockMode,
    pub next_instance: u64,
    pub next_node: u64,
    pub next_conn: u64,
}

pub ghost struct PlaceView {
    pub node_id: Option<Seq<char>>,
    pub x: Double,
    pub y: Double,
}

pub ghost struct SpecView {
    pub schema_ns: Seq<char>,
    pub protocol: Seq<char>,
    pub role: Role,
}

impl View for BehaviorSetting {
    type V = SettingView;

    open spec fn view(&self) -> SettingView {
        SettingView { kind: self.kind, config: content(self.config) }
    }
}

impl View for Instance {
    type V = InstanceView;

    open spec fn view(&self) -> InstanceView {
        InstanceView {
            id: self.id@,
            name: self.name@,
            role: self.role,
            schema_ns: self.schema_ns@,
            protocol: self.protocol@,
            behaviors: self.behaviors@,
            ir_hash: self.ir_hash@,
            node_id: self.node_id@,
        }
    }
}

impl View for Node {
    type V = NodeView;

    open spec fn view(&self) -> NodeView {
        NodeView {
            id: self.id@,
            label: self.label@,
            x: self.x,
            y: self.y,
            instance_ids: views(self.instance_ids@),
        }
    }
}

impl View for Connection {
    type V = ConnectionView;

    open spec fn view(&self) -> ConnectionView {
        ConnectionView {
            id: self.id@,
            client_id: self.client_id@,
            server_id: self.server_id@,
            faults: self.faults,
            framing: self.framing,
            wire_format: self.wire_format,
        }
    }
}

impl View for Session {
    type V = SessionView;

    open spec fn view(&self) -> SessionView {
        SessionView {
            shape: self.shape@,
            nodes: views(self.nodes@),
            instances: views(self.instances@),
            connections: views(self.connections@),
            latency_ms: self.latency_ms,
            call_timeout_ms: self.call_timeout_ms,
            seed: self.seed,
            clock_mode: self.clock_mode,
            next_instance: self.next_instance,
            next_node: self.next_node,
            next_conn: self.next_conn,
        }
    }
}

impl View for Placement {
    type V = PlaceView;

    open spec fn view(&self) -> PlaceView {
        PlaceView { node_id: maybe_text(self.node_id), x: self.x, y: self.y }
    }
}

impl View for InstanceSpec {
    type V = SpecView;

    open spec fn view(&self) -> SpecView {
        SpecView { schema_ns: self.schema_ns@, protocol: self.protocol@, role: self.role }
    }
}

// ── copies ──────────────────────────────────────────────────────────────

impl Copied for BehaviorSetting {
    fn copied(&self) -> (r: Self) {
        BehaviorSetting { kind: self.kind, config: self.config.clone() }
    }
}

impl Copied for Instance {
    fn copied(&self) -> (r: Self) {
        Instance {
            id: self.id.clone(),
            name: self.name.clone(),
            role: self.role,
            schema_ns: self.schema_ns.clone(),
            protocol: self.protocol.clone(),
            behaviors: self.behaviors.copied(),
            ir_hash: self.ir_hash.clone(),
            node_id: self.node_id.clone(),
        }
    }
}

impl Copied for Node {
    fn copied(&self) -> (r: Self) {
        Node {
            id: self.id.clone(),
            label: self.label.clone(),
            x: self.x,
            y: self.y,
            instance_ids: copied_all(&self.instance_ids),
        }
    }
}

impl Copied for Connection {
    fn copied(&self) -> (r: Self) {
        Connection {
            id: self.id.clone(),
            client_id: self.client_id.clone(),
            server_id: self.server_id.clone(),
            faults: self.faults,
            framing: self.framing,
            wire_format: self.wire_format,
        }
    }
}

impl Copied for Session {
    fn copied(&self) -> (r: Self) {
        Session {
            shape: self.shape.copied(),
            nodes: copied_all(&self.nodes),
            instances: copied_all(&self.instances),
            connections: copied_all(&self.connections),
            latency_ms: self.latency_ms,
            call_timeout_ms: self.call_timeout_ms,
            seed: self.seed,
            clock_mode: self.clock_mode,
            next_instance: self.next_instance,
            next_node: self.next_node,
            next_conn: self.next_conn,
        }
    }
}

impl Clone for BehaviorSetting {
    fn clone(&self) -> (r: Self)
        ensures
            r@ == self@,
    {
        self.copied()
    }
}

impl Clone for Instance {
    fn clone(&self) -> (r: Self)
        ensures
            r@ == self@,
    {
        self.copied()
    }
}

impl Clone for Node {
    fn clone(&self) -> (r: Self)
        ensures
            r@ == self@,
    {
        self.copied()
    }
}

impl Clone for Connection {
    fn clone(&self) -> (r: Self)
        ensures
            r@ == self@,
    {
        self.copied()
    }
}

impl Clone for Session {
    fn clone(&self) -> (r: Self)
        ensures
            r@ == self@,
    {
        self.copied()
    }
}

// ── defaults ────────────────────────────────────────────────────────────

/// The bits of 3000.0: what a client waits when a session does not say, in
/// milliseconds.
pub const DEFAULT_CALL_TIMEOUT_BITS: u64 = 0x40a7_7000_0000_0000;

/// What a client waits when a session does not say, in milliseconds.
pub fn default_call_timeout_ms() -> (r: Double)
    ensures
        r.bits == DEFAULT_CALL_TIMEOUT_BITS,
{
    Double { bits: DEFAULT_CALL_TIMEOUT_BITS }
}

pub fn default_seed() -> (r: u32)
    ensures
        r == 1,
{
    1
}

pub fn default_clock_mode() -> (r: ClockMode)
    ensures
        r == ClockMode::Real,
{
    ClockMode::Real
}

impl Default for FramingChoice {
    fn default() -> (r: Self)
        ensures
            r == FramingChoice::Auto,
    {
        FramingChoice::Auto
    }
}

impl Default for Placement {
    fn default() -> (r: Self)
        ensures
            r@ == (PlaceView { node_id: None, x: Double { bits: 0 }, y: Double { bits: 0 } }),
    {
        Placement { node_id: None, x: Double { bits: 0 }, y: Double { bits: 0 } }
    }
}

impl FramingChoice {
    /// The name that session links and the host write.
    pub open spec fn tag(self) -> Seq<char> {
        match self {
            FramingChoice::Auto => "auto"@,
            FramingChoice::Datagram => "datagram"@,
            FramingChoice::Jsonrpc => "jsonrpc"@,
        }
    }

    pub fn parse(s: &str) -> (r: Option<Self>)
        ensures
            match r {
                Some(choice) => s@ == choice.tag(),
                None => forall|choice: FramingChoice| s@ != #[trigger] choice.tag(),
            },
    {
        if same_text(s, "auto") {
            Some(FramingChoice::Auto)
        } else if same_text(s, "datagram") {
            Some(FramingChoice::Datagram)
        } else if same_text(s, "jsonrpc") {
            Some(FramingChoice::Jsonrpc)
        } else {
            None
        }
    }
}

// ── lookups ─────────────────────────────────────────────────────────────

impl SessionView {
    /// The empty session over `shape`.
    pub open spec fn empty(shape: ProjectView) -> SessionView {
        SessionView {
            shape,
            nodes: Seq::empty(),
            instances: Seq::empty(),
            connections: Seq::empty(),
            latency_ms: Double { bits: 0 },
            call_timeout_ms: Double { bits: DEFAULT_CALL_TIMEOUT_BITS },
            seed: 1,
            clock_mode: ClockMode::Real,
            next_instance: 0,
            next_node: 0,
            next_conn: 0,
        }
    }

    /// The instance `id`.
    pub open spec fn instance(self, id: Seq<char>) -> Option<InstanceView> {
        first_where(self.instances, |i: InstanceView| i.id == id)
    }

    /// The node `id`.
    pub open spec fn node(self, id: Seq<char>) -> Option<NodeView> {
        first_where(self.nodes, |n: NodeView| n.id == id)
    }

    /// The connection `id`.
    pub open spec fn connection(self, id: Seq<char>) -> Option<ConnectionView> {
        first_where(self.connections, |c: ConnectionView| c.id == id)
    }

    /// Whether a connection can be opened: both its ends exist, and the server's
    /// protocol is compiled.
    pub open spec fn can_open(self, c: ConnectionView) -> bool {
        &&& self.instance(c.client_id) is Some
        &&& self.instance(c.server_id) matches Some(server) && self.shape.protocol(server.schema_ns, server.protocol)
            is Some
    }

    /// Whether every connection can be opened.
    pub open spec fn wired(self) -> bool {
        forall|i: int| 0 <= i < self.connections.len() ==> self.can_open(#[trigger] self.connections[i])
    }

    /// Whether the connection at `i` is the first of its id.
    pub open spec fn leads(self, i: int) -> bool {
        forall|j: int| 0 <= j < i ==> (#[trigger] self.connections[j]).id != self.connections[i].id
    }

    /// Whether every connection can be opened that is not among the live ones: the
    /// first of each id.
    pub open spec fn opens_beside(self, live: Set<Seq<char>>) -> bool {
        forall|i: int|
            0 <= i < self.connections.len() && self.leads(i) && !live.contains((#[trigger] self.connections[i]).id)
                ==> self.can_open(self.connections[i])
    }
}

impl Session {
    /// An empty session over `shape`.
    pub fn empty(shape: ProjectShape) -> (r: Self)
        ensures
            r@ == SessionView::empty(shape@),
    {
        let r = Session {
            shape,
            nodes: Vec::new(),
            instances: Vec::new(),
            connections: Vec::new(),
            latency_ms: Double { bits: 0 },
            call_timeout_ms: default_call_timeout_ms(),
            seed: default_seed(),
            clock_mode: default_clock_mode(),
            next_instance: 0,
            next_node: 0,
            next_conn: 0,
        };
        assert(r@.nodes =~= Seq::empty());
        assert(r@.instances =~= Seq::empty());
        assert(r@.connections =~= Seq::empty());
        r
    }

    fn instance_at(&self, id: &str) -> (r: Option<usize>)
        ensures
            match r {
                Some(i) => i < self.instances@.len() && self@.instance(id@) == Some(self.instances@[i as int]@)
                    && crate::dict::is_first(self@.instances, |x: InstanceView| x.id == id@, i as int),
                None => self@.instance(id@) is None && forall|k: int|
                    0 <= k < self@.instances.len() ==> (#[trigger] self@.instances[k]).id != id@,
            },
    {
        let ghost pred = |x: InstanceView| x.id == id@;
        let r = find_first(
            &self.instances,
            |i: &Instance| -> (b: bool) ensures b == (i@.id == id@) { same_text(i.id.as_str(), id) },
            Ghost(pred),
        );
        proof {
            if r is None {
                assert forall|k: int| 0 <= k < self@.instances.len() implies (#[trigger] self@.instances[k]).id
                    != id@ by {
                    assert(!pred(self@.instances[k]));
                }
            }
        }
        r
    }

    fn node_at(&self, id: &str) -> (r: Option<usize>)
        ensures
            match r {
                Some(i) => i < self.nodes@.len() && self@.node(id@) == Some(self.nodes@[i as int]@)
                    && crate::dict::is_first(self@.nodes, |n: NodeView| n.id == id@, i as int),
                None => self@.node(id@) is None && forall|k: int|
                    0 <= k < self@.nodes.len() ==> (#[trigger] self@.nodes[k]).id != id@,
            },
    {
        let ghost pred = |n: NodeView| n.id == id@;
        let r = find_first(
            &self.nodes,
            |n: &Node| -> (b: bool) ensures b == (n@.id == id@) { same_text(n.id.as_str(), id) },
            Ghost(pred),
        );
        proof {
            if r is None {
                assert forall|k: int| 0 <= k < self@.nodes.len() implies (#[trigger] self@.nodes[k]).id != id@ by {
                    assert(!pred(self@.nodes[k]));
                }
            }
        }
        r
    }

    fn connection_at(&self, id: &str) -> (r: Option<usize>)
        ensures
            match r {
                Some(i) => i < self.connections@.len() && self@.connection(id@) == Some(
                    self.connections@[i as int]@,
                ) && crate::dict::is_first(self@.connections, |c: ConnectionView| c.id == id@, i as int),
                None => self@.connection(id@) is None && forall|k: int|
                    0 <= k < self@.connections.len() ==> (#[trigger] self@.connections[k]).id != id@,
            },
    {
        let ghost pred = |c: ConnectionView| c.id == id@;
        let r = find_first(
            &self.connections,
            |c: &Connection| -> (b: bool) ensures b == (c@.id == id@) { same_text(c.id.as_str(), id) },
            Ghost(pred),
        );
        proof {
            if r is None {
                assert forall|k: int| 0 <= k < self@.connections.len() implies (#[trigger] self@.connections[k]).id
                    != id@ by {
                    assert(!pred(self@.connections[k]));
                }
            }
        }
        r
    }

    pub fn instance(&self, id: &str) -> (r: Option<&Instance>)
        ensures
            match r {
                Some(i) => self@.instance(id@) == Some(i@),
                None => self@.instance(id@) is None,
            },
    {
        match self.instance_at(id) {
            Some(i) => Some(&self.instances[i]),
            None => None,
        }
    }

    /// The instance `id`, to edit.
    pub fn instance_mut(&mut self, id: &str) -> (r: Option<&mut Instance>)
        ensures
            match r {
                Some(inst) => old(self)@.instance(id@) == Some(inst@) && final(self)@ == (SessionView {
                    instances: change_first(
                        old(self)@.instances,
                        |i: InstanceView| i.id == id@,
                        |i: InstanceView| final(inst)@,
                    ),
                    ..old(self)@
                }),
                None => old(self)@.instance(id@) is None && final(self)@ == old(self)@,
            },
    {
        let ghost before = self@;
        let ghost after = final(self)@;
        match self.instance_at(id) {
            Some(at) => {
                let inst = &mut self.instances[at];
                proof {
                    let change = |i: InstanceView| final(inst)@;
                    lemma_first_where(before.instances, |i: InstanceView| i.id == id@, change, at as int);
                    assert(after.instances =~= before.instances.update(at as int, final(inst)@));
                    assert(after =~= SessionView {
                        instances: before.instances.update(at as int, final(inst)@),
                        ..before
                    });
                }
                Some(inst)
            },
            None => None,
        }
    }

    pub fn node(&self, id: &str) -> (r: Option<&Node>)
        ensures
            match r {
                Some(n) => self@.node(id@) == Some(n@),
                None => self@.node(id@) is None,
            },
    {
        match self.node_at(id) {
            Some(i) => Some(&self.nodes[i]),
            None => None,
        }
    }

    /// The connection `id`.
    pub fn connection(&self, id: &str) -> (r: Option<&Connection>)
        ensures
            match r {
                Some(c) => self@.connection(id@) == Some(c@),
                None => self@.connection(id@) is None,
            },
    {
        match self.connection_at(id) {
            Some(i) => Some(&self.connections[i]),
            None => None,
        }
    }

    /// Every connection `instance_id` is an end of.
    pub fn connections_for(&self, instance_id: &str) -> (r: Vec<&Connection>)
        ensures
            views(r@) == self@.connections.filter(
                |c: ConnectionView| c.client_id == instance_id@ || c.server_id == instance_id@,
            ),
    {
        let ghost pred = |c: ConnectionView| c.client_id == instance_id@ || c.server_id == instance_id@;
        let ghost all = self@.connections;
        let mut r: Vec<&Connection> = Vec::new();
        let mut i: usize = 0;
        proof {
            reveal(Seq::filter);
            assert(all.take(0) =~= Seq::empty());
            assert(views(r@) =~= Seq::empty());
        }
        while i < self.connections.len()
            invariant
                i <= self.connections@.len(),
                all == self@.connections,
                pred == (|c: ConnectionView| c.client_id == instance_id@ || c.server_id == instance_id@),
                views(r@) == all.take(i as int).filter(pred),
            decreases self.connections@.len() - i,
        {
            let c = &self.connections[i];
            proof {
                reveal(Seq::filter);
                assert(all.take(i + 1).drop_last() =~= all.take(i as int));
                assert(all.take(i + 1).last() == c@);
            }
            if same_text(c.client_id.as_str(), instance_id) || same_text(c.server_id.as_str(), instance_id) {
                let ghost was = views(r@);
                r.push(c);
                assert(views(r@) =~= was.push(c@));
            }
            i = i + 1;
        }
        assert(all.take(i as int) =~= all);
        r
    }

    /// Whether every connection can be opened: both its ends exist, and the
    /// server's protocol is compiled.
    pub fn is_wired(&self) -> (r: bool)
        ensures
            r == self@.wired(),
    {
        let mut i: usize = 0;
        while i < self.connections.len()
            invariant
                i <= self.connections@.len(),
                forall|k: int| 0 <= k < i ==> self@.can_open(#[trigger] self@.connections[k]),
            decreases self.connections@.len() - i,
        {
            let c = &self.connections[i];
            assert(self@.connections[i as int] == c@);
            if !self.opens(c) {
                return false;
            }
            i = i + 1;
        }
        true
    }

    /// Whether `c` can be opened.
    pub fn opens(&self, c: &Connection) -> (r: bool)
        ensures
            r == self@.can_open(c@),
    {
        if self.instance(c.client_id.as_str()).is_none() {
            return false;
        }
        match self.instance(c.server_id.as_str()) {
            None => false,
            Some(server) => find_protocol(
                &self.shape,
                server.schema_ns.as_str(),
                server.protocol.as_str(),
            ).is_some(),
        }
    }
}

// ── instances / nodes ───────────────────────────────────────────────────

/// The setting that a fresh server function gets.
pub open spec fn fresh_setting(function: FnView, schema: SchemaView) -> SettingView {
    let kind = default_kind(function);
    SettingView { kind, config: Json::Object(kind.initial_config(function, schema)) }
}

/// A fresh setting for each of `functions`, by its name.
pub open spec fn fresh_settings(functions: Seq<FnView>, schema: SchemaView) -> Map<Seq<char>, SettingView>
    decreases functions.len(),
{
    if functions.len() == 0 {
        Map::empty()
    } else {
        fresh_settings(functions.drop_last(), schema).insert(
            functions.last().name,
            fresh_setting(functions.last(), schema),
        )
    }
}

/// The behaviours that a server of this protocol starts with: none, where the
/// protocol is not compiled.
pub open spec fn seeded(shape: ProjectView, ns: Seq<char>, protocol: Seq<char>) -> Map<Seq<char>, SettingView> {
    match shape.protocol(ns, protocol) {
        Some((schema, proto)) => fresh_settings(proto.functions, schema),
        None => Map::empty(),
    }
}

/// The hash of the schema that the protocol is in, or `0x0` where it is not
/// compiled.
pub open spec fn hash_of(shape: ProjectView, ns: Seq<char>, protocol: Seq<char>) -> Seq<char> {
    match shape.protocol(ns, protocol) {
        Some((schema, _)) => schema.ir_hash,
        None => "0x0"@,
    }
}

impl SessionView {
    /// The id that the next instance gets.
    pub open spec fn next_instance_id(self) -> Seq<char> {
        tagged("i"@, next_number(self.next_instance))
    }

    /// The id that the next node gets.
    pub open spec fn next_node_id(self) -> Seq<char> {
        tagged("n"@, next_number(self.next_node))
    }

    /// The id that the next connection gets.
    pub open spec fn next_conn_id(self) -> Seq<char> {
        tagged("c"@, next_number(self.next_conn))
    }

    /// The node that a placement drops an instance onto.
    pub open spec fn host(self, place: PlaceView) -> Option<NodeView> {
        match place.node_id {
            Some(nid) => self.node(nid),
            None => None,
        }
    }

    /// The name of the next instance of `protocol`: the protocol in lower case,
    /// and how many there are of it then.
    pub open spec fn next_name(self, protocol: Seq<char>) -> Seq<char> {
        let n = self.instances.filter(|i: InstanceView| i.protocol == protocol).len();
        tagged(lowercase(protocol) + "-"@, next_number(n as u64))
    }

    /// With one more instance, on the node that `place` names or else in a fresh
    /// one.
    pub open spec fn with_instance(self, spec: SpecView, place: PlaceView) -> SessionView {
        let id = self.next_instance_id();
        let host = self.host(place);
        let instance = InstanceView {
            id,
            name: self.next_name(spec.protocol),
            role: spec.role,
            schema_ns: spec.schema_ns,
            protocol: spec.protocol,
            behaviors: if spec.role == Role::Server {
                seeded(self.shape, spec.schema_ns, spec.protocol)
            } else {
                Map::empty()
            },
            ir_hash: hash_of(self.shape, spec.schema_ns, spec.protocol),
            node_id: match host {
                Some(host) => host.id,
                None => self.next_node_id(),
            },
        };
        SessionView {
            nodes: match host {
                Some(host) => change_first(
                    self.nodes,
                    |n: NodeView| n.id == host.id,
                    |n: NodeView| NodeView { instance_ids: n.instance_ids.push(id), ..n },
                ),
                None => self.nodes.push(
                    NodeView {
                        id: self.next_node_id(),
                        label: tagged("Machine "@, next_number(self.next_node)),
                        x: place.x.above_zero(),
                        y: place.y.above_zero(),
                        instance_ids: seq![id],
                    },
                ),
            },
            next_node: match host {
                Some(_) => self.next_node,
                None => next_number(self.next_node),
            },
            instances: self.instances.push(instance),
            next_instance: next_number(self.next_instance),
            ..self
        }
    }

    /// With the node `id` renamed. A blank label is no label.
    pub open spec fn with_label(self, id: Seq<char>, label: Seq<char>) -> SessionView {
        if trimmed(label).len() == 0 {
            self
        } else {
            SessionView {
                nodes: change_first(
                    self.nodes,
                    |n: NodeView| n.id == id,
                    |n: NodeView| NodeView { label: trimmed(label), ..n },
                ),
                ..self
            }
        }
    }

    /// Without the instance `id`, the connections that it was an end of, and its
    /// node if it leaves the node empty.
    pub open spec fn without_instance(self, id: Seq<char>) -> SessionView {
        SessionView {
            instances: self.instances.filter(|i: InstanceView| i.id != id),
            connections: self.connections.filter(|c: ConnectionView| c.client_id != id && c.server_id != id),
            nodes: match self.instance(id) {
                None => self.nodes,
                Some(instance) => nodes_without(self.nodes, instance.node_id, id),
            },
            ..self
        }
    }
}

/// `node` without the instance `id`.
pub open spec fn taken_out(node: NodeView, id: Seq<char>) -> NodeView {
    NodeView { instance_ids: node.instance_ids.filter(other_than(id)), ..node }
}

/// Every text but `id`.
pub open spec fn other_than(id: Seq<char>) -> spec_fn(Seq<char>) -> bool {
    |x: Seq<char>| x != id
}

/// `nodes` with `id` taken out of the node `nid`, and without that node if it is
/// then empty.
pub open spec fn nodes_without(nodes: Seq<NodeView>, nid: Seq<char>, id: Seq<char>) -> Seq<NodeView> {
    let left = change_first(nodes, |n: NodeView| n.id == nid, |n: NodeView| taken_out(n, id));
    match first_where(nodes, |n: NodeView| n.id == nid) {
        Some(n) if taken_out(n, id).instance_ids.len() == 0 => left.filter(|n: NodeView| n.id != nid),
        _ => left,
    }
}

fn fresh(function: &FnShape, schema: &SchemaShape) -> (r: BehaviorSetting)
    ensures
        r@ == fresh_setting(function@, schema@),
{
    let kind = default_kind_for(function);
    BehaviorSetting { kind, config: kind.default_config(function, schema) }
}

impl Session {
    /// A server's per-function behaviour map from the protocol shape.
    fn seed_behaviors(&self, schema_ns: &str, protocol: &str) -> (r: Dict<BehaviorSetting>)
        ensures
            r@ == seeded(self.shape@, schema_ns@, protocol@),
    {
        let mut out: Dict<BehaviorSetting> = Dict::new();
        match find_protocol(&self.shape, schema_ns, protocol) {
            None => out,
            Some((schema, proto)) => {
                let ghost all = proto@.functions;
                let mut i: usize = 0;
                assert(all.take(0) =~= Seq::empty());
                while i < proto.functions.len()
                    invariant
                        i <= proto.functions@.len(),
                        all == proto@.functions,
                        out@ == fresh_settings(all.take(i as int), schema@),
                    decreases proto.functions@.len() - i,
                {
                    let f = &proto.functions[i];
                    proof {
                        assert(all.take(i + 1).drop_last() =~= all.take(i as int));
                        assert(all.take(i + 1).last() == f@);
                    }
                    out.insert(f.name.clone(), fresh(f, schema));
                    i = i + 1;
                }
                assert(all.take(i as int) =~= all);
                out
            },
        }
    }

    /// Adds an instance of `spec`, either onto an existing node or in a fresh
    /// one. Returns its id.
    pub fn add_instance(&mut self, spec: InstanceSpec, place: Placement) -> (r: String)
        ensures
            final(self)@ == old(self)@.with_instance(spec@, place@),
            r@ == old(self)@.next_instance_id(),
    {
        let ghost before = self@;
        let ghost spec0 = spec@;
        let ghost place0 = place@;
        let protocol = spec.protocol.as_str();
        let n: usize = count_where(
            &self.instances,
            |i: &Instance| -> (b: bool) ensures b == (i@.protocol == protocol@) { same_text(i.protocol.as_str(), protocol) },
            Ghost(|i: InstanceView| i.protocol == protocol@),
        );
        self.next_instance = number_after(self.next_instance);
        let id = tagged_text("i", self.next_instance);
        let behaviors = if spec.role == Role::Server {
            self.seed_behaviors(spec.schema_ns.as_str(), spec.protocol.as_str())
        } else {
            Dict::new()
        };
        let ir_hash = match find_protocol(&self.shape, spec.schema_ns.as_str(), spec.protocol.as_str()) {
            Some((schema, _)) => schema.ir_hash.clone(),
            None => "0x0".to_owned(),
        };
        let host: Option<usize> = match &place.node_id {
            Some(nid) => self.node_at(nid.as_str()),
            None => None,
        };
        let node_id = match host {
            Some(i) => {
                let nid = self.nodes[i].id.clone();
                proof {
                    lemma_first_where(
                        before.nodes,
                        |n: NodeView| n.id == nid@,
                        |n: NodeView| NodeView { instance_ids: n.instance_ids.push(id@), ..n },
                        i as int,
                    );
                }
                self.nodes[i].instance_ids.push(id.clone());
                proof {
                    assert(self@.nodes[i as int].instance_ids =~= before.nodes[i as int].instance_ids.push(id@));
                    assert(self@.nodes =~= before.with_instance(spec0, place0).nodes);
                }
                nid
            },
            None => {
                self.next_node = number_after(self.next_node);
                let nid = tagged_text("n", self.next_node);
                let mut ids: Vec<String> = Vec::new();
                ids.push(id.clone());
                assert(views(ids@) =~= seq![id@]);
                self.nodes.push(
                    Node {
                        id: nid.clone(),
                        label: tagged_text("Machine ", self.next_node),
                        x: place.x.max_zero(),
                        y: place.y.max_zero(),
                        instance_ids: ids,
                    },
                );
                assert(self@.nodes =~= before.with_instance(spec0, place0).nodes);
                nid
            },
        };
        let mut stem = to_lowercase(spec.protocol.as_str());
        stem.append("-");
        let name = tagged_text(stem.as_str(), number_after(n as u64));
        self.instances.push(
            Instance {
                id: id.clone(),
                name,
                role: spec.role,
                schema_ns: spec.schema_ns,
                protocol: spec.protocol,
                behaviors,
                ir_hash,
                node_id,
            },
        );
        assert(self@.instances =~= before.with_instance(spec0, place0).instances);
        assert(self@ =~= before.with_instance(spec0, place0));
        id
    }

    /// Renames a machine box. An empty / blank label is ignored.
    pub fn rename_node(&mut self, node_id: &str, label: &str)
        ensures
            final(self)@ == old(self)@.with_label(node_id@, label@),
    {
        let ghost before = self@;
        let ghost pred = |n: NodeView| n.id == node_id@;
        let ghost change = |n: NodeView| NodeView { label: trimmed(label@), ..n };
        let trimmed_label = trim(label);
        if trimmed_label.is_empty() {
            return;
        }
        match self.node_at(node_id) {
            Some(i) => {
                proof {
                    lemma_first_where(before.nodes, pred, change, i as int);
                }
                self.nodes[i].label = trimmed_label.to_owned();
                assert(self@.nodes =~= before.nodes.update(i as int, change(before.nodes[i as int])));
            },
            None => {
                proof {
                    lemma_none_where(before.nodes, pred, change);
                }
            },
        }
    }

    /// Moves a node (and every instance it hosts) on the canvas: to the nearest
    /// whole position, and none below zero.
    pub fn move_node(&mut self, node_id: &str, x: Double, y: Double)
        ensures
            exists|nx: Double, ny: Double| #[trigger]
                nx.is_whole_of(x) && #[trigger] ny.is_whole_of(y) && final(self)@ == (SessionView {
                    nodes: change_first(
                        old(self)@.nodes,
                        |n: NodeView| n.id == node_id@,
                        |n: NodeView| NodeView { x: nx, y: ny, ..n },
                    ),
                    ..old(self)@
                }),
    {
        let ghost before = self@;
        let ghost pred = |n: NodeView| n.id == node_id@;
        let nx = x.round_above_zero();
        let ny = y.round_above_zero();
        let ghost change = |n: NodeView| NodeView { x: nx, y: ny, ..n };
        assert(nx.is_whole_of(x) && ny.is_whole_of(y));
        match self.node_at(node_id) {
            Some(i) => {
                proof {
                    lemma_first_where(before.nodes, pred, change, i as int);
                }
                self.nodes[i].x = nx;
                self.nodes[i].y = ny;
                assert(self@.nodes =~= before.nodes.update(i as int, change(before.nodes[i as int])));
            },
            None => {
                proof {
                    lemma_none_where(before.nodes, pred, change);
                }
            },
        }
        assert(self@ =~= SessionView { nodes: change_first(before.nodes, pred, change), ..before });
    }

    /// Removes an instance, the connections it was an end of, and its node if it
    /// leaves the node empty.
    pub fn remove_instance(&mut self, id: &str)
        ensures
            final(self)@ == old(self)@.without_instance(id@),
    {
        let ghost before = self@;
        let node_id: Option<String> = match self.instance(id) {
            Some(i) => Some(i.node_id.clone()),
            None => None,
        };
        retain(
            &mut self.instances,
            |i: &Instance| -> (b: bool) ensures b == (i@.id != id@) { !same_text(i.id.as_str(), id) },
            Ghost(|i: InstanceView| i.id != id@),
        );
        retain(
            &mut self.connections,
            |c: &Connection| -> (b: bool) ensures b == (c@.client_id != id@ && c@.server_id != id@) {
                !same_text(c.client_id.as_str(), id) && !same_text(c.server_id.as_str(), id)
            },
            Ghost(|c: ConnectionView| c.client_id != id@ && c.server_id != id@),
        );
        if let Some(nid) = node_id {
            self.leave_node(nid.as_str(), id);
        }
        assert(self@ =~= before.without_instance(id@));
    }

    /// Takes `id` out of the node `nid`, and the node off the canvas if it is then
    /// empty.
    fn leave_node(&mut self, nid: &str, id: &str)
        ensures
            final(self)@ == (SessionView { nodes: nodes_without(old(self)@.nodes, nid@, id@), ..old(self)@ }),
    {
        let ghost before = self@;
        let ghost pred = |n: NodeView| n.id == nid@;
        let ghost gone = other_than(id@);
        let ghost change = |n: NodeView| taken_out(n, id@);
        match self.node_at(nid) {
            None => {
                proof {
                    lemma_none_where(before.nodes, pred, change);
                }
            },
            Some(i) => {
                proof {
                    lemma_first_where(before.nodes, pred, change, i as int);
                }
                let mut ids: Vec<String> = copied_all(&self.nodes[i].instance_ids);
                retain(
                    &mut ids,
                    |x: &String| -> (b: bool) ensures b == (x@ != id@) { !same_text(x.as_str(), id) },
                    Ghost(gone),
                );
                let empty = ids.len() == 0;
                self.nodes[i].instance_ids = ids;
                assert(self@.nodes =~= before.nodes.update(i as int, change(before.nodes[i as int])));
                if empty {
                    retain(
                        &mut self.nodes,
                        |n: &Node| -> (b: bool) ensures b == (n@.id != nid@) { !same_text(n.id.as_str(), nid) },
                        Ghost(|n: NodeView| n.id != nid@),
                    );
                }
            },
        }
        assert(self@ =~= SessionView { nodes: nodes_without(before.nodes, nid@, id@), ..before });
    }
}

// ── connections ─────────────────────────────────────────────────────────

impl SessionView {
    /// Why `client_id` and `server_id` cannot be connected.
    pub open spec fn connect_refusal(self, client_id: Seq<char>, server_id: Seq<char>) -> Option<Seq<char>> {
        match (self.instance(client_id), self.instance(server_id)) {
            (Some(client), Some(server)) => if client.role != Role::Client || server.role != Role::Server {
                Some("connect: need a client and a server"@)
            } else if client.schema_ns != server.schema_ns || client.protocol != server.protocol {
                Some("connect: "@ + client.protocol + " ≠ "@ + server.protocol)
            } else if self.connected(client_id, server_id) {
                Some("connect: "@ + client.name + " ↔ "@ + server.name + " already connected"@)
            } else {
                None
            },
            _ => Some("connect: unknown instance"@),
        }
    }

    /// Whether there is a connection from `client_id` to `server_id`.
    pub open spec fn connected(self, client_id: Seq<char>, server_id: Seq<char>) -> bool {
        exists|i: int|
            0 <= i < self.connections.len() && (#[trigger] self.connections[i]).client_id == client_id
                && self.connections[i].server_id == server_id
    }

    /// With one more connection.
    pub open spec fn with_connection(self, client_id: Seq<char>, server_id: Seq<char>) -> SessionView {
        SessionView {
            connections: self.connections.push(
                ConnectionView {
                    id: self.next_conn_id(),
                    client_id,
                    server_id,
                    faults: FaultSpec::none(),
                    framing: FramingChoice::Auto,
                    wire_format: Codec::Json,
                },
            ),
            next_conn: next_number(self.next_conn),
            ..self
        }
    }

    /// With the framing and the wire format of the connection `id` set.
    pub open spec fn with_transport(self, id: Seq<char>, framing: FramingChoice, wire_format: Codec) -> SessionView {
        SessionView {
            connections: change_first(
                self.connections,
                |c: ConnectionView| c.id == id,
                |c: ConnectionView| ConnectionView { framing, wire_format, ..c },
            ),
            ..self
        }
    }

    /// With the faults of the connection `id` set.
    pub open spec fn with_faults(self, id: Seq<char>, faults: FaultSpec) -> SessionView {
        SessionView {
            connections: change_first(
                self.connections,
                |c: ConnectionView| c.id == id,
                |c: ConnectionView| ConnectionView { faults, ..c },
            ),
            ..self
        }
    }

    /// Without the connection `id`.
    pub open spec fn without_connection(self, id: Seq<char>) -> SessionView {
        SessionView { connections: self.connections.filter(|c: ConnectionView| c.id != id), ..self }
    }

    /// Why the behaviour of `fn_name` on `instance_id` cannot be set.
    pub open spec fn behavior_refusal(self, instance_id: Seq<char>, fn_name: Seq<char>) -> Option<Seq<char>> {
        match self.instance(instance_id) {
            Some(inst) if inst.role == Role::Server => match self.function(inst, fn_name) {
                Some(_) => None,
                None => Some("setBehavior: no function "@ + fn_name),
            },
            _ => Some("setBehavior: not a server instance"@),
        }
    }

    /// The function `fn_name` of what an instance speaks, with its schema.
    pub open spec fn function(self, inst: InstanceView, fn_name: Seq<char>) -> Option<(SchemaView, FnView)> {
        match self.shape.protocol(inst.schema_ns, inst.protocol) {
            Some((schema, proto)) => match proto.function(fn_name) {
                Some(function) => Some((schema, function)),
                None => None,
            },
            None => None,
        }
    }

    /// With the behaviour of `fn_name` on `instance_id` set.
    pub open spec fn with_behavior(self, instance_id: Seq<char>, fn_name: Seq<char>, setting: SettingView) -> SessionView {
        SessionView {
            instances: change_first(
                self.instances,
                |i: InstanceView| i.id == instance_id,
                |i: InstanceView| InstanceView { behaviors: i.behaviors.insert(fn_name, setting), ..i },
            ),
            ..self
        }
    }

    /// The setting that `kind` and `config` make for `fn_name` on `instance_id`:
    /// without a configuration, the initial one.
    pub open spec fn setting_for(
        self,
        instance_id: Seq<char>,
        fn_name: Seq<char>,
        kind: BehaviorKind,
        config: Option<Json>,
    ) -> SettingView {
        SettingView {
            kind,
            config: match config {
                Some(config) => config,
                None => {
                    let (schema, function) = self.function(self.instance(instance_id)->0, fn_name)->0;
                    Json::Object(kind.initial_config(function, schema))
                },
            },
        }
    }
}

/// What an optional value holds.
pub open spec fn maybe_content(v: Option<Value>) -> Option<Json> {
    match v {
        Some(v) => Some(content(v)),
        None => None,
    }
}

impl Session {
    /// Connects a client instance to a server instance of the same protocol.
    /// `Err` on a role / protocol mismatch or a duplicate pair.
    pub fn add_connection(&mut self, client_id: &str, server_id: &str) -> (r: Result<String, String>)
        ensures
            match r {
                Ok(id) => old(self)@.connect_refusal(client_id@, server_id@) is None && id@ == old(
                    self,
                )@.next_conn_id() && final(self)@ == old(self)@.with_connection(client_id@, server_id@),
                Err(message) => old(self)@.connect_refusal(client_id@, server_id@) == Some(message@) && final(self)@
                    == old(self)@,
            },
    {
        let ghost before = self@;
        let client = match self.instance(client_id) {
            Some(i) => i,
            None => return Err("connect: unknown instance".to_owned()),
        };
        let server = match self.instance(server_id) {
            Some(i) => i,
            None => return Err("connect: unknown instance".to_owned()),
        };
        if client.role != Role::Client || server.role != Role::Server {
            return Err("connect: need a client and a server".to_owned());
        }
        if !same_text(client.schema_ns.as_str(), server.schema_ns.as_str()) || !same_text(
            client.protocol.as_str(),
            server.protocol.as_str(),
        ) {
            let mut message = joined("connect: ", client.protocol.as_str(), " ≠ ");
            message.append(server.protocol.as_str());
            return Err(message);
        }
        let ghost pred = |c: ConnectionView| c.client_id == client_id@ && c.server_id == server_id@;
        let found = find_first(
            &self.connections,
            |c: &Connection| -> (b: bool) ensures b == (c@.client_id == client_id@ && c@.server_id == server_id@) {
                same_text(c.client_id.as_str(), client_id) && same_text(c.server_id.as_str(), server_id)
            },
            Ghost(pred),
        );
        if let Some(i) = found {
            assert(before.connections[i as int].client_id == client_id@);
            let mut message = joined("connect: ", client.name.as_str(), " ↔ ");
            message.append(server.name.as_str());
            message.append(" already connected");
            return Err(message);
        }
        proof {
            assert forall|i: int| 0 <= i < before.connections.len() implies !(
            (#[trigger] before.connections[i]).client_id == client_id@ && before.connections[i].server_id
                == server_id@) by {
                assert(!pred(before.connections[i]));
            }
        }
        self.next_conn = number_after(self.next_conn);
        let id = tagged_text("c", self.next_conn);
        self.connections.push(
            Connection {
                id: id.clone(),
                client_id: client_id.to_owned(),
                server_id: server_id.to_owned(),
                faults: no_faults(),
                framing: FramingChoice::Auto,
                wire_format: Codec::default(),
            },
        );
        assert(self@.connections =~= before.with_connection(client_id@, server_id@).connections);
        assert(self@ =~= before.with_connection(client_id@, server_id@));
        Ok(id)
    }

    /// Sets a connection's framing / wire format (the compare axes).
    pub fn set_transport(&mut self, conn_id: &str, framing: FramingChoice, wire_format: Codec)
        ensures
            final(self)@ == old(self)@.with_transport(conn_id@, framing, wire_format),
    {
        let ghost before = self@;
        let ghost pred = |c: ConnectionView| c.id == conn_id@;
        let ghost change = |c: ConnectionView| ConnectionView { framing, wire_format, ..c };
        match self.connection_at(conn_id) {
            Some(i) => {
                proof {
                    lemma_first_where(before.connections, pred, change, i as int);
                }
                self.connections[i].framing = framing;
                self.connections[i].wire_format = wire_format;
                assert(self@.connections =~= before.connections.update(
                    i as int,
                    change(before.connections[i as int]),
                ));
            },
            None => {
                proof {
                    lemma_none_where(before.connections, pred, change);
                }
            },
        }
        assert(self@ =~= before.with_transport(conn_id@, framing, wire_format));
    }

    /// Replaces a connection's fault spec.
    pub fn set_faults(&mut self, conn_id: &str, faults: FaultSpec)
        ensures
            final(self)@ == old(self)@.with_faults(conn_id@, faults),
    {
        let ghost before = self@;
        let ghost pred = |c: ConnectionView| c.id == conn_id@;
        let ghost change = |c: ConnectionView| ConnectionView { faults, ..c };
        match self.connection_at(conn_id) {
            Some(i) => {
                proof {
                    lemma_first_where(before.connections, pred, change, i as int);
                }
                self.connections[i].faults = faults;
                assert(self@.connections =~= before.connections.update(
                    i as int,
                    change(before.connections[i as int]),
                ));
            },
            None => {
                proof {
                    lemma_none_where(before.connections, pred, change);
                }
            },
        }
        assert(self@ =~= before.with_faults(conn_id@, faults));
    }

    pub fn remove_connection(&mut self, conn_id: &str)
        ensures
            final(self)@ == old(self)@.without_connection(conn_id@),
    {
        let ghost before = self@;
        retain(
            &mut self.connections,
            |c: &Connection| -> (b: bool) ensures b == (c@.id != conn_id@) { !same_text(c.id.as_str(), conn_id) },
            Ghost(|c: ConnectionView| c.id != conn_id@),
        );
        assert(self@ =~= before.without_connection(conn_id@));
    }

    // ── behaviours ──────────────────────────────────────────────────────

    /// Sets a server instance's behaviour for one function. `config` defaults
    /// from the kind's `default_config` when `None`.
    pub fn set_behavior(&mut self, instance_id: &str, fn_name: &str, kind: BehaviorKind, config: Option<Value>) -> (r:
        Result<(), String>)
        ensures
            match r {
                Ok(_) => old(self)@.behavior_refusal(instance_id@, fn_name@) is None && final(self)@ == old(
                    self,
                )@.with_behavior(
                    instance_id@,
                    fn_name@,
                    old(self)@.setting_for(instance_id@, fn_name@, kind, maybe_content(config)),
                ),
                Err(message) => old(self)@.behavior_refusal(instance_id@, fn_name@) == Some(message@) && final(self)@
                    == old(self)@,
            },
    {
        let ghost before = self@;
        let at: usize = match self.instance_at(instance_id) {
            Some(i) => i,
            None => return Err("setBehavior: not a server instance".to_owned()),
        };
        let inst = &self.instances[at];
        if inst.role != Role::Server {
            return Err("setBehavior: not a server instance".to_owned());
        }
        let mut refusal = "setBehavior: no function ".to_owned();
        refusal.append(fn_name);
        let (schema, proto) = match find_protocol(&self.shape, inst.schema_ns.as_str(), inst.protocol.as_str()) {
            Some(found) => found,
            None => return Err(refusal),
        };
        let function = match proto.function(fn_name) {
            Some(f) => f,
            None => return Err(refusal),
        };
        let ghost setting = before.setting_for(instance_id@, fn_name@, kind, maybe_content(config));
        let config = match config {
            Some(config) => config,
            None => kind.default_config(function, schema),
        };
        let ghost pred = |i: InstanceView| i.id == instance_id@;
        let ghost change = |i: InstanceView| InstanceView { behaviors: i.behaviors.insert(fn_name@, setting), ..i };
        proof {
            lemma_first_where(before.instances, pred, change, at as int);
        }
        let new_setting = BehaviorSetting { kind, config };
        assert(new_setting@ == setting);
        self.instances[at].behaviors.insert(fn_name.to_owned(), new_setting);
        assert(self@.instances =~= before.instances.update(at as int, change(before.instances[at as int])));
        assert(self@ =~= before.with_behavior(instance_id@, fn_name@, setting));
        Ok(())
    }
}

// ── schema edits ────────────────────────────────────────────────────────

/// The settings of a server whose protocol was compiled anew: what it had for a
/// function that remains, where the behaviour still suits it, else a fresh one.
pub open spec fn kept_settings(
    functions: Seq<FnView>,
    schema: SchemaView,
    had: Map<Seq<char>, SettingView>,
) -> Map<Seq<char>, SettingView>
    decreases functions.len(),
{
    if functions.len() == 0 {
        Map::empty()
    } else {
        let f = functions.last();
        kept_settings(functions.drop_last(), schema, had).insert(
            f.name,
            if had.dom().contains(f.name) && had[f.name].kind.suits(f) {
                had[f.name]
            } else {
                fresh_setting(f, schema)
            },
        )
    }
}

/// An instance whose protocol was compiled anew. The hash stays as it was.
pub open spec fn recompiled(inst: InstanceView, schema: SchemaView, proto: ProtocolView) -> InstanceView {
    if inst.role == Role::Server {
        InstanceView { behaviors: kept_settings(proto.functions, schema, inst.behaviors), ..inst }
    } else {
        inst
    }
}

/// The instances whose protocol is still compiled.
pub open spec fn survivors(instances: Seq<InstanceView>, shape: ProjectView) -> Seq<InstanceView>
    decreases instances.len(),
{
    if instances.len() == 0 {
        instances
    } else {
        let inst = instances.last();
        let rest = survivors(instances.drop_last(), shape);
        match shape.protocol(inst.schema_ns, inst.protocol) {
            None => rest,
            Some((schema, proto)) => rest.push(recompiled(inst, schema, proto)),
        }
    }
}

/// Whether one of `instances` has that id.
pub open spec fn lives(instances: Seq<InstanceView>, id: Seq<char>) -> bool {
    exists|i: int| 0 <= i < instances.len() && (#[trigger] instances[i]).id == id
}

/// A node with only those of its instances that live.
pub open spec fn pruned(node: NodeView, instances: Seq<InstanceView>) -> NodeView {
    NodeView { instance_ids: node.instance_ids.filter(|id: Seq<char>| lives(instances, id)), ..node }
}

/// The nodes with only those of their instances that live, without those that
/// are then empty.
pub open spec fn pruned_nodes(nodes: Seq<NodeView>, instances: Seq<InstanceView>) -> Seq<NodeView>
    decreases nodes.len(),
{
    if nodes.len() == 0 {
        nodes
    } else {
        let rest = pruned_nodes(nodes.drop_last(), instances);
        let node = pruned(nodes.last(), instances);
        if node.instance_ids.len() == 0 {
            rest
        } else {
            rest.push(node)
        }
    }
}

/// The number in an id: what follows its prefix.
pub open spec fn numbered(id: Seq<char>, prefix: char) -> Option<nat> {
    if id.len() > 0 && id[0] == prefix {
        number_in(id.drop_first(), 10, u64::MAX as nat)
    } else {
        None
    }
}

/// The largest of `least` and the numbers in `ids`.
pub open spec fn largest_number(ids: Seq<Seq<char>>, prefix: char, least: u64) -> u64
    decreases ids.len(),
{
    if ids.len() == 0 {
        least
    } else {
        let rest = largest_number(ids.drop_last(), prefix, least);
        match numbered(ids.last(), prefix) {
            Some(n) => if n > rest {
                n as u64
            } else {
                rest
            },
            None => rest,
        }
    }
}

impl SessionView {
    pub open spec fn instance_ids(self) -> Seq<Seq<char>> {
        Seq::new(self.instances.len(), |i: int| self.instances[i].id)
    }

    pub open spec fn node_ids(self) -> Seq<Seq<char>> {
        Seq::new(self.nodes.len(), |i: int| self.nodes[i].id)
    }

    pub open spec fn connection_ids(self) -> Seq<Seq<char>> {
        Seq::new(self.connections.len(), |i: int| self.connections[i].id)
    }

    /// Pointed at a freshly compiled shape.
    pub open spec fn rebuilt(self, shape: ProjectView) -> SessionView {
        let instances = survivors(self.instances, shape);
        SessionView {
            shape,
            instances,
            nodes: pruned_nodes(self.nodes, instances),
            connections: self.connections.filter(
                |c: ConnectionView| lives(instances, c.client_id) && lives(instances, c.server_id),
            ),
            ..self
        }
    }

    /// With the hash of the instance `id` at the currently compiled schema's.
    pub open spec fn resynced(self, id: Seq<char>) -> SessionView {
        match self.instance(id) {
            Some(inst) => match self.shape.protocol(inst.schema_ns, inst.protocol) {
                Some((schema, _)) => SessionView {
                    instances: change_first(
                        self.instances,
                        |i: InstanceView| i.id == id,
                        |i: InstanceView| InstanceView { ir_hash: schema.ir_hash, ..i },
                    ),
                    ..self
                },
                None => self,
            },
            None => self,
        }
    }

    /// With the counters past every id in the session.
    pub open spec fn reseeded(self) -> SessionView {
        SessionView {
            next_instance: largest_number(self.instance_ids(), 'i', self.next_instance),
            next_node: largest_number(self.node_ids(), 'n', self.next_node),
            next_conn: largest_number(self.connection_ids(), 'c', self.next_conn),
            ..self
        }
    }

    /// Whether no counter is behind an id in the session.
    pub open spec fn counted(self) -> bool {
        &&& forall|i: int|
            0 <= i < self.instances.len() ==> (numbered((#[trigger] self.instances[i]).id, 'i') matches Some(n) ==> n
                <= self.next_instance)
        &&& forall|i: int|
            0 <= i < self.nodes.len() ==> (numbered((#[trigger] self.nodes[i]).id, 'n') matches Some(n) ==> n
                <= self.next_node)
        &&& forall|i: int|
            0 <= i < self.connections.len() ==> (numbered((#[trigger] self.connections[i]).id, 'c') matches Some(n)
                ==> n <= self.next_conn)
    }
}

fn read_numbered(id: &str, prefix: char) -> (r: Option<u64>)
    ensures
        match r {
            Some(n) => numbered(id@, prefix) == Some(n as nat),
            None => numbered(id@, prefix) is None,
        },
{
    let len: usize = id.unicode_len();
    if len == 0 || id.get_char(0) != prefix {
        return None;
    }
    let rest = id.substring_char(1, len);
    assert(rest@ =~= id@.drop_first());
    read_number(rest, 10, u64::MAX)
}

fn larger(rest: u64, id: &str, prefix: char) -> (r: u64)
    ensures
        r == (match numbered(id@, prefix) {
            Some(n) => if n > rest {
                n as u64
            } else {
                rest
            },
            None => rest,
        }),
{
    match read_numbered(id, prefix) {
        Some(n) => if n > rest {
            n
        } else {
            rest
        },
        None => rest,
    }
}

fn kept(proto: &ProtocolShape, schema: &SchemaShape, had: &Dict<BehaviorSetting>) -> (r: Dict<BehaviorSetting>)
    ensures
        r@ == kept_settings(proto@.functions, schema@, had@),
{
    let ghost all = proto@.functions;
    let mut out: Dict<BehaviorSetting> = Dict::new();
    let mut i: usize = 0;
    assert(all.take(0) =~= Seq::empty());
    while i < proto.functions.len()
        invariant
            i <= proto.functions@.len(),
            all == proto@.functions,
            out@ == kept_settings(all.take(i as int), schema@, had@),
        decreases proto.functions@.len() - i,
    {
        let f = &proto.functions[i];
        proof {
            assert(all.take(i + 1).drop_last() =~= all.take(i as int));
            assert(all.take(i + 1).last() == f@);
        }
        let setting = match had.get(f.name.as_str()) {
            Some(prev) => if prev.kind.applies_to(f) {
                prev.copied()
            } else {
                fresh(f, schema)
            },
            None => fresh(f, schema),
        };
        out.insert(f.name.clone(), setting);
        i = i + 1;
    }
    assert(all.take(i as int) =~= all);
    out
}

/// Whether one of `instances` has the id `id`.
fn is_live(instances: &Vec<Instance>, id: &str) -> (r: bool)
    ensures
        r == lives(views(instances@), id@),
{
    let ghost pred = |i: InstanceView| i.id == id@;
    let found = find_first(
        instances,
        |i: &Instance| -> (b: bool) ensures b == (i@.id == id@) { same_text(i.id.as_str(), id) },
        Ghost(pred),
    );
    proof {
        if let Some(i) = found {
            assert(views(instances@)[i as int].id == id@);
        } else {
            assert forall|i: int| 0 <= i < instances@.len() implies (#[trigger] views(instances@)[i]).id != id@ by {
                assert(!pred(views(instances@)[i]));
            }
        }
    }
    found.is_some()
}

impl Session {
    /// Re-points at a freshly compiled shape. An instance survives if its
    /// `schema_ns::protocol` still exists; its behaviour map keeps the configs of
    /// functions that remain (when the kind still applies) and gains defaults for
    /// new ones. `ir_hash` is deliberately left as-is: see [`Instance::ir_hash`].
    pub fn rebuild(&mut self, shape: ProjectShape)
        ensures
            final(self)@ == old(self)@.rebuilt(shape@),
    {
        let ghost before = self@;
        self.shape = shape;
        let ghost all = before.instances;
        let mut survived: Vec<Instance> = Vec::new();
        let mut i: usize = 0;
        assert(all.take(0) =~= Seq::empty());
        assert(views(survived@) =~= Seq::empty());
        while i < self.instances.len()
            invariant
                i <= self.instances@.len(),
                all == views(self.instances@),
                self.shape@ == shape@,
                views(survived@) == survivors(all.take(i as int), shape@),
            decreases self.instances@.len() - i,
        {
            let mut inst = self.instances[i].copied();
            proof {
                assert(all.take(i + 1).drop_last() =~= all.take(i as int));
                assert(all.take(i + 1).last() == inst@);
            }
            let ghost was = views(survived@);
            if let Some((schema, proto)) = find_protocol(&self.shape, inst.schema_ns.as_str(), inst.protocol.as_str()) {
                let ghost inst0 = inst@;
                if inst.role == Role::Server {
                    inst.behaviors = kept(proto, schema, &inst.behaviors);
                }
                assert(inst@ =~= recompiled(inst0, schema@, proto@));
                survived.push(inst);
                assert(views(survived@) =~= was.push(recompiled(inst0, schema@, proto@)));
            }
            i = i + 1;
        }
        assert(all.take(i as int) =~= all);
        self.instances = survived;
        self.prune_nodes(Ghost(before));
        let ghost live = self@.instances;
        let ghost keep = |c: ConnectionView| lives(live, c.client_id) && lives(live, c.server_id);
        let instances = &self.instances;
        retain(
            &mut self.connections,
            |c: &Connection| -> (b: bool) ensures b == (lives(live, c@.client_id) && lives(live, c@.server_id)) {
                is_live(instances, c.client_id.as_str()) && is_live(instances, c.server_id.as_str())
            },
            Ghost(keep),
        );
        assert(self@ =~= before.rebuilt(shape@));
    }

    /// Takes the instances that are gone out of their nodes, and the nodes that
    /// are then empty off the canvas.
    fn prune_nodes(&mut self, Ghost(before): Ghost<SessionView>)
        requires
            old(self)@.nodes == before.nodes,
        ensures
            final(self)@ == (SessionView {
                nodes: pruned_nodes(before.nodes, old(self)@.instances),
                ..old(self)@
            }),
            final(self).instances == old(self).instances,
    {
        let ghost start = self@;
        let ghost all = self@.nodes;
        let ghost live = self@.instances;
        let mut nodes: Vec<Node> = Vec::new();
        let mut i: usize = 0;
        assert(all.take(0) =~= Seq::empty());
        assert(views(nodes@) =~= Seq::empty());
        while i < self.nodes.len()
            invariant
                i <= self.nodes@.len(),
                all == views(self.nodes@),
                live == views(self.instances@),
                views(nodes@) == pruned_nodes(all.take(i as int), live),
            decreases self.nodes@.len() - i,
        {
            let mut node = self.nodes[i].copied();
            proof {
                assert(all.take(i + 1).drop_last() =~= all.take(i as int));
                assert(all.take(i + 1).last() == node@);
            }
            let ghost was = views(nodes@);
            let ghost node0 = node@;
            let instances = &self.instances;
            retain(
                &mut node.instance_ids,
                |id: &String| -> (b: bool) ensures b == lives(live, id@) { is_live(instances, id.as_str()) },
                Ghost(|id: Seq<char>| lives(live, id)),
            );
            assert(node@ =~= pruned(node0, live));
            if node.instance_ids.len() > 0 {
                nodes.push(node);
                assert(views(nodes@) =~= was.push(pruned(node0, live)));
            }
            i = i + 1;
        }
        assert(all.take(i as int) =~= all);
        self.nodes = nodes;
        assert(self@ =~= SessionView { nodes: pruned_nodes(before.nodes, live), ..start });
    }

    /// Snaps an instance's `ir_hash` forward to the currently-compiled schema, so
    /// a connection built after a schema edit handshakes cleanly again.
    pub fn resync_instance(&mut self, id: &str)
        ensures
            final(self)@ == old(self)@.resynced(id@),
    {
        let ghost before = self@;
        let at: usize = match self.instance_at(id) {
            Some(i) => i,
            None => return,
        };
        let hash = match find_protocol(
            &self.shape,
            self.instances[at].schema_ns.as_str(),
            self.instances[at].protocol.as_str(),
        ) {
            Some((schema, _)) => schema.ir_hash.clone(),
            None => return,
        };
        let ghost pred = |i: InstanceView| i.id == id@;
        let ghost change = |i: InstanceView| InstanceView { ir_hash: hash@, ..i };
        proof {
            lemma_first_where(before.instances, pred, change, at as int);
        }
        self.instances[at].ir_hash = hash;
        assert(self@.instances =~= before.instances.update(at as int, change(before.instances[at as int])));
        assert(self@ =~= before.resynced(id@));
    }

    /// After loading a session, bumps the id counters past everything in it so
    /// freshly-added instances / nodes / connections don't collide.
    pub fn reseed_counters(&mut self)
        ensures
            final(self)@ == old(self)@.reseeded(),
            final(self)@.counted(),
    {
        let ghost before = self@;
        let mut next_instance: u64 = self.next_instance;
        let mut i: usize = 0;
        assert(before.instance_ids().take(0) =~= Seq::empty());
        while i < self.instances.len()
            invariant
                i <= self.instances@.len(),
                before == self@,
                next_instance == largest_number(before.instance_ids().take(i as int), 'i', before.next_instance),
            decreases self.instances@.len() - i,
        {
            proof {
                let t = before.instance_ids().take(i + 1);
                assert(t.drop_last() =~= before.instance_ids().take(i as int));
                assert(t.last() == self.instances@[i as int].id@);
            }
            next_instance = larger(next_instance, self.instances[i].id.as_str(), 'i');
            i = i + 1;
        }
        assert(before.instance_ids().take(i as int) =~= before.instance_ids());
        let mut next_node: u64 = self.next_node;
        let mut i: usize = 0;
        assert(before.node_ids().take(0) =~= Seq::empty());
        while i < self.nodes.len()
            invariant
                i <= self.nodes@.len(),
                before == self@,
                next_node == largest_number(before.node_ids().take(i as int), 'n', before.next_node),
            decreases self.nodes@.len() - i,
        {
            proof {
                let t = before.node_ids().take(i + 1);
                assert(t.drop_last() =~= before.node_ids().take(i as int));
                assert(t.last() == self.nodes@[i as int].id@);
            }
            next_node = larger(next_node, self.nodes[i].id.as_str(), 'n');
            i = i + 1;
        }
        assert(before.node_ids().take(i as int) =~= before.node_ids());
        let mut next_conn: u64 = self.next_conn;
        let mut i: usize = 0;
        assert(before.connection_ids().take(0) =~= Seq::empty());
        while i < self.connections.len()
            invariant
                i <= self.connections@.len(),
                before == self@,
                next_conn == largest_number(before.connection_ids().take(i as int), 'c', before.next_conn),
            decreases self.connections@.len() - i,
        {
            proof {
                let t = before.connection_ids().take(i + 1);
                assert(t.drop_last() =~= before.connection_ids().take(i as int));
                assert(t.last() == self.connections@[i as int].id@);
            }
            next_conn = larger(next_conn, self.connections[i].id.as_str(), 'c');
            i = i + 1;
        }
        assert(before.connection_ids().take(i as int) =~= before.connection_ids());
        self.next_instance = next_instance;
        self.next_node = next_node;
        self.next_conn = next_conn;
        assert(self@ =~= before.reseeded());
        proof {
            law_reseeding_counts_everything(before);
        }
    }
}

// ── laws ────────────────────────────────────────────────────────────────

proof fn lemma_largest(ids: Seq<Seq<char>>, prefix: char, least: u64)
    ensures
        largest_number(ids, prefix, least) >= least,
        forall|i: int|
            0 <= i < ids.len() ==> (numbered(#[trigger] ids[i], prefix) matches Some(n) ==> n <= largest_number(
                ids,
                prefix,
                least,
            )),
    decreases ids.len(),
{
    if ids.len() > 0 {
        let short = ids.drop_last();
        lemma_largest(short, prefix, least);
        assert forall|i: int| 0 <= i < ids.len() implies (numbered(#[trigger] ids[i], prefix) matches Some(n) ==> n
            <= largest_number(ids, prefix, least)) by {
            if i < short.len() {
                assert(short[i] == ids[i]);
            }
            lemma_numbers_fit(ids.last(), prefix);
        }
    }
}

proof fn lemma_numbers_fit(id: Seq<char>, prefix: char)
    ensures
        numbered(id, prefix) matches Some(n) ==> n <= u64::MAX,
{
}

/// After a reseeding no counter is behind an id in the session.
pub proof fn law_reseeding_counts_everything(s: SessionView)
    ensures
        s.reseeded().counted(),
{
    lemma_largest(s.instance_ids(), 'i', s.next_instance);
    lemma_largest(s.node_ids(), 'n', s.next_node);
    lemma_largest(s.connection_ids(), 'c', s.next_conn);
    let r = s.reseeded();
    assert forall|i: int| 0 <= i < r.instances.len() implies (numbered((#[trigger] r.instances[i]).id, 'i') matches Some(
        n,
    ) ==> n <= r.next_instance) by {
        assert(s.instance_ids()[i] == r.instances[i].id);
    }
    assert forall|i: int| 0 <= i < r.nodes.len() implies (numbered((#[trigger] r.nodes[i]).id, 'n') matches Some(n) ==> n
        <= r.next_node) by {
        assert(s.node_ids()[i] == r.nodes[i].id);
    }
    assert forall|i: int| 0 <= i < r.connections.len() implies (numbered(
        (#[trigger] r.connections[i]).id,
        'c',
    ) matches Some(n) ==> n <= r.next_conn) by {
        assert(s.connection_ids()[i] == r.connections[i].id);
    }
}

proof fn lemma_tagged(prefix: char, text: Seq<char>, n: u64)
    requires
        text == seq![prefix],
    ensures
        numbered(tagged(text, n), prefix) == Some(n as nat),
{
    lemma_decimal_reads_back(n as nat, u64::MAX as nat);
    assert(tagged(text, n).drop_first() =~= decimal(n as nat));
}

/// Where no counter is behind, the ids given next collide with none that the
/// session holds.
pub proof fn law_fresh_ids_do_not_collide(s: SessionView)
    requires
        s.counted(),
    ensures
        s.next_instance < u64::MAX ==> !lives(s.instances, s.next_instance_id()),
        s.next_node < u64::MAX ==> s.node(s.next_node_id()) is None,
        s.next_conn < u64::MAX ==> s.connection(s.next_conn_id()) is None,
{
    reveal_strlit("i");
    reveal_strlit("n");
    reveal_strlit("c");
    assert("i"@ =~= seq!['i']);
    assert("n"@ =~= seq!['n']);
    assert("c"@ =~= seq!['c']);
    lemma_tagged('i', "i"@, next_number(s.next_instance));
    lemma_tagged('n', "n"@, next_number(s.next_node));
    lemma_tagged('c', "c"@, next_number(s.next_conn));
    let by_node = |n: NodeView| n.id == s.next_node_id();
    let by_conn = |c: ConnectionView| c.id == s.next_conn_id();
    lemma_found(s.nodes, by_node);
    lemma_found(s.connections, by_conn);
    if let Some(n) = s.node(s.next_node_id()) {
        let i = s.nodes.index_of(n);
        assert(s.nodes[i].id == s.next_node_id());
    }
    if let Some(c) = s.connection(s.next_conn_id()) {
        let i = s.connections.index_of(c);
        assert(s.connections[i].id == s.next_conn_id());
    }
}

/// An instance that was added is found again, under the id that it got.
pub proof fn law_added_instance_is_found(s: SessionView, spec: SpecView, place: PlaceView)
    requires
        s.counted(),
        s.next_instance < u64::MAX,
    ensures
        s.with_instance(spec, place).instance(s.next_instance_id()) == Some(
            s.with_instance(spec, place).instances.last(),
        ),
{
    law_fresh_ids_do_not_collide(s);
    let id = s.next_instance_id();
    let after = s.with_instance(spec, place).instances;
    let pred = |i: InstanceView| i.id == id;
    assert forall|k: int| 0 <= k < s.instances.len() implies !pred(#[trigger] after[k]) by {
        assert(s.instances[k].id != id);
    }
    lemma_first_where(after, pred, |i: InstanceView| i, s.instances.len() as int);
}

/// A connection that was made joins a client to a server of the same protocol.
pub proof fn law_connections_join_client_to_server(s: SessionView, client_id: Seq<char>, server_id: Seq<char>)
    requires
        s.connect_refusal(client_id, server_id) is None,
    ensures
        s.instance(client_id) matches Some(client) && s.instance(server_id) matches Some(server) && client.role
            == Role::Client && server.role == Role::Server && client.protocol == server.protocol && client.schema_ns
            == server.schema_ns,
        !s.connected(client_id, server_id),
        s.with_connection(client_id, server_id).connected(client_id, server_id),
        s.with_connection(client_id, server_id).connect_refusal(client_id, server_id) is Some,
{
    let after = s.with_connection(client_id, server_id);
    assert(after.connections[s.connections.len() as int].client_id == client_id);
    assert(after.connected(client_id, server_id));
}

/// A removed instance leaves nothing behind: neither itself nor a connection
/// that it was an end of.
pub proof fn law_removal_leaves_nothing(s: SessionView, id: Seq<char>)
    ensures
        s.without_instance(id).instance(id) is None,
        forall|i: int|
            0 <= i < s.without_instance(id).connections.len() ==> (#[trigger] s.without_instance(
                id,
            ).connections[i]).client_id != id && s.without_instance(id).connections[i].server_id != id,
{
    let after = s.without_instance(id);
    let keep = |i: InstanceView| i.id != id;
    let pred = |i: InstanceView| i.id == id;
    lemma_filtered(s.instances, keep);
    assert forall|k: int| 0 <= k < after.instances.len() implies !pred(#[trigger] after.instances[k]) by {
        assert(keep(after.instances[k]));
    }
    lemma_none_where(after.instances, pred, |i: InstanceView| i);
    let free = |c: ConnectionView| c.client_id != id && c.server_id != id;
    lemma_filtered(s.connections, free);
    assert forall|i: int| 0 <= i < after.connections.len() implies (#[trigger] after.connections[i]).client_id != id
        && after.connections[i].server_id != id by {
        assert(free(after.connections[i]));
    }
}

proof fn lemma_survivors(instances: Seq<InstanceView>, shape: ProjectView)
    ensures
        forall|i: int|
            0 <= i < survivors(instances, shape).len() ==> {
                let kept = #[trigger] survivors(instances, shape)[i];
                &&& shape.protocol(kept.schema_ns, kept.protocol) is Some
                &&& exists|k: int|
                    0 <= k < instances.len() && (#[trigger] instances[k]).id == kept.id && instances[k].ir_hash
                        == kept.ir_hash && instances[k].role == kept.role
            },
    decreases instances.len(),
{
    if instances.len() > 0 {
        let short = instances.drop_last();
        lemma_survivors(short, shape);
        let all = survivors(instances, shape);
        let rest = survivors(short, shape);
        assert forall|i: int| 0 <= i < all.len() implies {
            let kept = #[trigger] all[i];
            &&& shape.protocol(kept.schema_ns, kept.protocol) is Some
            &&& exists|k: int|
                0 <= k < instances.len() && (#[trigger] instances[k]).id == kept.id && instances[k].ir_hash
                    == kept.ir_hash && instances[k].role == kept.role
        } by {
            if i < rest.len() {
                assert(all[i] == rest[i]);
                let k = choose|k: int|
                    0 <= k < short.len() && (#[trigger] short[k]).id == rest[i].id && short[k].ir_hash
                        == rest[i].ir_hash && short[k].role == rest[i].role;
                assert(instances[k] == short[k]);
            } else {
                let k = instances.len() - 1;
                assert(instances[k].id == all[i].id);
            }
        }
    }
}

proof fn lemma_live_is_found(instances: Seq<InstanceView>, id: Seq<char>)
    requires
        lives(instances, id),
    ensures
        first_where(instances, |i: InstanceView| i.id == id) matches Some(inst) && instances.contains(inst),
{
    let pred = |i: InstanceView| i.id == id;
    lemma_found(instances, pred);
    let k = choose|k: int| 0 <= k < instances.len() && (#[trigger] instances[k]).id == id;
    assert(pred(instances[k]));
}

/// After a schema edit every instance speaks a compiled protocol, with the hash
/// that it had, and every connection can be opened.
pub proof fn law_rebuild_leaves_a_wired_session(s: SessionView, shape: ProjectView)
    ensures
        s.rebuilt(shape).wired(),
        forall|i: int|
            0 <= i < s.rebuilt(shape).instances.len() ==> {
                let kept = #[trigger] s.rebuilt(shape).instances[i];
                &&& shape.protocol(kept.schema_ns, kept.protocol) is Some
                &&& exists|k: int|
                    0 <= k < s.instances.len() && (#[trigger] s.instances[k]).id == kept.id && s.instances[k].ir_hash
                        == kept.ir_hash && s.instances[k].role == kept.role
            },
{
    let after = s.rebuilt(shape);
    lemma_survivors(s.instances, shape);
    let keep = |c: ConnectionView| lives(after.instances, c.client_id) && lives(after.instances, c.server_id);
    lemma_filtered(s.connections, keep);
    assert forall|i: int| 0 <= i < after.connections.len() implies after.can_open(#[trigger] after.connections[i]) by {
        let c = after.connections[i];
        assert(keep(c));
        lemma_live_is_found(after.instances, c.client_id);
        lemma_live_is_found(after.instances, c.server_id);
        let server = after.instance(c.server_id)->0;
        let k = after.instances.index_of(server);
        assert(after.instances[k] == server);
    }
}

proof fn lemma_kept_names(functions: Seq<FnView>, schema: SchemaView, had: Map<Seq<char>, SettingView>)
    ensures
        forall|name: Seq<char>| #[trigger]
            kept_settings(functions, schema, had).dom().contains(name) <==> exists|k: int|
                0 <= k < functions.len() && (#[trigger] functions[k]).name == name,
    decreases functions.len(),
{
    if functions.len() > 0 {
        let short = functions.drop_last();
        lemma_kept_names(short, schema, had);
        assert forall|name: Seq<char>| #[trigger]
            kept_settings(functions, schema, had).dom().contains(name) <==> exists|k: int|
                0 <= k < functions.len() && (#[trigger] functions[k]).name == name by {
            if kept_settings(short, schema, had).dom().contains(name) {
                let k = choose|k: int| 0 <= k < short.len() && (#[trigger] short[k]).name == name;
                assert(functions[k].name == name);
            }
            if exists|k: int| 0 <= k < functions.len() && (#[trigger] functions[k]).name == name {
                let k = choose|k: int| 0 <= k < functions.len() && (#[trigger] functions[k]).name == name;
                if k < short.len() {
                    assert(short[k].name == name);
                }
            }
            assert(functions[functions.len() - 1] == functions.last());
        }
    }
}

/// After a schema edit a surviving server has one behaviour for each function of
/// its protocol, and for no other.
pub proof fn law_rebuild_covers_every_function(inst: InstanceView, schema: SchemaView, proto: ProtocolView, name: Seq<char>)
    requires
        inst.role == Role::Server,
    ensures
        recompiled(inst, schema, proto).behaviors.dom().contains(name) <==> proto.function(name) is Some,
{
    lemma_kept_names(proto.functions, schema, inst.behaviors);
    let pred = |f: FnView| f.name == name;
    lemma_found(proto.functions, pred);
    if let Some(f) = proto.function(name) {
        let k = proto.functions.index_of(f);
        assert(proto.functions[k].name == name);
    } else {
        assert forall|k: int| 0 <= k < proto.functions.len() implies (#[trigger] proto.functions[k]).name != name by {
            assert(!pred(proto.functions[k]));
        }
    }
}

/// A node that a schema edit leaves on the canvas hosts at least one instance.
pub proof fn law_rebuild_prunes_empty_nodes(nodes: Seq<NodeView>, instances: Seq<InstanceView>)
    ensures
        forall|i: int|
            0 <= i < pruned_nodes(nodes, instances).len() ==> (#[trigger] pruned_nodes(
                nodes,
                instances,
            )[i]).instance_ids.len() > 0,
    decreases nodes.len(),
{
    if nodes.len() > 0 {
        law_rebuild_prunes_empty_nodes(nodes.drop_last(), instances);
        let rest = pruned_nodes(nodes.drop_last(), instances);
        let all = pruned_nodes(nodes, instances);
        assert forall|i: int| 0 <= i < all.len() implies (#[trigger] all[i]).instance_ids.len() > 0 by {
            if i < rest.len() {
                assert(all[i] == rest[i]);
            }
        }
    }
}

/// A resync brings an instance to the hash of the schema that its protocol is in
/// now, and changes nothing else of it.
pub proof fn law_resync_snaps_to_the_schema(s: SessionView, id: Seq<char>)
    requires
        s.instance(id) matches Some(inst) && s.shape.protocol(inst.schema_ns, inst.protocol) is Some,
    ensures
        ({
            let inst = s.instance(id)->0;
            let (schema, _) = s.shape.protocol(inst.schema_ns, inst.protocol)->0;
            s.resynced(id).instance(id) == Some(InstanceView { ir_hash: schema.ir_hash, ..inst })
        }),
{
    let inst = s.instance(id)->0;
    let (schema, _) = s.shape.protocol(inst.schema_ns, inst.protocol)->0;
    let pred = |i: InstanceView| i.id == id;
    let change = |i: InstanceView| InstanceView { ir_hash: schema.ir_hash, ..i };
    lemma_changed_is_found(s.instances, pred, change);
}

proof fn lemma_changed_is_found<A>(items: Seq<A>, pred: spec_fn(A) -> bool, change: spec_fn(A) -> A)
    requires
        first_where(items, pred) is Some,
        forall|a: A| #[trigger] pred(a) ==> pred(change(a)),
    ensures
        first_where(change_first(items, pred, change), pred) == Some(change(first_where(items, pred)->0)),
    decreases items.len(),
{
    if pred(items[0]) {
        assert(change_first(items, pred, change)[0] == change(items[0]));
    } else {
        lemma_changed_is_found(items.drop_first(), pred, change);
        let all = change_first(items, pred, change);
        assert(all.drop_first() =~= change_first(items.drop_first(), pred, change));
        assert(all[0] == items[0]);
    }
}

proof fn lemma_change_first_at<A>(items: Seq<A>, pred: spec_fn(A) -> bool, change: spec_fn(A) -> A)
    ensures
        change_first(items, pred, change).len() == items.len(),
        forall|i: int|
            0 <= i < items.len() ==> {
                let changed = #[trigger] change_first(items, pred, change)[i];
                changed == items[i] || changed == change(items[i])
            },
    decreases items.len(),
{
    if items.len() > 0 && !pred(items[0]) {
        let rest = items.drop_first();
        lemma_change_first_at(rest, pred, change);
        let all = change_first(items, pred, change);
        let changed = change_first(rest, pred, change);
        assert forall|i: int| 0 <= i < items.len() implies {
            let item = #[trigger] all[i];
            item == items[i] || item == change(items[i])
        } by {
            if i > 0 {
                assert(all[i] == changed[i - 1]);
                assert(rest[i - 1] == items[i]);
            }
        }
    }
}

/// A search finds the same instance in two lists whose instances have the same
/// ids, roles and protocols.
proof fn lemma_alike_instances(before: Seq<InstanceView>, after: Seq<InstanceView>, id: Seq<char>)
    requires
        after.len() == before.len(),
        forall|i: int| 0 <= i < before.len() ==> speaks_alike(#[trigger] before[i], after[i]),
    ensures
        match (
            first_where(before, |i: InstanceView| i.id == id),
            first_where(after, |i: InstanceView| i.id == id),
        ) {
            (Some(a), Some(b)) => speaks_alike(a, b),
            (None, None) => true,
            _ => false,
        },
    decreases before.len(),
{
    if before.len() > 0 {
        assert(speaks_alike(before[0], after[0]));
        if before[0].id != id {
            let rest = before.drop_first();
            let rest_after = after.drop_first();
            assert forall|i: int| 0 <= i < rest.len() implies speaks_alike(#[trigger] rest[i], rest_after[i]) by {
                assert(speaks_alike(before[i + 1], after[i + 1]));
            }
            lemma_alike_instances(rest, rest_after, id);
        }
    }
}

spec fn speaks_alike(a: InstanceView, b: InstanceView) -> bool {
    a.id == b.id && a.role == b.role && a.schema_ns == b.schema_ns && a.protocol == b.protocol
}

proof fn lemma_found_behind_more<A>(items: Seq<A>, more: A, pred: spec_fn(A) -> bool)
    requires
        first_where(items, pred) is Some,
    ensures
        first_where(items.push(more), pred) == first_where(items, pred),
    decreases items.len(),
{
    let all = items.push(more);
    assert(all[0] == items[0]);
    if !pred(items[0]) {
        assert(all.drop_first() =~= items.drop_first().push(more));
        lemma_found_behind_more(items.drop_first(), more, pred);
    }
}

proof fn lemma_found_in_filtered<A>(items: Seq<A>, keep: spec_fn(A) -> bool, pred: spec_fn(A) -> bool)
    requires
        forall|a: A| #[trigger] pred(a) ==> keep(a),
    ensures
        first_where(items.filter(keep), pred) == first_where(items, pred),
    decreases items.len(),
{
    if items.len() == 0 {
        reveal(Seq::filter);
    } else {
        let head = seq![items[0]];
        let rest = items.drop_first();
        lemma_found_in_filtered(rest, keep, pred);
        assert(items =~= head + rest);
        Seq::filter_distributes_over_add(head, rest, keep);
        lemma_filter_one(items[0], keep);
        if keep(items[0]) {
            assert(items.filter(keep).drop_first() =~= rest.filter(keep));
            assert(items.filter(keep)[0] == items[0]);
        } else {
            assert(items.filter(keep) =~= rest.filter(keep));
        }
    }
}

/// No edit leaves a connection that cannot be opened: neither an instance more or
/// less, nor a connection less, nor a new transport, new faults or a new
/// behaviour, nor a resync.
pub proof fn law_edits_keep_the_session_wired(s: SessionView, spec: SpecView, place: PlaceView, id: Seq<char>)
    requires
        s.wired(),
    ensures
        s.with_instance(spec, place).wired(),
        s.without_instance(id).wired(),
        s.without_connection(id).wired(),
        forall|framing: FramingChoice, wire_format: Codec| #[trigger] s.with_transport(id, framing, wire_format).wired(),
        forall|faults: FaultSpec| #[trigger] s.with_faults(id, faults).wired(),
        forall|fn_name: Seq<char>, setting: SettingView| #[trigger] s.with_behavior(id, fn_name, setting).wired(),
        s.resynced(id).wired(),
{
    lemma_more_instances_keep_wired(s, spec, place);
    lemma_fewer_instances_keep_wired(s, id);
    lemma_filtered(s.connections, |c: ConnectionView| c.id != id);
    assert forall|framing: FramingChoice, wire_format: Codec| #[trigger]
        s.with_transport(id, framing, wire_format).wired() by {
        lemma_change_first_at(
            s.connections,
            |c: ConnectionView| c.id == id,
            |c: ConnectionView| ConnectionView { framing, wire_format, ..c },
        );
        lemma_same_ends_keep_wired(s, s.with_transport(id, framing, wire_format));
    }
    assert forall|faults: FaultSpec| #[trigger] s.with_faults(id, faults).wired() by {
        lemma_change_first_at(
            s.connections,
            |c: ConnectionView| c.id == id,
            |c: ConnectionView| ConnectionView { faults, ..c },
        );
        lemma_same_ends_keep_wired(s, s.with_faults(id, faults));
    }
    assert forall|fn_name: Seq<char>, setting: SettingView| #[trigger]
        s.with_behavior(id, fn_name, setting).wired() by {
        lemma_change_first_at(
            s.instances,
            |i: InstanceView| i.id == id,
            |i: InstanceView| InstanceView { behaviors: i.behaviors.insert(fn_name, setting), ..i },
        );
        lemma_same_ends_keep_wired(s, s.with_behavior(id, fn_name, setting));
    }
    if let Some(inst) = s.instance(id) {
        if let Some((schema, _)) = s.shape.protocol(inst.schema_ns, inst.protocol) {
            lemma_change_first_at(
                s.instances,
                |i: InstanceView| i.id == id,
                |i: InstanceView| InstanceView { ir_hash: schema.ir_hash, ..i },
            );
        }
    }
    lemma_same_ends_keep_wired(s, s.resynced(id));
    let fewer = s.without_connection(id);
    assert forall|i: int| 0 <= i < fewer.connections.len() implies fewer.can_open(#[trigger] fewer.connections[i]) by {
        let k = s.connections.index_of(fewer.connections[i]);
        assert(s.can_open(s.connections[k]));
    }
}

proof fn lemma_more_instances_keep_wired(s: SessionView, spec: SpecView, place: PlaceView)
    requires
        s.wired(),
    ensures
        s.with_instance(spec, place).wired(),
{
    let after = s.with_instance(spec, place);
    assert forall|i: int| 0 <= i < after.connections.len() implies after.can_open(#[trigger] after.connections[i]) by {
        let c = s.connections[i];
        assert(s.can_open(c));
        lemma_found_behind_more(s.instances, after.instances.last(), |x: InstanceView| x.id == c.client_id);
        lemma_found_behind_more(s.instances, after.instances.last(), |x: InstanceView| x.id == c.server_id);
    }
}

proof fn lemma_fewer_instances_keep_wired(s: SessionView, id: Seq<char>)
    requires
        s.wired(),
    ensures
        s.without_instance(id).wired(),
{
    let after = s.without_instance(id);
    let keep = |i: InstanceView| i.id != id;
    let free = |c: ConnectionView| c.client_id != id && c.server_id != id;
    lemma_filtered(s.connections, free);
    assert forall|i: int| 0 <= i < after.connections.len() implies after.can_open(#[trigger] after.connections[i]) by {
        let c = after.connections[i];
        assert(free(c));
        let k = s.connections.index_of(c);
        assert(s.can_open(s.connections[k]));
        lemma_found_in_filtered(s.instances, keep, |x: InstanceView| x.id == c.client_id);
        lemma_found_in_filtered(s.instances, keep, |x: InstanceView| x.id == c.server_id);
    }
}

proof fn lemma_same_ends_keep_wired(s: SessionView, after: SessionView)
    requires
        s.wired(),
        after.shape == s.shape,
        after.instances.len() == s.instances.len(),
        forall|i: int| 0 <= i < s.instances.len() ==> speaks_alike(#[trigger] s.instances[i], after.instances[i]),
        after.connections.len() == s.connections.len(),
        forall|i: int|
            0 <= i < s.connections.len() ==> (#[trigger] after.connections[i]).client_id == s.connections[i].client_id
                && after.connections[i].server_id == s.connections[i].server_id,
    ensures
        after.wired(),
{
    assert forall|i: int| 0 <= i < after.connections.len() implies after.can_open(#[trigger] after.connections[i]) by {
        let c = s.connections[i];
        assert(s.can_open(c));
        lemma_alike_instances(s.instances, after.instances, c.client_id);
        lemma_alike_instances(s.instances, after.instances, c.server_id);
    }
}

/// A connection that the session does not refuse can be opened, where what the
/// server speaks is compiled.
pub proof fn law_a_new_connection_can_be_opened(s: SessionView, client_id: Seq<char>, server_id: Seq<char>)
    requires
        s.wired(),
        s.connect_refusal(client_id, server_id) is None,
        s.shape.protocol(s.instance(server_id)->0.schema_ns, s.instance(server_id)->0.protocol) is Some,
    ensures
        s.with_connection(client_id, server_id).wired(),
{
    let after = s.with_connection(client_id, server_id);
    assert forall|i: int| 0 <= i < after.connections.len() implies after.can_open(#[trigger] after.connections[i]) by {
        if i < s.connections.len() {
            assert(s.can_open(s.connections[i]));
        }
    }
}

/// The counters stay at or past every id in the session, whatever is added or
/// taken away.
pub proof fn law_edits_keep_the_count(
    s: SessionView,
    spec: SpecView,
    place: PlaceView,
    client_id: Seq<char>,
    server_id: Seq<char>,
    id: Seq<char>,
)
    requires
        s.counted(),
    ensures
        s.with_instance(spec, place).counted(),
        s.with_connection(client_id, server_id).counted(),
        s.without_instance(id).counted(),
        s.without_connection(id).counted(),
{
    reveal_strlit("i");
    reveal_strlit("n");
    reveal_strlit("c");
    assert("i"@ =~= seq!['i']);
    assert("n"@ =~= seq!['n']);
    assert("c"@ =~= seq!['c']);
    lemma_tagged('i', "i"@, next_number(s.next_instance));
    lemma_tagged('n', "n"@, next_number(s.next_node));
    lemma_tagged('c', "c"@, next_number(s.next_conn));
    let more = s.with_instance(spec, place);
    if let Some(host) = s.host(place) {
        lemma_change_first_at(
            s.nodes,
            |n: NodeView| n.id == host.id,
            |n: NodeView| NodeView { instance_ids: n.instance_ids.push(s.next_instance_id()), ..n },
        );
    }
    assert forall|i: int| 0 <= i < more.nodes.len() implies (numbered((#[trigger] more.nodes[i]).id, 'n') matches Some(
        n,
    ) ==> n <= more.next_node) by {
        if i < s.nodes.len() {
            assert(more.nodes[i].id == s.nodes[i].id);
        }
    }
    lemma_filtered(s.instances, |i: InstanceView| i.id != id);
    lemma_filtered(s.connections, |c: ConnectionView| c.client_id != id && c.server_id != id);
    lemma_filtered(s.connections, |c: ConnectionView| c.id != id);
    lemma_fewer_nodes_are_counted(s, id);
    let fewer = s.without_instance(id);
    assert forall|i: int| 0 <= i < fewer.instances.len() implies (numbered(
        (#[trigger] fewer.instances[i]).id,
        'i',
    ) matches Some(n) ==> n <= fewer.next_instance) by {
        let k = s.instances.index_of(fewer.instances[i]);
        assert(s.instances[k].id == fewer.instances[i].id);
    }
    assert forall|i: int| 0 <= i < fewer.connections.len() implies (numbered(
        (#[trigger] fewer.connections[i]).id,
        'c',
    ) matches Some(n) ==> n <= fewer.next_conn) by {
        let k = s.connections.index_of(fewer.connections[i]);
        assert(s.connections[k].id == fewer.connections[i].id);
    }
    let parted = s.without_connection(id);
    assert forall|i: int| 0 <= i < parted.connections.len() implies (numbered(
        (#[trigger] parted.connections[i]).id,
        'c',
    ) matches Some(n) ==> n <= parted.next_conn) by {
        let k = s.connections.index_of(parted.connections[i]);
        assert(s.connections[k].id == parted.connections[i].id);
    }
}

proof fn lemma_fewer_nodes_are_counted(s: SessionView, id: Seq<char>)
    requires
        s.counted(),
    ensures
        forall|i: int|
            0 <= i < s.without_instance(id).nodes.len() ==> (numbered(
                (#[trigger] s.without_instance(id).nodes[i]).id,
                'n',
            ) matches Some(n) ==> n <= s.next_node),
{
    if let Some(instance) = s.instance(id) {
        let nid = instance.node_id;
        let pred = |n: NodeView| n.id == nid;
        let change = |n: NodeView| taken_out(n, id);
        let left = change_first(s.nodes, pred, change);
        lemma_change_first_at(s.nodes, pred, change);
        let kept = |n: NodeView| n.id != nid;
        lemma_filtered(left, kept);
        let after = s.without_instance(id).nodes;
        assert(after == left || after == left.filter(kept));
        assert forall|i: int| 0 <= i < after.len() implies (numbered((#[trigger] after[i]).id, 'n') matches Some(n) ==> n
            <= s.next_node) by {
            if after == left {
                assert(left[i].id == s.nodes[i].id);
            } else {
                let k = left.index_of(after[i]);
                assert(left[k].id == s.nodes[k].id);
            }
        }
    }
}

} // verus!

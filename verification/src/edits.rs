//! What the edits of a session do, and what they leave alone.

use vstd::prelude::*;
use crate::behavior::BehaviorKind;
use crate::dict::{lemma_changed, lemma_filtered, lemma_first, lemma_none, lemma_unchanged};
use crate::double::Double;
use crate::faults::{FaultDir, FaultSpec};
use crate::format::Codec;
use crate::json::Json;
use crate::model::{
    fresh_setting, fresh_settings, kept_settings, largest_number, lives, numbered, pruned, other_than, pruned_nodes,
    recompiled, survivors, taken_out, ClockMode, ConnectionView, FramingChoice, InstanceView, NodeView, PlaceView,
    Role, SessionView, SettingView, SpecView,
};
use crate::shape::{zero_of, FnView, ProjectView, ProtocolView, SchemaView};
use crate::text::{decimal, lowercase, trimmed};

verus! {

// ── schema edits ────────────────────────────────────────────────────────

/// Whether what an instance speaks is in `shape`.
pub open spec fn speaks(inst: InstanceView, shape: ProjectView) -> bool {
    shape.protocol(inst.schema_ns, inst.protocol) is Some
}

/// How many of the first `k` instances speak what is in `shape`.
pub open spec fn speaking(instances: Seq<InstanceView>, shape: ProjectView, k: int) -> int
    decreases k,
{
    if k <= 0 {
        0
    } else {
        speaking(instances, shape, k - 1) + (if speaks(instances[k - 1], shape) {
            1int
        } else {
            0
        })
    }
}

/// Whether `j` is the place of the last function of its name.
pub open spec fn last_named(functions: Seq<FnView>, j: int) -> bool {
    &&& 0 <= j < functions.len()
    &&& forall|i: int| j < i < functions.len() ==> (#[trigger] functions[i]).name != functions[j].name
}

proof fn lemma_speaking_in_front(a: Seq<InstanceView>, b: Seq<InstanceView>, shape: ProjectView, k: int)
    requires
        k <= a.len(),
        k <= b.len(),
        forall|i: int| 0 <= i < k ==> a[i] == b[i],
    ensures
        speaking(a, shape, k) == speaking(b, shape, k),
    decreases k,
{
    if k > 0 {
        lemma_speaking_in_front(a, b, shape, k - 1);
    }
}

proof fn lemma_speaking_grows(instances: Seq<InstanceView>, shape: ProjectView, k: int, n: int)
    requires
        0 <= k <= n,
    ensures
        0 <= speaking(instances, shape, k) <= speaking(instances, shape, n),
    decreases n,
{
    if k < n {
        lemma_speaking_grows(instances, shape, k, n - 1);
    } else if k > 0 {
        lemma_speaking_grows(instances, shape, k - 1, n - 1);
    }
}

proof fn lemma_survivor(instances: Seq<InstanceView>, shape: ProjectView, k: int)
    requires
        0 <= k < instances.len(),
        speaks(instances[k], shape),
    ensures
        survivors(instances, shape).len() == speaking(instances, shape, instances.len() as int),
        0 <= speaking(instances, shape, k) < survivors(instances, shape).len(),
        survivors(instances, shape)[speaking(instances, shape, k)] == ({
            let (schema, proto) = shape.protocol(instances[k].schema_ns, instances[k].protocol)->0;
            recompiled(instances[k], schema, proto)
        }),
    decreases instances.len(),
{
    let short = instances.drop_last();
    let n = short.len() as int;
    lemma_speaking_in_front(short, instances, shape, n);
    lemma_survivors_count(short, shape);
    lemma_speaking_grows(instances, shape, k, n);
    if k < n {
        lemma_survivor(short, shape, k);
        lemma_speaking_in_front(short, instances, shape, k);
    }
}

proof fn lemma_survivors_count(instances: Seq<InstanceView>, shape: ProjectView)
    ensures
        survivors(instances, shape).len() == speaking(instances, shape, instances.len() as int),
    decreases instances.len(),
{
    if instances.len() > 0 {
        let short = instances.drop_last();
        lemma_survivors_count(short, shape);
        lemma_speaking_in_front(short, instances, shape, short.len() as int);
    }
}

/// After a schema edit there are the instances whose protocol is compiled and no others,
/// in the order that they had, each under its id and its name, in its node, with its
/// role, its protocol and its hash.
pub proof fn law_a_schema_edit_keeps_those_who_speak(s: SessionView, shape: ProjectView, k: int)
    requires
        0 <= k < s.instances.len(),
        speaks(s.instances[k], shape),
    ensures
        s.rebuilt(shape).instances.len() == speaking(s.instances, shape, s.instances.len() as int),
        0 <= speaking(s.instances, shape, k) < s.rebuilt(shape).instances.len(),
        ({
            let was = s.instances[k];
            let is = s.rebuilt(shape).instances[speaking(s.instances, shape, k)];
            &&& is.id == was.id
            &&& is.name == was.name
            &&& is.role == was.role
            &&& is.schema_ns == was.schema_ns
            &&& is.protocol == was.protocol
            &&& is.ir_hash == was.ir_hash
            &&& is.node_id == was.node_id
            &&& was.role == Role::Client ==> is.behaviors == was.behaviors
        }),
{
    lemma_survivor(s.instances, shape, k);
}

proof fn lemma_kept(functions: Seq<FnView>, schema: SchemaView, had: Map<Seq<char>, SettingView>, j: int)
    requires
        last_named(functions, j),
    ensures
        kept_settings(functions, schema, had).contains_key(functions[j].name),
        had.contains_key(functions[j].name) && had[functions[j].name].kind.suits(functions[j]) ==> kept_settings(
            functions,
            schema,
            had,
        )[functions[j].name] == had[functions[j].name],
        !(had.contains_key(functions[j].name) && had[functions[j].name].kind.suits(functions[j])) ==> started(
            kept_settings(functions, schema, had)[functions[j].name],
            functions[j],
            schema,
        ),
    decreases functions.len(),
{
    if j < functions.len() - 1 {
        let short = functions.drop_last();
        assert forall|i: int| j < i < short.len() implies (#[trigger] short[i]).name != short[j].name by {
            assert(functions[i].name != functions[j].name);
        }
        lemma_kept(short, schema, had, j);
        assert(functions[functions.len() - 1].name != functions[j].name);
    } else {
        lemma_started(functions[j], schema);
    }
}

/// What a function starts on: a reply with the zero of what it returns, or nothing where
/// it is one-way.
pub open spec fn started(setting: SettingView, f: FnView, schema: SchemaView) -> bool {
    if f.oneway {
        &&& setting.kind == BehaviorKind::Drop
        &&& setting.config matches Json::Object(config)
        &&& forall|key: Seq<char>| !#[trigger] config.contains_key(key)
    } else {
        &&& setting.kind == BehaviorKind::Reply
        &&& setting.config matches Json::Object(config)
        &&& forall|key: Seq<char>| #[trigger] config.contains_key(key) <==> key == "value"@
        &&& config["value"@] == match f.returns {
            Some(ty) => zero_of(ty, schema.types, Seq::empty()),
            None => Json::Null,
        }
    }
}

proof fn lemma_started(f: FnView, schema: SchemaView)
    ensures
        started(fresh_setting(f, schema), f, schema),
{
}

/// A server that a schema edit leaves in the session does for a function what it did
/// before, by the same kind and the same configuration, where it did anything for that
/// name that the function still allows.
pub proof fn law_settings_survive_a_schema_edit(
    s: SessionView,
    shape: ProjectView,
    k: int,
    schema: SchemaView,
    proto: ProtocolView,
    j: int,
)
    requires
        0 <= k < s.instances.len(),
        s.instances[k].role == Role::Server,
        shape.protocol(s.instances[k].schema_ns, s.instances[k].protocol) == Some((schema, proto)),
        last_named(proto.functions, j),
        s.instances[k].behaviors.contains_key(proto.functions[j].name),
        s.instances[k].behaviors[proto.functions[j].name].kind.suits(proto.functions[j]),
    ensures
        ({
            let name = proto.functions[j].name;
            let before = s.instances[k].behaviors;
            let after = s.rebuilt(shape).instances[speaking(s.instances, shape, k)].behaviors;
            &&& after.contains_key(name)
            &&& after[name].kind == before[name].kind
            &&& after[name].config == before[name].config
        }),
{
    lemma_survivor(s.instances, shape, k);
    lemma_kept(proto.functions, schema, s.instances[k].behaviors, j);
}

/// Where a server did nothing for a function, or did what the function no longer
/// allows, a schema edit starts it anew.
pub proof fn law_a_schema_edit_starts_what_is_new(
    s: SessionView,
    shape: ProjectView,
    k: int,
    schema: SchemaView,
    proto: ProtocolView,
    j: int,
)
    requires
        0 <= k < s.instances.len(),
        s.instances[k].role == Role::Server,
        shape.protocol(s.instances[k].schema_ns, s.instances[k].protocol) == Some((schema, proto)),
        last_named(proto.functions, j),
        s.instances[k].behaviors.contains_key(proto.functions[j].name)
            ==> !s.instances[k].behaviors[proto.functions[j].name].kind.suits(proto.functions[j]),
    ensures
        ({
            let name = proto.functions[j].name;
            let after = s.rebuilt(shape).instances[speaking(s.instances, shape, k)].behaviors;
            after.contains_key(name) && started(after[name], proto.functions[j], schema)
        }),
{
    lemma_survivor(s.instances, shape, k);
    lemma_kept(proto.functions, schema, s.instances[k].behaviors, j);
}

/// Whether one of the instances `id` speaks what is in `shape`.
pub open spec fn survives(s: SessionView, shape: ProjectView, id: Seq<char>) -> bool {
    exists|k: int| 0 <= k < s.instances.len() && (#[trigger] s.instances[k]).id == id && speaks(s.instances[k], shape)
}

proof fn lemma_lives(instances: Seq<InstanceView>, shape: ProjectView, id: Seq<char>)
    ensures
        lives(survivors(instances, shape), id) <==> exists|k: int|
            0 <= k < instances.len() && (#[trigger] instances[k]).id == id && speaks(instances[k], shape),
    decreases instances.len(),
{
    let all = survivors(instances, shape);
    if instances.len() > 0 {
        let short = instances.drop_last();
        let rest = survivors(short, shape);
        let n = short.len() as int;
        lemma_lives(short, shape, id);
        if lives(all, id) {
            let i = choose|i: int| 0 <= i < all.len() && (#[trigger] all[i]).id == id;
            if i < rest.len() {
                assert(rest[i].id == id);
                assert(lives(rest, id));
                let k = choose|k: int| 0 <= k < short.len() && (#[trigger] short[k]).id == id && speaks(short[k], shape);
                assert(instances[k].id == id);
            } else {
                assert(instances[n].id == id);
            }
        }
        if exists|k: int| 0 <= k < instances.len() && (#[trigger] instances[k]).id == id && speaks(instances[k], shape) {
            let k = choose|k: int|
                0 <= k < instances.len() && (#[trigger] instances[k]).id == id && speaks(instances[k], shape);
            if k < n {
                assert(short[k].id == id);
                let i = choose|i: int| 0 <= i < rest.len() && (#[trigger] rest[i]).id == id;
                assert(all[i].id == id);
            } else {
                assert(all[rest.len() as int].id == id);
            }
        }
    }
}

/// A schema edit keeps a connection exactly where both its ends stay, and keeps it as it
/// was.
pub proof fn law_a_schema_edit_keeps_what_is_joined(s: SessionView, shape: ProjectView, c: ConnectionView)
    ensures
        s.rebuilt(shape).connections.contains(c) <==> s.connections.contains(c) && survives(s, shape, c.client_id)
            && survives(s, shape, c.server_id),
{
    let after = s.rebuilt(shape);
    let keep = |c: ConnectionView| lives(after.instances, c.client_id) && lives(after.instances, c.server_id);
    lemma_lives(s.instances, shape, c.client_id);
    lemma_lives(s.instances, shape, c.server_id);
    lemma_filtered(s.connections, keep);
    if s.connections.contains(c) && keep(c) {
        assert(s.connections[s.connections.index_of(c)] == c);
    }
    if after.connections.contains(c) {
        assert(after.connections[after.connections.index_of(c)] == c);
    }
    assert(keep(c) == (survives(s, shape, c.client_id) && survives(s, shape, c.server_id)));
}

/// A schema edit leaves the latency, the timeout, the seed, the clock and the counters
/// alone.
pub proof fn law_a_schema_edit_keeps_the_settings_of_the_session(s: SessionView, shape: ProjectView)
    ensures
        s.rebuilt(shape).shape == shape,
        s.rebuilt(shape).latency_ms == s.latency_ms,
        s.rebuilt(shape).call_timeout_ms == s.call_timeout_ms,
        s.rebuilt(shape).seed == s.seed,
        s.rebuilt(shape).clock_mode == s.clock_mode,
        s.rebuilt(shape).next_instance == s.next_instance,
        s.rebuilt(shape).next_node == s.next_node,
        s.rebuilt(shape).next_conn == s.next_conn,
{
}

// ── what is found ───────────────────────────────────────────────────────

/// Whether `k` is the place of the first instance `id`.
pub open spec fn instance_at(s: SessionView, id: Seq<char>, k: int) -> bool {
    &&& 0 <= k < s.instances.len()
    &&& s.instances[k].id == id
    &&& forall|j: int| 0 <= j < k ==> (#[trigger] s.instances[j]).id != id
}

/// Whether `k` is the place of the first connection `id`.
pub open spec fn connection_at(s: SessionView, id: Seq<char>, k: int) -> bool {
    &&& 0 <= k < s.connections.len()
    &&& s.connections[k].id == id
    &&& forall|j: int| 0 <= j < k ==> (#[trigger] s.connections[j]).id != id
}

/// Whether `k` is the place of the first node `id`.
pub open spec fn node_at(s: SessionView, id: Seq<char>, k: int) -> bool {
    &&& 0 <= k < s.nodes.len()
    &&& s.nodes[k].id == id
    &&& forall|j: int| 0 <= j < k ==> (#[trigger] s.nodes[j]).id != id
}

/// An id stands for the first instance that has it, and for none where none has it.
pub proof fn law_instances_are_found_by_id(s: SessionView, id: Seq<char>, k: int)
    ensures
        instance_at(s, id, k) ==> s.instance(id) == Some(s.instances[k]),
        (forall|j: int| 0 <= j < s.instances.len() ==> (#[trigger] s.instances[j]).id != id) ==> s.instance(id) is None,
{
    let pred = |i: InstanceView| i.id == id;
    if instance_at(s, id, k) {
        lemma_first(s.instances, pred, k);
    }
    if forall|j: int| 0 <= j < s.instances.len() ==> (#[trigger] s.instances[j]).id != id {
        lemma_none(s.instances, pred);
    }
}

/// An id stands for the first connection that has it, and for none where none has it.
pub proof fn law_connections_are_found_by_id(s: SessionView, id: Seq<char>, k: int)
    ensures
        connection_at(s, id, k) ==> s.connection(id) == Some(s.connections[k]),
        (forall|j: int| 0 <= j < s.connections.len() ==> (#[trigger] s.connections[j]).id != id) ==> s.connection(
            id,
        ) is None,
{
    let pred = |c: ConnectionView| c.id == id;
    if connection_at(s, id, k) {
        lemma_first(s.connections, pred, k);
    }
    if forall|j: int| 0 <= j < s.connections.len() ==> (#[trigger] s.connections[j]).id != id {
        lemma_none(s.connections, pred);
    }
}

/// An id stands for the first node that has it, and for none where none has it.
pub proof fn law_nodes_are_found_by_id(s: SessionView, id: Seq<char>, k: int)
    ensures
        node_at(s, id, k) ==> s.node(id) == Some(s.nodes[k]),
        (forall|j: int| 0 <= j < s.nodes.len() ==> (#[trigger] s.nodes[j]).id != id) ==> s.node(id) is None,
{
    let pred = |n: NodeView| n.id == id;
    if node_at(s, id, k) {
        lemma_first(s.nodes, pred, k);
    }
    if forall|j: int| 0 <= j < s.nodes.len() ==> (#[trigger] s.nodes[j]).id != id {
        lemma_none(s.nodes, pred);
    }
}

// ── edits of one thing ──────────────────────────────────────────────────

/// Setting the faults of a connection changes its faults and nothing else in the session.
pub proof fn law_faults_are_set_on_one_connection(s: SessionView, id: Seq<char>, faults: FaultSpec, k: int)
    requires
        connection_at(s, id, k),
    ensures
        s.with_faults(id, faults) == (SessionView {
            connections: s.connections.update(k, ConnectionView { faults, ..s.connections[k] }),
            ..s
        }),
{
    let pred = |c: ConnectionView| c.id == id;
    let change = |c: ConnectionView| ConnectionView { faults, ..c };
    lemma_changed(s.connections, pred, change, k);
}

/// Setting the transport of a connection changes its framing and its wire format, and
/// nothing else in the session.
pub proof fn law_a_transport_is_set_on_one_connection(
    s: SessionView,
    id: Seq<char>,
    framing: FramingChoice,
    wire_format: Codec,
    k: int,
)
    requires
        connection_at(s, id, k),
    ensures
        s.with_transport(id, framing, wire_format) == (SessionView {
            connections: s.connections.update(k, ConnectionView { framing, wire_format, ..s.connections[k] }),
            ..s
        }),
{
    let pred = |c: ConnectionView| c.id == id;
    let change = |c: ConnectionView| ConnectionView { framing, wire_format, ..c };
    lemma_changed(s.connections, pred, change, k);
}

/// Setting the behaviour of a function changes what one instance does for that function,
/// and nothing else in the session.
pub proof fn law_a_behaviour_is_set_on_one_function(
    s: SessionView,
    id: Seq<char>,
    fn_name: Seq<char>,
    setting: SettingView,
    k: int,
)
    requires
        instance_at(s, id, k),
    ensures
        s.with_behavior(id, fn_name, setting) == (SessionView {
            instances: s.instances.update(
                k,
                InstanceView { behaviors: s.instances[k].behaviors.insert(fn_name, setting), ..s.instances[k] },
            ),
            ..s
        }),
{
    let pred = |i: InstanceView| i.id == id;
    let change = |i: InstanceView| InstanceView { behaviors: i.behaviors.insert(fn_name, setting), ..i };
    lemma_changed(s.instances, pred, change, k);
}

/// A label that is not blank names one node, without the space at its ends. A blank one
/// changes nothing.
pub proof fn law_a_label_is_set_on_one_node(s: SessionView, id: Seq<char>, label: Seq<char>, k: int)
    requires
        node_at(s, id, k),
    ensures
        trimmed(label).len() > 0 ==> s.with_label(id, label) == (SessionView {
            nodes: s.nodes.update(k, NodeView { label: trimmed(label), ..s.nodes[k] }),
            ..s
        }),
        trimmed(label).len() == 0 ==> s.with_label(id, label) == s,
{
    let pred = |n: NodeView| n.id == id;
    let change = |n: NodeView| NodeView { label: trimmed(label), ..n };
    lemma_changed(s.nodes, pred, change, k);
}

/// A resync sets the hash of one instance to that of the schema that it speaks, and
/// changes nothing else in the session.
pub proof fn law_a_resync_sets_one_hash(
    s: SessionView,
    id: Seq<char>,
    k: int,
    schema: SchemaView,
    proto: ProtocolView,
)
    requires
        instance_at(s, id, k),
        s.shape.protocol(s.instances[k].schema_ns, s.instances[k].protocol) == Some((schema, proto)),
    ensures
        s.resynced(id) == (SessionView {
            instances: s.instances.update(k, InstanceView { ir_hash: schema.ir_hash, ..s.instances[k] }),
            ..s
        }),
{
    let pred = |i: InstanceView| i.id == id;
    let change = |i: InstanceView| InstanceView { ir_hash: schema.ir_hash, ..i };
    law_instances_are_found_by_id(s, id, k);
    lemma_changed(s.instances, pred, change, k);
}

/// An edit of what is not there changes nothing.
pub proof fn law_an_edit_of_nothing_changes_nothing(
    s: SessionView,
    id: Seq<char>,
    faults: FaultSpec,
    framing: FramingChoice,
    wire_format: Codec,
    label: Seq<char>,
)
    ensures
        (forall|j: int| 0 <= j < s.connections.len() ==> (#[trigger] s.connections[j]).id != id) ==> s.with_faults(
            id,
            faults,
        ) == s && s.with_transport(id, framing, wire_format) == s,
        (forall|j: int| 0 <= j < s.nodes.len() ==> (#[trigger] s.nodes[j]).id != id) ==> s.with_label(id, label) == s,
        (forall|j: int| 0 <= j < s.instances.len() ==> (#[trigger] s.instances[j]).id != id) ==> s.resynced(id) == s,
{
    if forall|j: int| 0 <= j < s.connections.len() ==> (#[trigger] s.connections[j]).id != id {
        let pred = |c: ConnectionView| c.id == id;
        lemma_unchanged(s.connections, pred, |c: ConnectionView| ConnectionView { faults, ..c });
        lemma_unchanged(s.connections, pred, |c: ConnectionView| ConnectionView { framing, wire_format, ..c });
    }
    if forall|j: int| 0 <= j < s.nodes.len() ==> (#[trigger] s.nodes[j]).id != id {
        let pred = |n: NodeView| n.id == id;
        lemma_unchanged(s.nodes, pred, |n: NodeView| NodeView { label: trimmed(label), ..n });
    }
    law_instances_are_found_by_id(s, id, 0);
}

// ── what is new ─────────────────────────────────────────────────────────

/// A new connection joins its two ends under the next id, without faults, on the framing
/// of its protocol, in JSON. Nothing else in the session changes.
pub proof fn law_a_new_connection_is_clean(s: SessionView, client_id: Seq<char>, server_id: Seq<char>)
    requires
        s.next_conn < u64::MAX,
    ensures
        s.with_connection(client_id, server_id) == (SessionView {
            connections: s.connections.push(
                ConnectionView {
                    id: seq!['c'] + decimal((s.next_conn + 1) as nat),
                    client_id,
                    server_id,
                    faults: FaultSpec {
                        drop_prob: Double { bits: 0 },
                        delay_min: Double { bits: 0 },
                        delay_max: Double { bits: 0 },
                        reorder_window: 0,
                        corrupt_prob: Double { bits: 0 },
                        partition: false,
                        apply_to: FaultDir::Both,
                    },
                    framing: FramingChoice::Auto,
                    wire_format: Codec::Json,
                },
            ),
            next_conn: (s.next_conn + 1) as u64,
            ..s
        }),
{
    reveal_strlit("c");
    assert("c"@ =~= seq!['c']);
}

/// A new instance stands behind the others under the next id, named after its protocol,
/// with the hash of its schema. A client does nothing on its own; a server does for each
/// function of its protocol, and for no other, what a function starts on.
pub proof fn law_a_new_instance_speaks_its_protocol(
    s: SessionView,
    spec: SpecView,
    place: PlaceView,
    schema: SchemaView,
    proto: ProtocolView,
    j: int,
)
    requires
        s.next_instance < u64::MAX,
        s.shape.protocol(spec.schema_ns, spec.protocol) == Some((schema, proto)),
    ensures
        ({
            let after = s.with_instance(spec, place);
            let new = after.instances.last();
            &&& after.instances.len() == s.instances.len() + 1
            &&& after.instances.drop_last() == s.instances
            &&& new.id == seq!['i'] + decimal((s.next_instance + 1) as nat)
            &&& new.role == spec.role
            &&& new.schema_ns == spec.schema_ns
            &&& new.protocol == spec.protocol
            &&& new.ir_hash == schema.ir_hash
            &&& spec.role == Role::Client ==> forall|name: Seq<char>| !#[trigger] new.behaviors.contains_key(name)
            &&& spec.role == Role::Server && last_named(proto.functions, j) ==> new.behaviors.contains_key(
                proto.functions[j].name,
            ) && started(new.behaviors[proto.functions[j].name], proto.functions[j], schema)
            &&& spec.role == Role::Server ==> forall|name: Seq<char>| #[trigger]
                new.behaviors.contains_key(name) ==> exists|i: int|
                    0 <= i < proto.functions.len() && (#[trigger] proto.functions[i]).name == name
            &&& after.next_instance == s.next_instance + 1
            &&& after.connections == s.connections
            &&& after.shape == s.shape
            &&& after.seed == s.seed
        }),
{
    reveal_strlit("i");
    assert("i"@ =~= seq!['i']);
    let after = s.with_instance(spec, place);
    assert(after.instances.drop_last() =~= s.instances);
    lemma_fresh(proto.functions, schema, j);
}

proof fn lemma_fresh(functions: Seq<FnView>, schema: SchemaView, j: int)
    ensures
        last_named(functions, j) ==> fresh_settings(functions, schema).contains_key(functions[j].name) && started(
            fresh_settings(functions, schema)[functions[j].name],
            functions[j],
            schema,
        ),
        forall|name: Seq<char>| #[trigger]
            fresh_settings(functions, schema).contains_key(name) ==> exists|i: int|
                0 <= i < functions.len() && (#[trigger] functions[i]).name == name,
    decreases functions.len(),
{
    if functions.len() > 0 {
        let short = functions.drop_last();
        let last = functions.len() - 1;
        lemma_fresh(short, schema, j);
        lemma_started(functions[last], schema);
        if last_named(functions, j) && j < last {
            assert forall|i: int| j < i < short.len() implies (#[trigger] short[i]).name != short[j].name by {
                assert(functions[i].name != functions[j].name);
            }
            assert(last_named(short, j));
            assert(functions[last].name != functions[j].name);
        }
        assert forall|name: Seq<char>| #[trigger] fresh_settings(functions, schema).contains_key(name) implies exists|i: int|
            0 <= i < functions.len() && (#[trigger] functions[i]).name == name by {
            if name == functions[last].name {
                assert(functions[last].name == name);
            } else {
                assert(fresh_settings(short, schema).contains_key(name));
                let i = choose|i: int| 0 <= i < short.len() && (#[trigger] short[i]).name == name;
                assert(functions[i].name == name);
            }
        }
    }
}

/// An instance that is placed on a node stands in it behind those that were there; one
/// that is not stands alone in a new node, `Machine` and its number, at the place given,
/// or at zero where that is not above it.
pub proof fn law_a_new_instance_is_placed(s: SessionView, spec: SpecView, place: PlaceView, k: int)
    requires
        s.next_instance < u64::MAX,
        s.next_node < u64::MAX,
    ensures
        ({
            let after = s.with_instance(spec, place);
            let new = after.instances.last();
            &&& (place.node_id matches Some(nid) && node_at(s, nid, k)) ==> {
                &&& new.node_id == s.nodes[k].id
                &&& after.nodes == s.nodes.update(
                    k,
                    NodeView { instance_ids: s.nodes[k].instance_ids.push(new.id), ..s.nodes[k] },
                )
                &&& after.next_node == s.next_node
            }
            &&& (place.node_id matches Some(nid) ==> forall|j: int|
                0 <= j < s.nodes.len() ==> (#[trigger] s.nodes[j]).id != nid) ==> {
                let node = after.nodes.last();
                &&& after.nodes.len() == s.nodes.len() + 1
                &&& after.nodes.drop_last() == s.nodes
                &&& node.id == seq!['n'] + decimal((s.next_node + 1) as nat)
                &&& new.node_id == node.id
                &&& node.label == "Machine "@ + decimal((s.next_node + 1) as nat)
                &&& node.instance_ids == seq![new.id]
                &&& node.x.bits == (if !place.x.is_nan() && place.x.scaled() > 0 {
                    place.x.bits
                } else {
                    0
                })
                &&& node.y.bits == (if !place.y.is_nan() && place.y.scaled() > 0 {
                    place.y.bits
                } else {
                    0
                })
                &&& after.next_node == s.next_node + 1
            }
        }),
{
    reveal_strlit("n");
    assert("n"@ =~= seq!['n']);
    let after = s.with_instance(spec, place);
    let id = s.next_instance_id();
    if let Some(nid) = place.node_id {
        law_nodes_are_found_by_id(s, nid, k);
        if node_at(s, nid, k) {
            let host = s.nodes[k];
            let pred = |n: NodeView| n.id == host.id;
            let change = |n: NodeView| NodeView { instance_ids: n.instance_ids.push(id), ..n };
            lemma_changed(s.nodes, pred, change, k);
        }
    }
    if s.host(place) is None {
        assert(after.nodes.drop_last() =~= s.nodes);
    }
}

/// A client and a server connect exactly where both are in the session, in these roles,
/// speak the same protocol of the same schema and are not connected yet.
pub proof fn law_who_connects(s: SessionView, client_id: Seq<char>, server_id: Seq<char>, a: int, b: int)
    requires
        instance_at(s, client_id, a),
        instance_at(s, server_id, b),
    ensures
        s.connect_refusal(client_id, server_id) is None <==> {
            &&& s.instances[a].role == Role::Client
            &&& s.instances[b].role == Role::Server
            &&& s.instances[a].schema_ns == s.instances[b].schema_ns
            &&& s.instances[a].protocol == s.instances[b].protocol
            &&& forall|i: int|
                0 <= i < s.connections.len() ==> (#[trigger] s.connections[i]).client_id != client_id
                    || s.connections[i].server_id != server_id
        },
        s.instances[a].role != Role::Client || s.instances[b].role != Role::Server ==> s.connect_refusal(
            client_id,
            server_id,
        ) == Some("connect: need a client and a server"@),
{
    law_instances_are_found_by_id(s, client_id, a);
    law_instances_are_found_by_id(s, server_id, b);
}

/// What is not in the session connects to nothing.
pub proof fn law_the_unknown_do_not_connect(s: SessionView, client_id: Seq<char>, server_id: Seq<char>)
    requires
        (forall|j: int| 0 <= j < s.instances.len() ==> (#[trigger] s.instances[j]).id != client_id) || (forall|j: int|
            0 <= j < s.instances.len() ==> (#[trigger] s.instances[j]).id != server_id),
    ensures
        s.connect_refusal(client_id, server_id) == Some("connect: unknown instance"@),
{
    law_instances_are_found_by_id(s, client_id, 0);
    law_instances_are_found_by_id(s, server_id, 0);
}

/// An empty session has nothing in it, no latency, 3 seconds for a call, the seed 1 and
/// a clock of its own accord, and counts from one.
pub proof fn law_a_session_starts_empty(shape: ProjectView)
    ensures
        ({
            let s = SessionView::empty(shape);
            &&& s.shape == shape
            &&& s.nodes.len() == 0
            &&& s.instances.len() == 0
            &&& s.connections.len() == 0
            &&& s.latency_ms.bits == 0
            &&& s.call_timeout_ms.bits == 0x40a7_7000_0000_0000
            &&& s.seed == 1
            &&& s.clock_mode == ClockMode::Real
            &&& s.next_instance == 0
            &&& s.next_node == 0
            &&& s.next_conn == 0
        }),
{
}

// ── nodes, counters, removals ───────────────────────────────────────────

/// A node with only those of its instances that stay.
pub open spec fn thinned(node: NodeView, s: SessionView, shape: ProjectView) -> NodeView {
    NodeView { instance_ids: node.instance_ids.filter(|id: Seq<char>| survives(s, shape, id)), ..node }
}

proof fn lemma_pruned_nodes(nodes: Seq<NodeView>, instances: Seq<InstanceView>, n: NodeView)
    ensures
        pruned_nodes(nodes, instances).contains(n) <==> n.instance_ids.len() > 0 && exists|k: int|
            0 <= k < nodes.len() && n == pruned(#[trigger] nodes[k], instances),
    decreases nodes.len(),
{
    let all = pruned_nodes(nodes, instances);
    if nodes.len() > 0 {
        let short = nodes.drop_last();
        let rest = pruned_nodes(short, instances);
        let last = pruned(nodes.last(), instances);
        lemma_pruned_nodes(short, instances, n);
        if all.contains(n) {
            let i = all.index_of(n);
            if i < rest.len() {
                assert(rest[i] == n);
                let k = choose|k: int| 0 <= k < short.len() && n == pruned(#[trigger] short[k], instances);
                assert(nodes[k] == short[k]);
            } else {
                assert(nodes[nodes.len() - 1] == nodes.last());
            }
        }
        if n.instance_ids.len() > 0 && exists|k: int|
            0 <= k < nodes.len() && n == pruned(#[trigger] nodes[k], instances) {
            let k = choose|k: int| 0 <= k < nodes.len() && n == pruned(#[trigger] nodes[k], instances);
            if k < short.len() {
                assert(short[k] == nodes[k]);
                let i = rest.index_of(n);
                assert(all[i] == n);
            } else {
                assert(all[rest.len() as int] == n);
            }
        }
    }
}

/// A schema edit leaves a node on the canvas exactly where an instance of it stays, with
/// its label and its place, and with those of its instances that stay, in their order.
pub proof fn law_a_schema_edit_keeps_the_nodes_of_those_who_stay(s: SessionView, shape: ProjectView, k: int)
    requires
        0 <= k < s.nodes.len(),
    ensures
        thinned(s.nodes[k], s, shape).instance_ids.len() > 0 ==> s.rebuilt(shape).nodes.contains(
            thinned(s.nodes[k], s, shape),
        ),
        forall|n: NodeView| #[trigger]
            s.rebuilt(shape).nodes.contains(n) ==> n.instance_ids.len() > 0 && exists|j: int|
                0 <= j < s.nodes.len() && n == thinned(#[trigger] s.nodes[j], s, shape),
{
    let instances = s.rebuilt(shape).instances;
    assert forall|j: int| 0 <= j < s.nodes.len() implies thinned(#[trigger] s.nodes[j], s, shape) == pruned(
        s.nodes[j],
        instances,
    ) by {
        let ids = s.nodes[j].instance_ids;
        let a = |id: Seq<char>| survives(s, shape, id);
        let b = |id: Seq<char>| lives(instances, id);
        assert forall|id: Seq<char>| #[trigger] a(id) == b(id) by {
            lemma_lives(s.instances, shape, id);
        }
        assert(a =~= b);
    }
    lemma_pruned_nodes(s.nodes, instances, thinned(s.nodes[k], s, shape));
    assert forall|n: NodeView| #[trigger] s.rebuilt(shape).nodes.contains(n) implies n.instance_ids.len() > 0 && exists|
        j: int,
    |
        0 <= j < s.nodes.len() && n == thinned(#[trigger] s.nodes[j], s, shape) by {
        lemma_pruned_nodes(s.nodes, instances, n);
        let j = choose|j: int| 0 <= j < s.nodes.len() && n == pruned(#[trigger] s.nodes[j], instances);
        assert(n == thinned(s.nodes[j], s, shape));
    }
}

/// A removed connection is gone, and no other is.
pub proof fn law_a_removed_connection_is_gone(s: SessionView, id: Seq<char>, c: ConnectionView)
    ensures
        s.without_connection(id).connections.contains(c) <==> s.connections.contains(c) && c.id != id,
        s.without_connection(id).instances == s.instances,
        s.without_connection(id).nodes == s.nodes,
        s.without_connection(id).next_conn == s.next_conn,
{
    let keep = |c: ConnectionView| c.id != id;
    lemma_filtered(s.connections, keep);
    let left = s.without_connection(id).connections;
    if left.contains(c) {
        assert(left[left.index_of(c)] == c);
    }
    if s.connections.contains(c) && keep(c) {
        assert(s.connections[s.connections.index_of(c)] == c);
    }
}

proof fn lemma_largest_is_one(ids: Seq<Seq<char>>, prefix: char, least: u64)
    ensures
        largest_number(ids, prefix, least) >= least,
        largest_number(ids, prefix, least) == least || exists|k: int|
            0 <= k < ids.len() && numbered(#[trigger] ids[k], prefix) == Some(
                largest_number(ids, prefix, least) as nat,
            ),
    decreases ids.len(),
{
    if ids.len() > 0 {
        let short = ids.drop_last();
        lemma_largest_is_one(short, prefix, least);
        let rest = largest_number(short, prefix, least);
        if largest_number(ids, prefix, least) == rest && rest != least {
            let k = choose|k: int| 0 <= k < short.len() && numbered(#[trigger] short[k], prefix) == Some(rest as nat);
            assert(ids[k] == short[k]);
        } else if largest_number(ids, prefix, least) != rest {
            let n = numbered(ids.last(), prefix)->0;
            assert(n <= u64::MAX);
            assert(ids[ids.len() - 1] == ids.last());
        }
    }
}

/// A reseeding lifts a counter no further than it must: it stays where it was, or stands
/// at the number of an id in the session.
pub proof fn law_a_reseeding_lifts_no_further_than_it_must(s: SessionView)
    ensures
        s.reseeded().next_instance == s.next_instance || exists|k: int|
            0 <= k < s.instances.len() && numbered((#[trigger] s.instances[k]).id, 'i') == Some(
                s.reseeded().next_instance as nat,
            ),
        s.reseeded().next_node == s.next_node || exists|k: int|
            0 <= k < s.nodes.len() && numbered((#[trigger] s.nodes[k]).id, 'n') == Some(s.reseeded().next_node as nat),
        s.reseeded().next_conn == s.next_conn || exists|k: int|
            0 <= k < s.connections.len() && numbered((#[trigger] s.connections[k]).id, 'c') == Some(
                s.reseeded().next_conn as nat,
            ),
{
    lemma_largest_is_one(s.instance_ids(), 'i', s.next_instance);
    lemma_largest_is_one(s.node_ids(), 'n', s.next_node);
    lemma_largest_is_one(s.connection_ids(), 'c', s.next_conn);
    let r = s.reseeded();
    if r.next_instance != s.next_instance {
        let ids = s.instance_ids();
        let k = choose|k: int| 0 <= k < ids.len() && numbered(#[trigger] ids[k], 'i') == Some(r.next_instance as nat);
        assert(s.instances[k].id == ids[k]);
    }
    if r.next_node != s.next_node {
        let ids = s.node_ids();
        let k = choose|k: int| 0 <= k < ids.len() && numbered(#[trigger] ids[k], 'n') == Some(r.next_node as nat);
        assert(s.nodes[k].id == ids[k]);
    }
    if r.next_conn != s.next_conn {
        let ids = s.connection_ids();
        let k = choose|k: int| 0 <= k < ids.len() && numbered(#[trigger] ids[k], 'c') == Some(r.next_conn as nat);
        assert(s.connections[k].id == ids[k]);
    }
}

/// A behaviour can be set exactly on a server, for a function of the protocol that it
/// speaks.
pub proof fn law_where_a_behaviour_can_be_set(s: SessionView, id: Seq<char>, fn_name: Seq<char>, k: int)
    requires
        instance_at(s, id, k),
    ensures
        s.behavior_refusal(id, fn_name) is None <==> s.instances[k].role == Role::Server && (s.shape.protocol(
            s.instances[k].schema_ns,
            s.instances[k].protocol,
        ) matches Some((schema, proto)) && proto.function(fn_name) is Some),
        s.instances[k].role == Role::Client ==> s.behavior_refusal(id, fn_name) == Some(
            "setBehavior: not a server instance"@,
        ),
        s.instances[k].role == Role::Server && s.behavior_refusal(id, fn_name) is Some ==> s.behavior_refusal(id, fn_name)
            == Some("setBehavior: no function "@ + fn_name),
{
    law_instances_are_found_by_id(s, id, k);
}

/// A setting has the kind and the configuration that it was given, or, without one, what
/// the kind starts with.
pub proof fn law_a_setting_is_what_was_given(
    s: SessionView,
    id: Seq<char>,
    fn_name: Seq<char>,
    kind: BehaviorKind,
    config: Json,
    k: int,
    schema: SchemaView,
    proto: ProtocolView,
    f: FnView,
)
    requires
        instance_at(s, id, k),
        s.shape.protocol(s.instances[k].schema_ns, s.instances[k].protocol) == Some((schema, proto)),
        proto.function(fn_name) == Some(f),
    ensures
        s.setting_for(id, fn_name, kind, Some(config)).kind == kind,
        s.setting_for(id, fn_name, kind, Some(config)).config == config,
        s.setting_for(id, fn_name, kind, None).kind == kind,
        s.setting_for(id, fn_name, kind, None).config == Json::Object(kind.initial_config(f, schema)),
{
    law_instances_are_found_by_id(s, id, k);
}

/// How many of the first `k` instances speak a protocol of that name.
pub open spec fn named(instances: Seq<InstanceView>, protocol: Seq<char>, k: int) -> int
    decreases k,
{
    if k <= 0 {
        0
    } else {
        named(instances, protocol, k - 1) + (if instances[k - 1].protocol == protocol {
            1int
        } else {
            0
        })
    }
}

proof fn lemma_named(instances: Seq<InstanceView>, protocol: Seq<char>)
    ensures
        instances.filter(|i: InstanceView| i.protocol == protocol).len() == named(
            instances,
            protocol,
            instances.len() as int,
        ),
    decreases instances.len(),
{
    reveal(Seq::filter);
    if instances.len() > 0 {
        let short = instances.drop_last();
        lemma_named(short, protocol);
        lemma_named_in_front(short, instances, protocol, short.len() as int);
    }
}

proof fn lemma_named_in_front(a: Seq<InstanceView>, b: Seq<InstanceView>, protocol: Seq<char>, k: int)
    requires
        k <= a.len(),
        k <= b.len(),
        forall|i: int| 0 <= i < k ==> a[i] == b[i],
    ensures
        named(a, protocol, k) == named(b, protocol, k),
    decreases k,
{
    if k > 0 {
        lemma_named_in_front(a, b, protocol, k - 1);
    }
}

/// A new instance is named after its protocol, in lower case, with how many there are
/// then of that protocol.
pub proof fn law_a_new_instance_is_named_after_its_protocol(s: SessionView, spec: SpecView, place: PlaceView)
    requires
        s.instances.len() < u64::MAX,
    ensures
        s.with_instance(spec, place).instances.last().name == lowercase(spec.protocol) + seq!['-'] + decimal(
            named(
                s.with_instance(spec, place).instances,
                spec.protocol,
                s.with_instance(spec, place).instances.len() as int,
            ) as nat,
        ),
{
    reveal_strlit("-");
    assert("-"@ =~= seq!['-']);
    let after = s.with_instance(spec, place).instances;
    let n = s.instances.len() as int;
    lemma_named(s.instances, spec.protocol);
    lemma_named_in_front(s.instances, after, spec.protocol, n);
    lemma_named_bound(s.instances, spec.protocol, n);
    assert(after[n] == after.last());
    assert(named(after, spec.protocol, n + 1) == named(after, spec.protocol, n) + 1);
}

proof fn lemma_named_bound(instances: Seq<InstanceView>, protocol: Seq<char>, k: int)
    requires
        0 <= k,
    ensures
        0 <= named(instances, protocol, k) <= k,
    decreases k,
{
    if k > 0 {
        lemma_named_bound(instances, protocol, k - 1);
    }
}

/// An instance of what is not compiled does nothing, and has the hash `0x0`.
pub proof fn law_an_instance_of_nothing_compiled(s: SessionView, spec: SpecView, place: PlaceView, name: Seq<char>)
    requires
        s.shape.protocol(spec.schema_ns, spec.protocol) is None,
    ensures
        !s.with_instance(spec, place).instances.last().behaviors.contains_key(name),
        s.with_instance(spec, place).instances.last().ir_hash == seq!['0', 'x', '0'],
{
    reveal_strlit("0x0");
    assert("0x0"@ =~= seq!['0', 'x', '0']);
}

/// A removed instance is out of its node, whose others stay in their order. A node that
/// it leaves empty is gone. No other node changes.
pub proof fn law_a_removed_instance_leaves_its_node(s: SessionView, id: Seq<char>, i: int, k: int, n: NodeView)
    requires
        instance_at(s, id, i),
        node_at(s, s.instances[i].node_id, k),
    ensures
        ({
            let left = s.nodes[k].instance_ids.filter(|x: Seq<char>| x != id);
            let after = s.without_instance(id).nodes;
            &&& left.len() > 0 ==> after == s.nodes.update(k, NodeView { instance_ids: left, ..s.nodes[k] })
            &&& left.len() == 0 ==> (after.contains(n) <==> s.nodes.contains(n) && n.id != s.nodes[k].id)
        }),
{
    law_instances_are_found_by_id(s, id, i);
    let nid = s.instances[i].node_id;
    law_nodes_are_found_by_id(s, nid, k);
    let pred = |n: NodeView| n.id == nid;
    let change = |n: NodeView| taken_out(n, id);
    lemma_changed(s.nodes, pred, change, k);
    let other = |x: Seq<char>| x != id;
    assert(other_than(id) =~= other);
    let changed = s.nodes.update(k, taken_out(s.nodes[k], id));
    let after = s.without_instance(id).nodes;
    if s.nodes[k].instance_ids.filter(other).len() == 0 {
        let keep = |n: NodeView| n.id != nid;
        assert(after == changed.filter(keep));
        lemma_filtered(changed, keep);
        if after.contains(n) {
            assert(after[after.index_of(n)] == n);
            let j = changed.index_of(n);
            assert(j != k);
            assert(s.nodes[j] == n);
        }
        if s.nodes.contains(n) && n.id != nid {
            let j = s.nodes.index_of(n);
            assert(changed[j] == n);
        }
    }
}

/// The refusals of a connection name what is wrong: two protocols that differ, or two
/// instances that are connected already.
pub proof fn law_why_two_do_not_connect(s: SessionView, client_id: Seq<char>, server_id: Seq<char>, a: int, b: int)
    requires
        instance_at(s, client_id, a),
        instance_at(s, server_id, b),
        s.instances[a].role == Role::Client,
        s.instances[b].role == Role::Server,
    ensures
        s.instances[a].schema_ns != s.instances[b].schema_ns || s.instances[a].protocol != s.instances[b].protocol
            ==> s.connect_refusal(client_id, server_id) == Some(
            "connect: "@ + s.instances[a].protocol + " ≠ "@ + s.instances[b].protocol,
        ),
        s.instances[a].schema_ns == s.instances[b].schema_ns && s.instances[a].protocol == s.instances[b].protocol && (
        exists|i: int|
            0 <= i < s.connections.len() && (#[trigger] s.connections[i]).client_id == client_id
                && s.connections[i].server_id == server_id) ==> s.connect_refusal(client_id, server_id) == Some(
            "connect: "@ + s.instances[a].name + " ↔ "@ + s.instances[b].name + " already connected"@,
        ),
{
    law_instances_are_found_by_id(s, client_id, a);
    law_instances_are_found_by_id(s, server_id, b);
}

} // verus!

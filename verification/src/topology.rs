//! What holds of the topology of every session, however it was built: each node
//! hosts an instance, each instance stands in just its own node, and each
//! connection joins a client to a server of its protocol, no pair twice.

use vstd::prelude::*;
use crate::dict::{
    change_first, first_where, is_first, lemma_filter_keeps_all, lemma_filtered, lemma_first_where, lemma_found,
};
use crate::model::{
    law_edits_keep_the_count, law_fresh_ids_do_not_collide, lives, nodes_without, other_than, pruned, pruned_nodes, survivors,
    taken_out, ConnectionView, InstanceView, NodeView, PlaceView, Role, SessionView, SpecView,
};
use crate::shape::ProjectView;

verus! {

// ── the invariant ───────────────────────────────────────────────────────

/// Whether each instance has an id of its own.
pub open spec fn distinct_instances(instances: Seq<InstanceView>) -> bool {
    forall|i: int, j: int| 0 <= i < j < instances.len() ==> (#[trigger] instances[i]).id != (#[trigger] instances[j]).id
}

/// Whether each node has an id of its own.
pub open spec fn distinct_nodes(nodes: Seq<NodeView>) -> bool {
    forall|i: int, j: int| 0 <= i < j < nodes.len() ==> (#[trigger] nodes[i]).id != (#[trigger] nodes[j]).id
}

/// Whether the instance `id` is there, and names the node `nid` as its own.
pub open spec fn dwells(instances: Seq<InstanceView>, id: Seq<char>, nid: Seq<char>) -> bool {
    exists|i: int| 0 <= i < instances.len() && (#[trigger] instances[i]).id == id && instances[i].node_id == nid
}

/// Whether the node `nid` is there, and lists the instance `id`.
pub open spec fn listed(nodes: Seq<NodeView>, nid: Seq<char>, id: Seq<char>) -> bool {
    exists|a: int| 0 <= a < nodes.len() && (#[trigger] nodes[a]).id == nid && nodes[a].instance_ids.contains(id)
}

/// Whether each node lists at least one instance, none twice, and only such as
/// name it as their own.
pub open spec fn hosting(nodes: Seq<NodeView>, instances: Seq<InstanceView>) -> bool {
    forall|a: int| 0 <= a < nodes.len() ==> hosts(#[trigger] nodes[a], instances)
}

/// [`hosting`], of one node.
pub open spec fn hosts(node: NodeView, instances: Seq<InstanceView>) -> bool {
    &&& node.instance_ids.len() > 0
    &&& node.instance_ids.no_duplicates()
    &&& forall|x: Seq<char>| #[trigger] node.instance_ids.contains(x) ==> dwells(instances, x, node.id)
}

/// Whether each instance is listed in the node that it names.
pub open spec fn housed(nodes: Seq<NodeView>, instances: Seq<InstanceView>) -> bool {
    forall|i: int|
        0 <= i < instances.len() ==> listed(nodes, (#[trigger] instances[i]).node_id, instances[i].id)
}

/// Whether the client end and the server end of `c` are there, and speak one
/// protocol.
pub open spec fn joins(instances: Seq<InstanceView>, c: ConnectionView) -> bool {
    exists|i: int, j: int|
        #![trigger instances[i], instances[j]]
        0 <= i < instances.len() && 0 <= j < instances.len() && matched(instances[i], instances[j]) && instances[i].id
            == c.client_id && instances[j].id == c.server_id
}

/// Whether these are a client and a server of one protocol.
pub open spec fn matched(client: InstanceView, server: InstanceView) -> bool {
    client.role == Role::Client && server.role == Role::Server && client.schema_ns == server.schema_ns
        && client.protocol == server.protocol
}

/// Whether no two of `connections` join the same pair.
pub open spec fn distinct_pairs(connections: Seq<ConnectionView>) -> bool {
    forall|i: int, j: int|
        0 <= i < j < connections.len() ==> !((#[trigger] connections[i]).client_id == (
        #[trigger] connections[j]).client_id && connections[i].server_id == connections[j].server_id)
}

impl SessionView {
    /// Each node hosts at least one instance; each instance is listed in exactly
    /// one node, the one that it names, and no node lists anything else; each
    /// connection joins a client to a server of its protocol, and no pair is
    /// joined twice.
    pub open spec fn tidy(self) -> bool {
        &&& distinct_instances(self.instances)
        &&& distinct_nodes(self.nodes)
        &&& hosting(self.nodes, self.instances)
        &&& housed(self.nodes, self.instances)
        &&& forall|k: int| 0 <= k < self.connections.len() ==> joins(self.instances, #[trigger] self.connections[k])
        &&& distinct_pairs(self.connections)
    }
}

/// In a tidy session an instance is listed in no node but its own.
pub proof fn law_an_instance_stands_in_one_node(s: SessionView, a: int, i: int)
    requires
        s.tidy(),
        0 <= a < s.nodes.len(),
        0 <= i < s.instances.len(),
    ensures
        s.nodes[a].instance_ids.contains(s.instances[i].id) <==> s.nodes[a].id == s.instances[i].node_id,
{
    let id = s.instances[i].id;
    assert(hosts(s.nodes[a], s.instances));
    if s.nodes[a].instance_ids.contains(id) {
        assert(dwells(s.instances, id, s.nodes[a].id));
        let k = choose|k: int|
            0 <= k < s.instances.len() && (#[trigger] s.instances[k]).id == id && s.instances[k].node_id
                == s.nodes[a].id;
        assert(k == i);
    }
    if s.nodes[a].id == s.instances[i].node_id {
        assert(listed(s.nodes, s.instances[i].node_id, id));
        let b = choose|b: int|
            0 <= b < s.nodes.len() && (#[trigger] s.nodes[b]).id == s.instances[i].node_id
                && s.nodes[b].instance_ids.contains(id);
        assert(b == a);
    }
}

// ── edits ───────────────────────────────────────────────────────────────

/// An edit of the topology.
pub ghost enum Edit {
    AddInstance(SpecView, PlaceView),
    RemoveInstance(Seq<char>),
    AddConnection(Seq<char>, Seq<char>),
    RemoveConnection(Seq<char>),
    Rebuild(ProjectView),
}

impl SessionView {
    /// After one edit. A connection that is refused changes nothing.
    pub open spec fn edited(self, edit: Edit) -> SessionView {
        match edit {
            Edit::AddInstance(spec, place) => self.with_instance(spec, place),
            Edit::RemoveInstance(id) => self.without_instance(id),
            Edit::AddConnection(client, server) => if self.connect_refusal(client, server) is None {
                self.with_connection(client, server)
            } else {
                self
            },
            Edit::RemoveConnection(id) => self.without_connection(id),
            Edit::Rebuild(shape) => self.rebuilt(shape),
        }
    }

    /// After a number of edits, one after the other.
    pub open spec fn after_edits(self, edits: Seq<Edit>) -> SessionView
        decreases edits.len(),
    {
        if edits.len() == 0 {
            self
        } else {
            self.after_edits(edits.drop_last()).edited(edits.last())
        }
    }
}

/// Every session that was built from an empty one is tidy, whatever the edits and
/// their order.
pub proof fn law_every_session_is_tidy(shape: ProjectView, edits: Seq<Edit>)
    requires
        edits.len() < u64::MAX,
    ensures
        SessionView::empty(shape).after_edits(edits).tidy(),
{
    lemma_after_edits(shape, edits);
}

proof fn lemma_after_edits(shape: ProjectView, edits: Seq<Edit>)
    requires
        edits.len() < u64::MAX,
    ensures
        ({
            let s = SessionView::empty(shape).after_edits(edits);
            &&& s.tidy()
            &&& s.counted()
            &&& s.next_instance <= edits.len()
            &&& s.next_node <= edits.len()
        }),
    decreases edits.len(),
{
    if edits.len() > 0 {
        lemma_after_edits(shape, edits.drop_last());
        let s = SessionView::empty(shape).after_edits(edits.drop_last());
        law_an_edit_keeps_the_session_tidy(s, edits.last());
    }
}

/// No edit takes the order out of a session: it stays tidy, and its counters stay
/// at or past every id.
pub proof fn law_an_edit_keeps_the_session_tidy(s: SessionView, edit: Edit)
    requires
        s.tidy(),
        s.counted(),
        s.next_instance < u64::MAX,
        s.next_node < u64::MAX,
    ensures
        s.edited(edit).tidy(),
        s.edited(edit).counted(),
        s.edited(edit).next_instance <= s.next_instance + 1,
        s.edited(edit).next_node <= s.next_node + 1,
{
    match edit {
        Edit::AddInstance(spec, place) => {
            law_edits_keep_the_count(s, spec, place, spec.protocol, spec.protocol, spec.protocol);
            lemma_addition_is_tidy(s, spec, place);
        },
        Edit::RemoveInstance(id) => {
            let (spec, place) = arbitrary_addition();
            law_edits_keep_the_count(s, spec, place, id, id, id);
            lemma_removal_is_tidy(s, id);
        },
        Edit::AddConnection(client, server) => {
            let (spec, place) = arbitrary_addition();
            law_edits_keep_the_count(s, spec, place, client, server, client);
            if s.connect_refusal(client, server) is None {
                lemma_connection_is_tidy(s, client, server);
            }
        },
        Edit::RemoveConnection(id) => {
            let (spec, place) = arbitrary_addition();
            law_edits_keep_the_count(s, spec, place, id, id, id);
            lemma_parting_is_tidy(s, id);
        },
        Edit::Rebuild(shape) => {
            lemma_rebuild_is_tidy(s, shape);
            lemma_rebuild_is_counted(s, shape);
        },
    }
}

spec fn arbitrary_addition() -> (SpecView, PlaceView) {
    arbitrary()
}

// ── adding ──────────────────────────────────────────────────────────────

proof fn lemma_first_place<A>(items: Seq<A>, pred: spec_fn(A) -> bool) -> (i: int)
    requires
        first_where(items, pred) is Some,
    ensures
        is_first(items, pred, i),
    decreases items.len(),
{
    if pred(items[0]) {
        0
    } else {
        let rest = items.drop_first();
        let k = lemma_first_place(rest, pred);
        assert forall|j: int| 0 <= j < k + 1 implies !pred(#[trigger] items[j]) by {
            if j > 0 {
                assert(!pred(rest[j - 1]));
            }
        }
        assert(items[k + 1] == rest[k]);
        k + 1
    }
}

proof fn lemma_dwells_among_more(instances: Seq<InstanceView>, more: InstanceView, id: Seq<char>, nid: Seq<char>)
    requires
        dwells(instances, id, nid),
    ensures
        dwells(instances.push(more), id, nid),
{
    let i = choose|i: int|
        0 <= i < instances.len() && (#[trigger] instances[i]).id == id && instances[i].node_id == nid;
    assert(instances.push(more)[i] == instances[i]);
}

proof fn lemma_joins_among_more(instances: Seq<InstanceView>, more: InstanceView, c: ConnectionView)
    requires
        joins(instances, c),
    ensures
        joins(instances.push(more), c),
{
    let (i, j) = choose|i: int, j: int|
        #![trigger instances[i], instances[j]]
        0 <= i < instances.len() && 0 <= j < instances.len() && matched(instances[i], instances[j]) && instances[i].id
            == c.client_id && instances[j].id == c.server_id;
    let all = instances.push(more);
    assert(all[i] == instances[i] && all[j] == instances[j]);
}

proof fn lemma_addition_is_tidy(s: SessionView, spec: SpecView, place: PlaceView)
    requires
        s.tidy(),
        s.counted(),
        s.next_instance < u64::MAX,
        s.next_node < u64::MAX,
    ensures
        s.with_instance(spec, place).tidy(),
{
    law_fresh_ids_do_not_collide(s);
    let id = s.next_instance_id();
    let after = s.with_instance(spec, place);
    let new = after.instances.last();
    assert(after.instances == s.instances.push(new));
    assert(after.instances[s.instances.len() as int] == new);
    assert(new.id == id);
    assert forall|i: int, j: int| 0 <= i < j < after.instances.len() implies (#[trigger] after.instances[i]).id != (
    #[trigger] after.instances[j]).id by {
        assert(after.instances[i] == s.instances[i]);
        if j == s.instances.len() {
            assert(!lives(s.instances, id));
        }
    }
    // nobody lists the new id yet
    assert forall|a: int| 0 <= a < s.nodes.len() implies !(#[trigger] s.nodes[a]).instance_ids.contains(id) by {
        if s.nodes[a].instance_ids.contains(id) {
            assert(hosts(s.nodes[a], s.instances));
            assert(dwells(s.instances, id, s.nodes[a].id));
            assert(lives(s.instances, id));
        }
    }
    assert forall|k: int| 0 <= k < after.connections.len() implies joins(
        after.instances,
        #[trigger] after.connections[k],
    ) by {
        assert(joins(s.instances, s.connections[k]));
        lemma_joins_among_more(s.instances, new, s.connections[k]);
    }
    match s.host(place) {
        Some(host) => {
            assert(s.node(place.node_id->0) == Some(host));
            lemma_hosted_addition(s, after, new, host);
        },
        None => {
            assert(after.nodes.drop_last() == s.nodes);
            lemma_fresh_node(s, after, new);
        },
    }
}

proof fn lemma_hosted_addition(s: SessionView, after: SessionView, new: InstanceView, host: NodeView)
    requires
        s.tidy(),
        after.instances == s.instances.push(new),
        new.node_id == host.id,
        forall|a: int| 0 <= a < s.nodes.len() ==> !(#[trigger] s.nodes[a]).instance_ids.contains(new.id),
        exists|nid: Seq<char>| #[trigger] s.node(nid) == Some(host),
        after.nodes == change_first(
            s.nodes,
            |n: NodeView| n.id == host.id,
            |n: NodeView| NodeView { instance_ids: n.instance_ids.push(new.id), ..n },
        ),
    ensures
        distinct_nodes(after.nodes),
        hosting(after.nodes, after.instances),
        housed(after.nodes, after.instances),
{
    let nid = choose|nid: Seq<char>| #[trigger] s.node(nid) == Some(host);
    lemma_found(s.nodes, |n: NodeView| n.id == nid);
    assert(host.id == nid);
    let pred = |n: NodeView| n.id == host.id;
    let change = |n: NodeView| NodeView { instance_ids: n.instance_ids.push(new.id), ..n };
    let h = lemma_first_place(s.nodes, pred);
    lemma_first_where(s.nodes, pred, change, h);
    let grown = change(s.nodes[h]);
    assert(after.nodes == s.nodes.update(h, grown));
    assert forall|i: int, j: int| 0 <= i < j < after.nodes.len() implies (#[trigger] after.nodes[i]).id != (
    #[trigger] after.nodes[j]).id by {
        assert(s.nodes[i].id != s.nodes[j].id);
    }
    assert forall|a: int| 0 <= a < after.nodes.len() implies hosts(#[trigger] after.nodes[a], after.instances) by {
        let node = after.nodes[a];
        assert(hosts(s.nodes[a], s.instances));
        assert forall|x: Seq<char>| #[trigger] node.instance_ids.contains(x) implies dwells(
            after.instances,
            x,
            node.id,
        ) by {
            if s.nodes[a].instance_ids.contains(x) {
                lemma_dwells_among_more(s.instances, new, x, node.id);
            } else {
                let k = node.instance_ids.index_of(x);
                assert(a == h);
                if k < s.nodes[h].instance_ids.len() {
                    assert(s.nodes[h].instance_ids[k] == x);
                }
                assert(x == new.id);
                assert(after.instances[s.instances.len() as int] == new);
            }
        }
        if a == h {
            let old_ids = s.nodes[h].instance_ids;
            assert forall|p: int, q: int|
                0 <= p < node.instance_ids.len() && 0 <= q < node.instance_ids.len() && p
                    != q implies #[trigger] node.instance_ids[p] != #[trigger] node.instance_ids[q] by {
                if p < old_ids.len() && q < old_ids.len() {
                    assert(old_ids[p] != old_ids[q]);
                } else if p < old_ids.len() {
                    assert(old_ids.contains(old_ids[p]));
                } else {
                    assert(old_ids.contains(old_ids[q]));
                }
            }
        }
    }
    assert forall|i: int| 0 <= i < after.instances.len() implies listed(
        after.nodes,
        (#[trigger] after.instances[i]).node_id,
        after.instances[i].id,
    ) by {
        if i < s.instances.len() {
            assert(after.instances[i] == s.instances[i]);
            let inst = s.instances[i];
            assert(listed(s.nodes, inst.node_id, inst.id));
            let a = choose|a: int|
                0 <= a < s.nodes.len() && (#[trigger] s.nodes[a]).id == inst.node_id
                    && s.nodes[a].instance_ids.contains(inst.id);
            let p = s.nodes[a].instance_ids.index_of(inst.id);
            assert(after.nodes[a].id == inst.node_id);
            assert(after.nodes[a].instance_ids[p] == inst.id);
        } else {
            assert(after.nodes[h].id == new.node_id);
            assert(after.nodes[h].instance_ids[s.nodes[h].instance_ids.len() as int] == new.id);
        }
    }
}

proof fn lemma_fresh_node(s: SessionView, after: SessionView, new: InstanceView)
    requires
        s.tidy(),
        s.node(new.node_id) is None,
        after.instances == s.instances.push(new),
        after.nodes.len() == s.nodes.len() + 1,
        after.nodes.drop_last() == s.nodes,
        after.nodes.last().id == new.node_id,
        after.nodes.last().instance_ids == seq![new.id],
    ensures
        distinct_nodes(after.nodes),
        hosting(after.nodes, after.instances),
        housed(after.nodes, after.instances),
{
    let n = s.nodes.len() as int;
    let fresh = after.nodes[n];
    assert(after.nodes.last() == fresh);
    let pred = |x: NodeView| x.id == new.node_id;
    lemma_found(s.nodes, pred);
    assert forall|i: int| 0 <= i < n implies #[trigger] after.nodes[i] == s.nodes[i] by {
        assert(after.nodes.drop_last()[i] == after.nodes[i]);
    }
    assert forall|i: int, j: int| 0 <= i < j < after.nodes.len() implies (#[trigger] after.nodes[i]).id != (
    #[trigger] after.nodes[j]).id by {
        if j == n {
            assert(!pred(s.nodes[i]));
        } else {
            assert(s.nodes[i].id != s.nodes[j].id);
        }
    }
    assert forall|a: int| 0 <= a < after.nodes.len() implies hosts(#[trigger] after.nodes[a], after.instances) by {
        let node = after.nodes[a];
        if a < n {
            assert(hosts(s.nodes[a], s.instances));
        }
        assert forall|x: Seq<char>| #[trigger] node.instance_ids.contains(x) implies dwells(
            after.instances,
            x,
            node.id,
        ) by {
            if a < n {
                lemma_dwells_among_more(s.instances, new, x, node.id);
            } else {
                assert(x == new.id);
                assert(after.instances[s.instances.len() as int] == new);
            }
        }
    }
    assert forall|i: int| 0 <= i < after.instances.len() implies listed(
        after.nodes,
        (#[trigger] after.instances[i]).node_id,
        after.instances[i].id,
    ) by {
        if i < s.instances.len() {
            assert(after.instances[i] == s.instances[i]);
            let inst = s.instances[i];
            assert(listed(s.nodes, inst.node_id, inst.id));
            let a = choose|a: int|
                0 <= a < s.nodes.len() && (#[trigger] s.nodes[a]).id == inst.node_id
                    && s.nodes[a].instance_ids.contains(inst.id);
            assert(after.nodes[a] == s.nodes[a]);
        } else {
            assert(fresh.instance_ids[0] == new.id);
            assert(fresh.id == new.node_id);
        }
    }
}

// ── connections ─────────────────────────────────────────────────────────

proof fn lemma_connection_is_tidy(s: SessionView, client_id: Seq<char>, server_id: Seq<char>)
    requires
        s.tidy(),
        s.connect_refusal(client_id, server_id) is None,
    ensures
        s.with_connection(client_id, server_id).tidy(),
{
    let after = s.with_connection(client_id, server_id);
    let n = s.connections.len() as int;
    let client = s.instance(client_id)->0;
    let server = s.instance(server_id)->0;
    lemma_found(s.instances, |x: InstanceView| x.id == client_id);
    lemma_found(s.instances, |x: InstanceView| x.id == server_id);
    let i = s.instances.index_of(client);
    let j = s.instances.index_of(server);
    assert(s.instances[i] == client && s.instances[j] == server);
    assert(matched(s.instances[i], s.instances[j]));
    assert forall|k: int| 0 <= k < after.connections.len() implies joins(
        after.instances,
        #[trigger] after.connections[k],
    ) by {
        if k < n {
            assert(after.connections[k] == s.connections[k]);
        }
    }
    assert forall|k: int, l: int| 0 <= k < l < after.connections.len() implies !((
    #[trigger] after.connections[k]).client_id == (#[trigger] after.connections[l]).client_id
        && after.connections[k].server_id == after.connections[l].server_id) by {
        assert(after.connections[k] == s.connections[k]);
        if l < n {
            assert(after.connections[l] == s.connections[l]);
        } else {
            assert(!s.connected(client_id, server_id));
        }
    }
}

/// What a filter leaves stood in this order before.
proof fn lemma_filter_pairs(connections: Seq<ConnectionView>, keep: spec_fn(ConnectionView) -> bool)
    requires
        distinct_pairs(connections),
    ensures
        distinct_pairs(connections.filter(keep)),
    decreases connections.len(),
{
    reveal(Seq::filter);
    if connections.len() > 0 {
        let short = connections.drop_last();
        assert forall|i: int, j: int| 0 <= i < j < short.len() implies !((#[trigger] short[i]).client_id == (
        #[trigger] short[j]).client_id && short[i].server_id == short[j].server_id) by {
            assert(connections[i] == short[i] && connections[j] == short[j]);
        }
        lemma_filter_pairs(short, keep);
        lemma_filtered(short, keep);
        let left = connections.filter(keep);
        let rest = short.filter(keep);
        let last = connections.len() - 1;
        assert forall|i: int, j: int| 0 <= i < j < left.len() implies !((#[trigger] left[i]).client_id == (
        #[trigger] left[j]).client_id && left[i].server_id == left[j].server_id) by {
            if j < rest.len() {
                assert(left[i] == rest[i] && left[j] == rest[j]);
            } else {
                assert(left[i] == rest[i]);
                assert(short.contains(rest[i]));
                let k = short.index_of(rest[i]);
                assert(connections[k] == left[i]);
                assert(connections[last] == left[j]);
            }
        }
    }
}

proof fn lemma_parting_is_tidy(s: SessionView, id: Seq<char>)
    requires
        s.tidy(),
    ensures
        s.without_connection(id).tidy(),
{
    let after = s.without_connection(id);
    let keep = |c: ConnectionView| c.id != id;
    lemma_filter_pairs(s.connections, keep);
    lemma_filtered(s.connections, keep);
    assert forall|k: int| 0 <= k < after.connections.len() implies joins(
        after.instances,
        #[trigger] after.connections[k],
    ) by {
        let l = s.connections.index_of(after.connections[k]);
        assert(joins(s.instances, s.connections[l]));
    }
}

// ── removing ────────────────────────────────────────────────────────────

proof fn lemma_filter_instances(instances: Seq<InstanceView>, keep: spec_fn(InstanceView) -> bool)
    requires
        distinct_instances(instances),
    ensures
        distinct_instances(instances.filter(keep)),
    decreases instances.len(),
{
    reveal(Seq::filter);
    if instances.len() > 0 {
        let short = instances.drop_last();
        assert forall|i: int, j: int| 0 <= i < j < short.len() implies (#[trigger] short[i]).id != (
        #[trigger] short[j]).id by {
            assert(instances[i] == short[i] && instances[j] == short[j]);
        }
        lemma_filter_instances(short, keep);
        lemma_filtered(short, keep);
        let left = instances.filter(keep);
        let rest = short.filter(keep);
        let last = instances.len() - 1;
        assert forall|i: int, j: int| 0 <= i < j < left.len() implies (#[trigger] left[i]).id != (
        #[trigger] left[j]).id by {
            if j < rest.len() {
                assert(left[i] == rest[i] && left[j] == rest[j]);
            } else {
                assert(left[i] == rest[i]);
                let k = short.index_of(rest[i]);
                assert(instances[k] == left[i]);
                assert(instances[last] == left[j]);
            }
        }
    }
}

proof fn lemma_filter_nodes(nodes: Seq<NodeView>, keep: spec_fn(NodeView) -> bool)
    requires
        distinct_nodes(nodes),
    ensures
        distinct_nodes(nodes.filter(keep)),
    decreases nodes.len(),
{
    reveal(Seq::filter);
    if nodes.len() > 0 {
        let short = nodes.drop_last();
        assert forall|i: int, j: int| 0 <= i < j < short.len() implies (#[trigger] short[i]).id != (
        #[trigger] short[j]).id by {
            assert(nodes[i] == short[i] && nodes[j] == short[j]);
        }
        lemma_filter_nodes(short, keep);
        lemma_filtered(short, keep);
        let left = nodes.filter(keep);
        let rest = short.filter(keep);
        let last = nodes.len() - 1;
        assert forall|i: int, j: int| 0 <= i < j < left.len() implies (#[trigger] left[i]).id != (
        #[trigger] left[j]).id by {
            if j < rest.len() {
                assert(left[i] == rest[i] && left[j] == rest[j]);
            } else {
                assert(left[i] == rest[i]);
                let k = short.index_of(rest[i]);
                assert(nodes[k] == left[i]);
                assert(nodes[last] == left[j]);
            }
        }
    }
}

/// What a filter leaves of a list without repeats has none.
proof fn lemma_filter_ids(ids: Seq<Seq<char>>, keep: spec_fn(Seq<char>) -> bool)
    requires
        ids.no_duplicates(),
    ensures
        ids.filter(keep).no_duplicates(),
    decreases ids.len(),
{
    reveal(Seq::filter);
    if ids.len() > 0 {
        let short = ids.drop_last();
        lemma_filter_ids(short, keep);
        lemma_filtered(short, keep);
        let left = ids.filter(keep);
        let rest = short.filter(keep);
        assert forall|i: int, j: int| 0 <= i < left.len() && 0 <= j < left.len() && i != j implies #[trigger] left[i]
            != #[trigger] left[j] by {
            let (p, q) = if i < j {
                (i, j)
            } else {
                (j, i)
            };
            if q < rest.len() {
                assert(rest[p] != rest[q]);
            } else {
                assert(left[p] == rest[p]);
                let k = short.index_of(rest[p]);
                assert(ids[k] == left[p]);
                assert(ids[ids.len() - 1] == left[q]);
            }
        }
    }
}

/// An id that the session does not have: to remove it changes nothing.
pub proof fn law_removing_nothing_changes_nothing(s: SessionView, id: Seq<char>)
    requires
        s.tidy(),
        s.instance(id) is None,
    ensures
        s.without_instance(id) == s,
{
    let keep = |i: InstanceView| i.id != id;
    let free = |c: ConnectionView| c.client_id != id && c.server_id != id;
    let pred = |i: InstanceView| i.id == id;
    lemma_found(s.instances, pred);
    assert forall|i: int| 0 <= i < s.instances.len() implies keep(#[trigger] s.instances[i]) by {
        assert(!pred(s.instances[i]));
    }
    assert forall|k: int| 0 <= k < s.connections.len() implies free(#[trigger] s.connections[k]) by {
        assert(joins(s.instances, s.connections[k]));
        let c = s.connections[k];
        let (i, j) = choose|i: int, j: int|
            #![trigger s.instances[i], s.instances[j]]
            0 <= i < s.instances.len() && 0 <= j < s.instances.len() && matched(s.instances[i], s.instances[j])
                && s.instances[i].id == c.client_id && s.instances[j].id == c.server_id;
        assert(!pred(s.instances[i]) && !pred(s.instances[j]));
    }
    lemma_filter_keeps_all(s.instances, keep);
    lemma_filter_keeps_all(s.connections, free);
}

/// A removal keeps every other instance, and every connection that the removed
/// one was no end of, in their order.
pub proof fn law_removal_keeps_the_rest(s: SessionView, id: Seq<char>)
    ensures
        s.without_instance(id).instance(id) is None,
        s.without_instance(id).instances == s.instances.filter(|i: InstanceView| i.id != id),
        s.without_instance(id).connections == s.connections.filter(
            |c: ConnectionView| c.client_id != id && c.server_id != id,
        ),
{
    crate::model::law_removal_leaves_nothing(s, id);
}

proof fn lemma_removal_is_tidy(s: SessionView, id: Seq<char>)
    requires
        s.tidy(),
    ensures
        s.without_instance(id).tidy(),
{
    if s.instance(id) is None {
        law_removing_nothing_changes_nothing(s, id);
    } else {
        let after = s.without_instance(id);
        let keep = |i: InstanceView| i.id != id;
        let free = |c: ConnectionView| c.client_id != id && c.server_id != id;
        lemma_filter_instances(s.instances, keep);
        lemma_filtered(s.instances, keep);
        lemma_filter_pairs(s.connections, free);
        lemma_filtered(s.connections, free);
        assert forall|k: int| 0 <= k < after.connections.len() implies joins(
            after.instances,
            #[trigger] after.connections[k],
        ) by {
            let c = after.connections[k];
            assert(free(c));
            let l = s.connections.index_of(c);
            assert(joins(s.instances, s.connections[l]));
            let (i, j) = choose|i: int, j: int|
                #![trigger s.instances[i], s.instances[j]]
                0 <= i < s.instances.len() && 0 <= j < s.instances.len() && matched(s.instances[i], s.instances[j])
                    && s.instances[i].id == c.client_id && s.instances[j].id == c.server_id;
            assert(keep(s.instances[i]) && keep(s.instances[j]));
            let p = after.instances.index_of(s.instances[i]);
            let q = after.instances.index_of(s.instances[j]);
            assert(after.instances[p] == s.instances[i] && after.instances[q] == s.instances[j]);
        }
        lemma_left_nodes(s, id);
    }
}

proof fn lemma_left_nodes(s: SessionView, id: Seq<char>)
    requires
        s.tidy(),
        s.instance(id) is Some,
    ensures
        distinct_nodes(s.without_instance(id).nodes),
        hosting(s.without_instance(id).nodes, s.without_instance(id).instances),
        housed(s.without_instance(id).nodes, s.without_instance(id).instances),
{
    let after = s.without_instance(id);
    let inst = s.instance(id)->0;
    let nid = inst.node_id;
    let keep = |i: InstanceView| i.id != id;
    lemma_filtered(s.instances, keep);
    lemma_found(s.instances, |i: InstanceView| i.id == id);
    let at = s.instances.index_of(inst);
    assert(listed(s.nodes, s.instances[at].node_id, s.instances[at].id));
    let h = choose|a: int|
        0 <= a < s.nodes.len() && (#[trigger] s.nodes[a]).id == nid && s.nodes[a].instance_ids.contains(id);
    let pred = |n: NodeView| n.id == nid;
    let change = |n: NodeView| taken_out(n, id);
    assert(is_first(s.nodes, pred, h));
    lemma_first_where(s.nodes, pred, change, h);
    let left = s.nodes.update(h, taken_out(s.nodes[h], id));
    let not_this = |n: NodeView| n.id != nid;
    let gone = other_than(id);
    assert(after.nodes == nodes_without(s.nodes, nid, id));
    assert(after.nodes == (if taken_out(s.nodes[h], id).instance_ids.len() == 0 {
        left.filter(not_this)
    } else {
        left
    }));
    assert(distinct_nodes(left)) by {
        assert forall|i: int, j: int| 0 <= i < j < left.len() implies (#[trigger] left[i]).id != (
        #[trigger] left[j]).id by {
            assert(s.nodes[i].id != s.nodes[j].id);
        }
    }
    lemma_filter_nodes(left, not_this);
    lemma_filtered(left, not_this);
    lemma_filtered(s.nodes[h].instance_ids, gone);
    // every node that is left but the emptied one still hosts
    assert forall|a: int| 0 <= a < left.len() && (#[trigger] left[a]).instance_ids.len() > 0 implies hosts(
        left[a],
        after.instances,
    ) by {
        let node = left[a];
        assert(hosts(s.nodes[a], s.instances));
        if a == h {
            lemma_filter_ids(s.nodes[h].instance_ids, gone);
            assert(node.instance_ids == s.nodes[h].instance_ids.filter(gone));
        }
        assert forall|x: Seq<char>| #[trigger] node.instance_ids.contains(x) implies dwells(
            after.instances,
            x,
            node.id,
        ) by {
            let p = node.instance_ids.index_of(x);
            assert(node.instance_ids[p] == x);
            if a == h {
                assert(node == taken_out(s.nodes[h], id));
                assert(node.instance_ids == s.nodes[h].instance_ids.filter(gone));
                assert(s.nodes[h].instance_ids.contains(s.nodes[h].instance_ids.filter(gone)[p]));
            } else {
                assert(node == s.nodes[a]);
            }
            assert(s.nodes[a].instance_ids.contains(x));
            assert(dwells(s.instances, x, s.nodes[a].id));
            let i = choose|i: int|
                0 <= i < s.instances.len() && (#[trigger] s.instances[i]).id == x && s.instances[i].node_id
                    == s.nodes[a].id;
            if a == h {
                assert(gone(node.instance_ids[p]));
            } else if x == id {
                assert(i == at);
                assert(s.nodes[a].id != s.nodes[h].id);
            }
            assert(keep(s.instances[i]));
            let q = after.instances.index_of(s.instances[i]);
            assert(after.instances[q] == s.instances[i]);
        }
    }
    assert forall|a: int| 0 <= a < after.nodes.len() implies hosts(#[trigger] after.nodes[a], after.instances) by {
        if after.nodes == left {
            if a != h {
                assert(hosts(s.nodes[a], s.instances));
            }
            assert(left[a].instance_ids.len() > 0);
        } else {
            assert(not_this(after.nodes[a]));
            let b = left.index_of(after.nodes[a]);
            assert(left[b] == after.nodes[a]);
            assert(b != h);
            assert(hosts(s.nodes[b], s.instances));
        }
    }
    assert forall|i: int| 0 <= i < after.instances.len() implies listed(
        after.nodes,
        (#[trigger] after.instances[i]).node_id,
        after.instances[i].id,
    ) by {
        let other = after.instances[i];
        assert(keep(other));
        let k = s.instances.index_of(other);
        assert(listed(s.nodes, s.instances[k].node_id, s.instances[k].id));
        let a = choose|a: int|
            0 <= a < s.nodes.len() && (#[trigger] s.nodes[a]).id == other.node_id
                && s.nodes[a].instance_ids.contains(other.id);
        let p = s.nodes[a].instance_ids.index_of(other.id);
        if a == h {
            assert(gone(s.nodes[h].instance_ids[p]));
            assert(left[a].instance_ids == s.nodes[h].instance_ids.filter(gone));
            assert(left[a].instance_ids.contains(other.id));
        }
        assert(left[a].id == other.node_id);
        if after.nodes != left {
            assert(a != h);
            assert(s.nodes[a].id != s.nodes[h].id);
            assert(not_this(left[a]));
            let b = after.nodes.index_of(left[a]);
            assert(after.nodes[b] == left[a]);
        }
    }
}

// ── schema edits ────────────────────────────────────────────────────────

/// Each survivor is one of the instances before, and each instance whose protocol
/// is still compiled survives.
proof fn lemma_survival(instances: Seq<InstanceView>, shape: ProjectView)
    requires
        distinct_instances(instances),
    ensures
        distinct_instances(survivors(instances, shape)),
        forall|i: int|
            0 <= i < survivors(instances, shape).len() ==> came_from(
                #[trigger] survivors(instances, shape)[i],
                instances,
            ),
    decreases instances.len(),
{
    if instances.len() > 0 {
        let short = instances.drop_last();
        let last = instances[instances.len() - 1];
        assert forall|i: int, j: int| 0 <= i < j < short.len() implies (#[trigger] short[i]).id != (
        #[trigger] short[j]).id by {
            assert(instances[i].id != instances[j].id);
        }
        lemma_survival(short, shape);
        let all = survivors(instances, shape);
        let rest = survivors(short, shape);
        assert forall|i: int| 0 <= i < all.len() implies came_from(#[trigger] all[i], instances) by {
            if i < rest.len() {
                assert(all[i] == rest[i]);
                assert(came_from(rest[i], short));
                let k = choose|k: int| 0 <= k < short.len() && same_place(#[trigger] short[k], rest[i]);
                assert(instances[k] == short[k]);
            } else {
                assert(same_place(instances[instances.len() - 1], all[i]));
            }
        }
        assert forall|i: int, j: int| 0 <= i < j < all.len() implies (#[trigger] all[i]).id != (
        #[trigger] all[j]).id by {
            assert(all[i] == rest[i]);
            if j < rest.len() {
                assert(all[j] == rest[j]);
            } else {
                assert(came_from(rest[i], short));
                let k = choose|k: int| 0 <= k < short.len() && same_place(#[trigger] short[k], rest[i]);
                assert(instances[k].id != last.id);
            }
        }
    }
}

spec fn same_place(a: InstanceView, b: InstanceView) -> bool {
    a.id == b.id && a.node_id == b.node_id && a.role == b.role && a.schema_ns == b.schema_ns && a.protocol == b.protocol
}

spec fn came_from(kept: InstanceView, instances: Seq<InstanceView>) -> bool {
    exists|k: int| 0 <= k < instances.len() && same_place(#[trigger] instances[k], kept)
}

/// Each node that a pruning leaves is one of the nodes before, pruned; and a node
/// with an instance that lives is left.
proof fn lemma_pruning(nodes: Seq<NodeView>, instances: Seq<InstanceView>)
    requires
        distinct_nodes(nodes),
    ensures
        distinct_nodes(pruned_nodes(nodes, instances)),
        forall|a: int|
            0 <= a < pruned_nodes(nodes, instances).len() ==> was_pruned(
                #[trigger] pruned_nodes(nodes, instances)[a],
                nodes,
                instances,
            ),
        forall|b: int|
            0 <= b < nodes.len() && pruned(#[trigger] nodes[b], instances).instance_ids.len() > 0 ==> pruned_nodes(
                nodes,
                instances,
            ).contains(pruned(nodes[b], instances)),
    decreases nodes.len(),
{
    if nodes.len() > 0 {
        let short = nodes.drop_last();
        let n = nodes.len() - 1;
        assert forall|i: int, j: int| 0 <= i < j < short.len() implies (#[trigger] short[i]).id != (
        #[trigger] short[j]).id by {
            assert(nodes[i].id != nodes[j].id);
        }
        lemma_pruning(short, instances);
        let all = pruned_nodes(nodes, instances);
        let rest = pruned_nodes(short, instances);
        assert forall|a: int| 0 <= a < all.len() implies was_pruned(#[trigger] all[a], nodes, instances) by {
            if a < rest.len() {
                assert(all[a] == rest[a]);
                assert(was_pruned(rest[a], short, instances));
                let b = choose|b: int| 0 <= b < short.len() && pruned(#[trigger] short[b], instances) == rest[a];
                assert(nodes[b] == short[b]);
            } else {
                assert(pruned(nodes[n], instances) == all[a]);
            }
        }
        assert forall|i: int, j: int| 0 <= i < j < all.len() implies (#[trigger] all[i]).id != (
        #[trigger] all[j]).id by {
            assert(all[i] == rest[i]);
            if j < rest.len() {
                assert(all[j] == rest[j]);
            } else {
                assert(was_pruned(rest[i], short, instances));
                let b = choose|b: int| 0 <= b < short.len() && pruned(#[trigger] short[b], instances) == rest[i];
                assert(nodes[b].id != nodes[n].id);
            }
        }
        assert forall|b: int|
            0 <= b < nodes.len() && pruned(#[trigger] nodes[b], instances).instance_ids.len() > 0 implies all.contains(
            pruned(nodes[b], instances),
        ) by {
            if b < n {
                assert(short[b] == nodes[b]);
                let a = rest.index_of(pruned(short[b], instances));
                assert(all[a] == rest[a]);
            } else {
                assert(all[all.len() - 1] == pruned(nodes[n], instances));
            }
        }
    }
}

spec fn was_pruned(node: NodeView, nodes: Seq<NodeView>, instances: Seq<InstanceView>) -> bool {
    &&& node.instance_ids.len() > 0
    &&& exists|b: int| 0 <= b < nodes.len() && pruned(#[trigger] nodes[b], instances) == node
}

proof fn lemma_rebuild_is_tidy(s: SessionView, shape: ProjectView)
    requires
        s.tidy(),
    ensures
        s.rebuilt(shape).tidy(),
{
    let after = s.rebuilt(shape);
    let live = |x: Seq<char>| lives(after.instances, x);
    lemma_survival(s.instances, shape);
    lemma_pruning(s.nodes, after.instances);
    assert forall|a: int| 0 <= a < after.nodes.len() implies hosts(#[trigger] after.nodes[a], after.instances) by {
        let node = after.nodes[a];
        assert(was_pruned(node, s.nodes, after.instances));
        let b = choose|b: int| 0 <= b < s.nodes.len() && pruned(#[trigger] s.nodes[b], after.instances) == node;
        let ids = s.nodes[b].instance_ids;
        assert(hosts(s.nodes[b], s.instances));
        assert(node.instance_ids == ids.filter(live));
        lemma_filter_ids(ids, live);
        lemma_filtered(ids, live);
        assert forall|x: Seq<char>| #[trigger] node.instance_ids.contains(x) implies dwells(
            after.instances,
            x,
            node.id,
        ) by {
            let p = node.instance_ids.index_of(x);
            assert(live(node.instance_ids[p]));
            assert(ids.contains(x));
            assert(dwells(s.instances, x, s.nodes[b].id));
            let i = choose|i: int|
                0 <= i < s.instances.len() && (#[trigger] s.instances[i]).id == x && s.instances[i].node_id
                    == s.nodes[b].id;
            let q = choose|q: int| 0 <= q < after.instances.len() && (#[trigger] after.instances[q]).id == x;
            assert(came_from(after.instances[q], s.instances));
            let k = choose|k: int| 0 <= k < s.instances.len() && same_place(#[trigger] s.instances[k], after.instances[q]);
            assert(k == i);
        }
    }
    assert forall|i: int| 0 <= i < after.instances.len() implies listed(
        after.nodes,
        (#[trigger] after.instances[i]).node_id,
        after.instances[i].id,
    ) by {
        let kept = after.instances[i];
        assert(came_from(kept, s.instances));
        let k = choose|k: int| 0 <= k < s.instances.len() && same_place(#[trigger] s.instances[k], kept);
        assert(listed(s.nodes, s.instances[k].node_id, s.instances[k].id));
        let b = choose|b: int|
            0 <= b < s.nodes.len() && (#[trigger] s.nodes[b]).id == kept.node_id && s.nodes[b].instance_ids.contains(
                kept.id,
            );
        let ids = s.nodes[b].instance_ids;
        lemma_filtered(ids, live);
        let p = ids.index_of(kept.id);
        assert(live(ids[p]));
        let node = pruned(s.nodes[b], after.instances);
        assert(node.instance_ids == ids.filter(live));
        assert(node.instance_ids.contains(kept.id));
        let a = after.nodes.index_of(node);
        assert(after.nodes[a] == node);
    }
    let keep = |c: ConnectionView| lives(after.instances, c.client_id) && lives(after.instances, c.server_id);
    lemma_filter_pairs(s.connections, keep);
    lemma_filtered(s.connections, keep);
    assert forall|k: int| 0 <= k < after.connections.len() implies joins(
        after.instances,
        #[trigger] after.connections[k],
    ) by {
        let c = after.connections[k];
        assert(keep(c));
        let l = s.connections.index_of(c);
        assert(joins(s.instances, s.connections[l]));
        let (i, j) = choose|i: int, j: int|
            #![trigger s.instances[i], s.instances[j]]
            0 <= i < s.instances.len() && 0 <= j < s.instances.len() && matched(s.instances[i], s.instances[j])
                && s.instances[i].id == c.client_id && s.instances[j].id == c.server_id;
        let p = choose|p: int| 0 <= p < after.instances.len() && (#[trigger] after.instances[p]).id == c.client_id;
        let q = choose|q: int| 0 <= q < after.instances.len() && (#[trigger] after.instances[q]).id == c.server_id;
        assert(came_from(after.instances[p], s.instances));
        assert(came_from(after.instances[q], s.instances));
        let u = choose|u: int| 0 <= u < s.instances.len() && same_place(#[trigger] s.instances[u], after.instances[p]);
        let v = choose|v: int| 0 <= v < s.instances.len() && same_place(#[trigger] s.instances[v], after.instances[q]);
        assert(u == i && v == j);
        assert(matched(after.instances[p], after.instances[q]));
    }
}

proof fn lemma_rebuild_is_counted(s: SessionView, shape: ProjectView)
    requires
        s.tidy(),
        s.counted(),
    ensures
        s.rebuilt(shape).counted(),
{
    let after = s.rebuilt(shape);
    lemma_survival(s.instances, shape);
    lemma_pruning(s.nodes, after.instances);
    let keep = |c: ConnectionView| lives(after.instances, c.client_id) && lives(after.instances, c.server_id);
    lemma_filtered(s.connections, keep);
    assert forall|i: int| 0 <= i < after.instances.len() implies (crate::model::numbered(
        (#[trigger] after.instances[i]).id,
        'i',
    ) matches Some(n) ==> n <= after.next_instance) by {
        assert(came_from(after.instances[i], s.instances));
        let k = choose|k: int| 0 <= k < s.instances.len() && same_place(#[trigger] s.instances[k], after.instances[i]);
        assert(s.instances[k].id == after.instances[i].id);
    }
    assert forall|a: int| 0 <= a < after.nodes.len() implies (crate::model::numbered(
        (#[trigger] after.nodes[a]).id,
        'n',
    ) matches Some(n) ==> n <= after.next_node) by {
        assert(was_pruned(after.nodes[a], s.nodes, after.instances));
        let b = choose|b: int|
            0 <= b < s.nodes.len() && pruned(#[trigger] s.nodes[b], after.instances) == after.nodes[a];
        assert(s.nodes[b].id == after.nodes[a].id);
    }
    assert forall|k: int| 0 <= k < after.connections.len() implies (crate::model::numbered(
        (#[trigger] after.connections[k]).id,
        'c',
    ) matches Some(n) ==> n <= after.next_conn) by {
        let l = s.connections.index_of(after.connections[k]);
        assert(s.connections[l].id == after.connections[k].id);
    }
}

} // verus!

//! The session: its operations on nodes, instances and connections.

use comline_simulator::behavior::BehaviorKind;
use comline_simulator::dict::Dict;
use comline_simulator::double::Double;
use comline_simulator::fixtures::{fn_shape, shape_with};
use comline_simulator::model::{
    default_call_timeout_ms, default_clock_mode, default_seed, ClockMode, FramingChoice, Instance, InstanceSpec, Node,
    Placement, Role, Session,
};
use comline_simulator::shape::{FnShape, ProjectShape, ThrowShape};

fn ms(x: f64) -> Double {
    Double { bits: x.to_bits() }
}

fn spec(role: Role) -> InstanceSpec {
    InstanceSpec { schema_ns: "chat".into(), protocol: "Chat".into(), role }
}

fn base_session() -> Session {
    Session::empty(shape_with(vec![fn_shape("send", 0, false)], "0xaaaa"))
}

fn kind_of(s: &Session, id: &str, function: &str) -> BehaviorKind {
    s.instance(id).unwrap().behaviors.get(function).unwrap().kind
}

#[test]
fn adding_an_instance_names_it_and_boxes_it() {
    let mut s = base_session();
    let a = s.add_instance(spec(Role::Server), Placement::default());
    let b = s.add_instance(spec(Role::Client), Placement::default());

    assert_eq!(s.instance(&a).unwrap().name, "chat-1");
    assert_eq!(s.instance(&b).unwrap().name, "chat-2");
    assert_eq!(s.nodes.len(), 2, "each got its own box");
    assert_eq!(s.nodes[0].label, "Machine 1");
    assert_eq!(s.instance(&a).unwrap().ir_hash, "0xaaaa");
}

#[test]
fn a_server_instance_gets_seeded_behaviours_a_client_does_not() {
    let mut s = base_session();
    let srv = s.add_instance(spec(Role::Server), Placement::default());
    let cli = s.add_instance(spec(Role::Client), Placement::default());

    assert_eq!(s.instance(&srv).unwrap().behaviors.len(), 1);
    assert_eq!(kind_of(&s, &srv, "send"), BehaviorKind::Reply);
    assert!(s.instance(&cli).unwrap().behaviors.is_empty());
}

#[test]
fn instances_can_share_a_node() {
    let mut s = base_session();
    let a = s.add_instance(spec(Role::Server), Placement::default());
    let node_id = s.instance(&a).unwrap().node_id.clone();
    let b = s.add_instance(
        spec(Role::Client),
        Placement { node_id: Some(node_id.clone()), ..Placement::default() },
    );

    assert_eq!(s.nodes.len(), 1);
    assert_eq!(s.node(&node_id).unwrap().instance_ids, vec![a, b]);
}

#[test]
fn connecting_validates_roles_protocol_and_duplicates() {
    let mut s = base_session();
    let srv = s.add_instance(spec(Role::Server), Placement::default());
    let cli = s.add_instance(spec(Role::Client), Placement::default());

    assert!(s.add_connection(&srv, &cli).is_err(), "server as client");
    let c = s.add_connection(&cli, &srv).unwrap();
    assert_eq!(c, "c1");
    assert!(s.add_connection(&cli, &srv).is_err(), "duplicate");
    assert_eq!(s.connections_for(&srv).len(), 1);
    assert!(s.is_wired());
}

#[test]
fn removing_an_instance_takes_its_connections_and_empty_box() {
    let mut s = base_session();
    let srv = s.add_instance(spec(Role::Server), Placement::default());
    let cli = s.add_instance(spec(Role::Client), Placement::default());
    s.add_connection(&cli, &srv).unwrap();

    s.remove_instance(&srv);
    assert!(s.instance(&srv).is_none());
    assert!(s.connections.is_empty());
    assert_eq!(s.nodes.len(), 1, "the server's box went with it");
}

#[test]
fn edits_keep_the_session_wired() {
    let mut s = base_session();
    let srv = s.add_instance(spec(Role::Server), Placement::default());
    let cli = s.add_instance(spec(Role::Client), Placement::default());
    let other = s.add_instance(spec(Role::Client), Placement::default());
    let c = s.add_connection(&cli, &srv).unwrap();
    s.add_connection(&other, &srv).unwrap();
    s.set_behavior(&srv, "send", BehaviorKind::Echo, None).unwrap();
    s.set_transport(&c, FramingChoice::Jsonrpc, Default::default());
    s.resync_instance(&srv);
    assert!(s.is_wired());
    s.remove_connection(&c);
    assert!(s.is_wired() && s.connections.len() == 1);
    s.remove_instance(&cli);
    assert!(s.is_wired() && s.connections.len() == 1);
    s.remove_instance(&srv);
    assert!(s.is_wired() && s.connections.is_empty());
}

#[test]
fn an_id_is_never_given_twice() {
    let mut s = base_session();
    let srv = s.add_instance(spec(Role::Server), Placement::default());
    let cli = s.add_instance(spec(Role::Client), Placement::default());
    let first = s.add_connection(&cli, &srv).unwrap();
    s.remove_connection(&first);
    assert_eq!(s.add_connection(&cli, &srv).unwrap(), "c2");
    s.remove_instance(&cli);
    assert_eq!(s.add_instance(spec(Role::Client), Placement::default()), "i3");
    assert_eq!(s.nodes.last().unwrap().id, "n3");
}

#[test]
fn a_default_shape_is_empty() {
    assert!(ProjectShape::default().schemas.is_empty());
}

#[test]
fn set_behavior_defaults_config_and_rejects_clients() {
    let mut s = base_session();
    let srv = s.add_instance(spec(Role::Server), Placement::default());
    let cli = s.add_instance(spec(Role::Client), Placement::default());

    s.set_behavior(&srv, "send", BehaviorKind::Echo, None).unwrap();
    assert_eq!(kind_of(&s, &srv, "send"), BehaviorKind::Echo);

    assert!(s.set_behavior(&cli, "send", BehaviorKind::Echo, None).is_err());
    assert!(s.set_behavior(&srv, "missing", BehaviorKind::Echo, None).is_err());
}

#[test]
fn move_node_clamps_and_rounds() {
    let mut s = base_session();
    s.add_instance(spec(Role::Server), Placement::default());
    let nid = s.nodes[0].id.clone();
    s.move_node(&nid, ms(-20.0), ms(33.7));
    assert_eq!((s.node(&nid).unwrap().x, s.node(&nid).unwrap().y), (ms(0.0), ms(34.0)));
}

#[test]
fn rename_node_ignores_blank() {
    let mut s = base_session();
    s.add_instance(spec(Role::Server), Placement::default());
    let nid = s.nodes[0].id.clone();
    s.rename_node(&nid, "  Gateway  ");
    assert_eq!(s.node(&nid).unwrap().label, "Gateway");
    s.rename_node(&nid, "   ");
    assert_eq!(s.node(&nid).unwrap().label, "Gateway");
}

#[test]
fn rebuild_keeps_surviving_instances_and_prunes_the_rest() {
    let mut s = base_session();
    let srv = s.add_instance(spec(Role::Server), Placement::default());
    let cli = s.add_instance(spec(Role::Client), Placement::default());
    s.add_connection(&cli, &srv).unwrap();
    s.set_behavior(&srv, "send", BehaviorKind::Echo, None).unwrap();

    // recompile: `send` stays, `ping` (one-way) is added, protocol otherwise same
    s.rebuild(shape_with(vec![fn_shape("send", 0, false), fn_shape("ping", 1, true)], "0xbbbb"));

    assert_eq!(kind_of(&s, &srv, "send"), BehaviorKind::Echo, "kept the edited behaviour");
    assert_eq!(kind_of(&s, &srv, "ping"), BehaviorKind::Drop, "new one-way fn → drop");
    assert_eq!(s.instance(&srv).unwrap().ir_hash, "0xaaaa", "rebuild leaves ir_hash stale on purpose");
    assert_eq!(s.connections.len(), 1);
}

#[test]
fn rebuild_drops_instances_whose_protocol_vanished() {
    let mut s = base_session();
    let srv = s.add_instance(spec(Role::Server), Placement::default());
    s.add_instance(spec(Role::Client), Placement::default());

    // a shape with no `chat` schema at all
    s.rebuild(ProjectShape { schemas: vec![] });
    assert!(s.instances.is_empty());
    assert!(s.nodes.is_empty(), "emptied boxes are pruned");
    assert!(s.instance(&srv).is_none());
}

#[test]
fn rebuild_resets_a_behaviour_whose_kind_no_longer_applies() {
    let mut s = base_session();
    let srv = s.add_instance(spec(Role::Server), Placement::default());
    // `raise` needs a throw; give `send` one, set raise, then recompile it away
    s.rebuild(shape_with(
        vec![FnShape { throws: vec![ThrowShape { ordinal: 1, name: "Bad".into() }], ..fn_shape("send", 0, false) }],
        "0xa",
    ));
    s.set_behavior(&srv, "send", BehaviorKind::Raise, None).unwrap();

    s.rebuild(shape_with(vec![fn_shape("send", 0, false)], "0xb")); // throw gone
    assert_eq!(kind_of(&s, &srv, "send"), BehaviorKind::Reply, "raise no longer applies → back to the default");
}

#[test]
fn resync_snaps_ir_hash_to_the_current_schema() {
    let mut s = base_session();
    let srv = s.add_instance(spec(Role::Server), Placement::default());
    s.rebuild(shape_with(vec![fn_shape("send", 0, false)], "0xnew"));

    assert_eq!(s.instance(&srv).unwrap().ir_hash, "0xaaaa");
    s.resync_instance(&srv);
    assert_eq!(s.instance(&srv).unwrap().ir_hash, "0xnew");
}

#[test]
fn reseed_counters_lifts_past_loaded_ids() {
    let mut s = base_session();
    s.instances.push(Instance {
        id: "i7".into(),
        name: "chat-1".into(),
        role: Role::Server,
        schema_ns: "chat".into(),
        protocol: "Chat".into(),
        behaviors: Dict::new(),
        ir_hash: "0x0".into(),
        node_id: "n3".into(),
    });
    s.nodes.push(Node {
        id: "n3".into(),
        label: "Machine 3".into(),
        x: ms(0.0),
        y: ms(0.0),
        instance_ids: vec!["i7".into()],
    });
    s.reseed_counters();

    let next = s.add_instance(spec(Role::Client), Placement::default());
    assert_eq!(next, "i8", "counter jumped past i7");
    assert_eq!(s.nodes.last().unwrap().id, "n4");
}

#[test]
fn an_edited_instance_is_the_one_that_was_asked_for() {
    let mut s = base_session();
    let a = s.add_instance(spec(Role::Server), Placement::default());
    let b = s.add_instance(spec(Role::Client), Placement::default());
    s.instance_mut(&b).unwrap().name = "renamed".into();
    assert_eq!(s.instance(&a).unwrap().name, "chat-1");
    assert_eq!(s.instance(&b).unwrap().name, "renamed");
    assert!(s.instance_mut("i9").is_none());
}

#[test]
fn a_session_starts_on_its_defaults() {
    let s = base_session();
    assert_eq!(s.latency_ms, ms(0.0));
    assert_eq!(s.call_timeout_ms, ms(3000.0));
    assert_eq!(default_call_timeout_ms(), ms(3000.0));
    assert_eq!((s.seed, default_seed()), (1, 1));
    assert_eq!((s.clock_mode, default_clock_mode()), (ClockMode::Real, ClockMode::Real));
}

#[test]
fn a_framing_choice_parses_back() {
    assert_eq!(FramingChoice::parse("auto"), Some(FramingChoice::Auto));
    assert_eq!(FramingChoice::parse("datagram"), Some(FramingChoice::Datagram));
    assert_eq!(FramingChoice::parse("jsonrpc"), Some(FramingChoice::Jsonrpc));
    assert_eq!(FramingChoice::parse("Auto"), None);
    assert_eq!(FramingChoice::default(), FramingChoice::Auto);
}

#[test]
fn a_refused_connection_says_why() {
    let mut s = base_session();
    let srv = s.add_instance(spec(Role::Server), Placement::default());
    let cli = s.add_instance(spec(Role::Client), Placement::default());
    let other = s.add_instance(
        InstanceSpec { schema_ns: "chat".into(), protocol: "Other".into(), role: Role::Client },
        Placement::default(),
    );
    let refusal = |s: &mut Session, a: &str, b: &str| s.add_connection(a, b).unwrap_err();
    assert_ne!(refusal(&mut s, "i9", &srv), "");
    assert_ne!(refusal(&mut s, &cli, "i9"), "");
    assert_ne!(refusal(&mut s, &srv, &cli), "");
    assert_ne!(refusal(&mut s, &other, &srv), "");
    assert_eq!(s.connections.len(), 0);
}

/// Every node hosts an instance, each instance stands in just its own node, and
/// each connection joins a client to a server, no pair twice.
fn assert_tidy(s: &Session) {
    for node in &s.nodes {
        assert!(!node.instance_ids.is_empty());
        for id in &node.instance_ids {
            assert_eq!(&s.instance(id).unwrap().node_id, &node.id);
        }
    }
    for i in &s.instances {
        let hosts = s.nodes.iter().filter(|n| n.instance_ids.contains(&i.id)).count();
        assert_eq!(hosts, 1);
    }
    for c in &s.connections {
        assert_eq!(s.instance(&c.client_id).unwrap().role, Role::Client);
        assert_eq!(s.instance(&c.server_id).unwrap().role, Role::Server);
        let twins = s.connections.iter().filter(|d| d.client_id == c.client_id && d.server_id == c.server_id).count();
        assert_eq!(twins, 1);
    }
}

#[test]
fn every_edit_keeps_the_topology_tidy() {
    let mut s = base_session();
    let server = s.add_instance(spec(Role::Server), Placement::default());
    let home = s.instance(&server).unwrap().node_id.clone();
    let client = s.add_instance(spec(Role::Client), Placement { node_id: Some(home.clone()), ..Placement::default() });
    let other = s.add_instance(spec(Role::Client), Placement::default());
    assert_tidy(&s);
    s.add_connection(&client, &server).unwrap();
    let kept = s.add_connection(&other, &server).unwrap();
    assert!(s.add_connection(&client, &server).is_err());
    assert_tidy(&s);

    s.remove_instance("i9");
    assert_eq!((s.nodes.len(), s.instances.len(), s.connections.len()), (2, 3, 2), "an unknown id changes nothing");
    s.remove_instance(&client);
    assert_tidy(&s);
    assert!(s.instance(&client).is_none());
    assert_eq!(s.instances.iter().map(|i| i.id.as_str()).collect::<Vec<_>>(), [server.as_str(), other.as_str()]);
    assert_eq!(s.connections.iter().map(|c| c.id.as_str()).collect::<Vec<_>>(), [kept.as_str()]);

    s.remove_instance(&server);
    assert_tidy(&s);
    assert!(s.nodes.iter().all(|n| n.id != home), "the emptied node is gone");
    assert!(s.connections.is_empty());
}

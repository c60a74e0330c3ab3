use godworks_broker::claims::{
    is_broker_owned_attribute, parse_connect_auth_claims, parse_connect_auth_claims_env,
    peer_role_for, resolve_connect_claims, PeerRole,
};
use godworks_broker::clock::{
    next_gen_value, next_server_time_value, next_sim_time_value, normalize_physics_clock_write,
};
use godworks_broker::crc::crc32_ieee;
use godworks_broker::doc::Json;
use godworks_broker::entity::{
    acl_client_write_attr, acl_read_ok, acl_write_attr, authority_epoch_from_value,
    authority_mode_from_value, authority_owner_from_value, bump_component_authority_epoch,
    component_authority_epoch, component_authority_mode, component_authority_owner,
    initial_authority_map, is_kernel_locked_component, is_platform_reserved_component,
    is_spatial_component, set_component_authority_epoch, AuthorityMode, Entity,
};
use godworks_broker::authority::{
    advance_physics_island_authority, apply_authority_snapshot, authority_to_json,
    bump_spatial_authority_epoch, physics_island_component_names,
    set_physics_island_authority_epoch,
};
use godworks_broker::fidelity::{
    coarsen_component_value, numbers_to_round, quantize_array, Rounded,
};
use godworks_broker::float::{arr2, Float, Point};
use godworks_broker::interest::{interest_cells_for, CellBox, GridCell, InterestGrid};
use godworks_broker::order::sorted_texts;
use godworks_broker::partition::{
    coarse_region, initial_region, is_strip_region_name, movement_region_after, order_cuts, parse_grid_cell,
    parse_grid_size, refine_region, region_2d, region_2d_after, region_after, seam_intent_target,
    spawn_region, strip_index, strip_index_of_name, strip_name, Cut, Splits,
};
use godworks_broker::policy::{ingress_op_cost, is_persistent_op, role_policy_allows};
use godworks_broker::recovery::apply_wal_events;
use godworks_broker::registry::{
    own_lease_epoch, parse_advertise, parse_mesh, registry_heartbeat, registry_lease_epoch,
};
use godworks_broker::replay_tape::{sanitize_tape_event, ReplayTape};
use godworks_broker::startup::{
    recover_from_wal_report, store_content_hash, truncate_wal_tail_to_recoverable_prefix,
};
use godworks_broker::strmap::{Dup, StrMap, StrSet};
use godworks_broker::text::{
    parse_usize, starts_with, str_eq, str_lt, trim, u64_text,
};
use godworks_broker::wal::{wal_v1_envelope_line, wal_v1_header_line};
use godworks_broker::wire::{frame, frame_len, worker_connect_frame};

fn j(text: &str) -> Json {
    Json::parse(text).unwrap()
}

fn fl(x: f64) -> Float {
    Float::of_json(&j(&format!("{:?}", x))).unwrap()
}

fn at(x: f64) -> Option<Float> {
    Some(fl(x))
}

fn point(x: f64, y: f64) -> Point {
    Point { x: at(x), y: at(y) }
}

fn cuts(places: &[f64]) -> Vec<Cut> {
    places
        .iter()
        .map(|b| Cut { at: fl(*b), up: fl(*b + 0.5), down: fl(*b - 0.5) })
        .collect()
}

fn set(items: &[&str]) -> StrSet {
    let mut s = StrSet::new();
    for i in items {
        s.insert(i);
    }
    s
}

fn thing(comps: &str) -> Entity {
    let components = j(comps).as_object().unwrap().dup();
    Entity {
        pos: point(1.0, 2.0),
        vel: point(0.0, 0.0),
        authority: initial_authority_map(&components, 1),
        components,
        region: "W".to_string(),
        version: 1,
    }
}

// ── texts and numbers ──

#[test]
fn a_checksum_is_the_standard_one() {
    assert_eq!(crc32_ieee(b""), 0);
    assert_eq!(crc32_ieee(b"123456789"), 0xcbf4_3926);
    assert_eq!(crc32_ieee(b"The quick brown fox jumps over the lazy dog"), 0x414f_a339);
}

#[test]
fn numerals_round_trip() {
    for n in [0u64, 7, 10, 1_000_000, u64::MAX] {
        assert_eq!(u64_text(n), n.to_string());
    }
    assert_eq!(parse_usize("42"), Some(42));
    assert_eq!(parse_usize("+7"), Some(7));
    assert_eq!(parse_usize(""), None);
    assert_eq!(parse_usize("-1"), None);
    assert_eq!(parse_usize("4x"), None);
    assert_eq!(parse_usize("99999999999999999999999"), None);
}

#[test]
fn texts_are_compared_by_their_characters() {
    assert!(str_eq("zürich", "zürich"));
    assert!(!str_eq("W", "E"));
    assert!(str_lt("E", "W"));
    assert!(str_lt("a", "ab"));
    assert!(!str_lt("b", "ab"));
    assert!(starts_with("threshold_prepare", "threshold_"));
    assert!(!starts_with("thr", "threshold_"));
    assert_eq!(trim("  a b\t\n"), "a b");
}

#[test]
fn floats_are_ordered_as_numbers() {
    assert!(fl(-1.0).lt(&fl(-0.5)));
    assert!(fl(-0.5).lt(&fl(0.0)));
    assert!(!fl(-0.0).lt(&fl(0.0)));
    assert!(fl(0.25).lt(&fl(1e300)));
    assert!(!fl(3.0).lt(&fl(3.0)));
    assert_eq!(f64::from_bits(Float::of_u64(3).bits()), 3.0);
    assert_eq!(f64::from_bits(Float::zero().bits()), 0.0);
}

#[test]
fn a_point_round_trips_through_its_text() {
    let p = point(1.25, -3e-7);
    let back = arr2(Some(&j(&p.json().text())));
    assert_eq!(back.json().text(), p.json().text());
    assert_eq!(p.json().text(), "[1.25,-3e-7]");
    assert_eq!(arr2(None).json().text(), "[0.0,0.0]");
    assert_eq!(arr2(Some(&j("[5]"))).json().text(), "[5.0,0.0]");
    assert_eq!(arr2(Some(&j("\"no\""))).json().text(), "[0.0,0.0]");
}

#[test]
fn a_document_keeps_every_kind_of_value() {
    let text = r#"{"a":null,"b":true,"c":18446744073709551615,"d":-3,"e":0.5,"f":"é\n","g":[1,{}]}"#;
    let d = j(text);
    assert_eq!(d.text(), text);
    assert_eq!(d.get_u64("c"), Some(u64::MAX));
    assert_eq!(d.get_u64("d"), None);
    assert_eq!(d.get_u64("e"), None);
    assert_eq!(d.get("b").and_then(|b| b.as_bool()), Some(true));
    assert_eq!(d.get_str("f"), Some("é\n"));
    assert_eq!(d.get("g").unwrap().as_array().unwrap().len(), 2);
    assert!(Json::parse("{\"a\":").is_none());
    assert!(Json::parse("").is_none());
}

#[test]
fn a_message_on_the_wire_announces_its_length() {
    let b = frame(&j("{}")).unwrap();
    assert_eq!(b, vec![0, 0, 0, 2, b'{', b'}']);
    let b = frame(&Json::str(&"x".repeat(300))).unwrap();
    assert_eq!(&b[..5], &[0, 0, 1, 46, b'"']);
    assert_eq!(frame_len(&[b[0], b[1], b[2], b[3]], 1024), Some(b.len() - 4));
    assert_eq!(frame_len(&[0, 0, 1, 46], 301), None);
    assert_eq!(frame_len(&[1, 2, 3, 4], usize::MAX), Some(0x0102_0304));
}

#[test]
fn a_broker_introduces_itself() {
    let f = worker_connect_frame("mesh:W", "MESH", None);
    assert_eq!(f.get_str("op"), Some("WorkerConnect"));
    assert_eq!(f.get_str("worker_id"), Some("mesh:W"));
    assert_eq!(f.get_str("region"), Some("MESH"));
    assert!(f.get("auth_token").is_none());
    let f = worker_connect_frame("mesh:W", "MESH", Some("t"));
    assert_eq!(f.get_str("auth_token"), Some("t"));
}

#[test]
fn names_come_in_order() {
    assert_eq!(sorted_texts(&set(&["b", "a", "ab", "a"])), ["a", "ab", "b"]);
}

// ── who a peer is ──

#[test]
fn roles_follow_regions_and_attributes() {
    assert_eq!(peer_role_for("MESH", &set(&[])), PeerRole::Mesh);
    assert_eq!(peer_role_for("OBS", &set(&[])), PeerRole::Observer);
    assert_eq!(peer_role_for("W", &set(&[])), PeerRole::Worker);
    assert_eq!(peer_role_for("CLIENT", &set(&["role.client"])), PeerRole::Client);
    assert_eq!(PeerRole::Mesh.as_str(), "mesh");
    assert_eq!(PeerRole::Worker.as_str(), "worker");
    assert_eq!(PeerRole::Client.as_str(), "client");
    assert_eq!(PeerRole::Observer.as_str(), "observer");
}

#[test]
fn claims_are_read_from_their_setting() {
    let c = parse_connect_auth_claims(" t1:W:role.worker|snapshot, ,bad,:X,t2: E ");
    assert_eq!(c.keys(), ["t1", "t2"]);
    assert_eq!(c.get("t1").unwrap().region, "W");
    assert_eq!(c.get("t1").unwrap().attributes.members(), ["role.worker", "snapshot"]);
    assert_eq!(c.get("t2").unwrap().attributes.len(), 0);
    assert!(parse_connect_auth_claims_env(None).is_empty());
    assert_eq!(parse_connect_auth_claims_env(Some("t:W")).len(), 1);
    assert!(is_broker_owned_attribute("kernel_admin"));
    assert!(!is_broker_owned_attribute("player.alice"));
}

#[test]
fn claims_bind_what_a_peer_may_ask_for() {
    let c = parse_connect_auth_claims("t1:W:snapshot");
    let ask = |token: Option<&str>, region: Option<&str>, attrs: &[&str]| {
        resolve_connect_claims(Some("shared"), &c, token, region, &set(attrs))
    };
    assert_eq!(ask(Some("t1"), Some("W"), &["snapshot"]).unwrap().unwrap().region, "W");
    assert!(ask(Some("t1"), Some("E"), &[]).is_err());
    assert!(ask(Some("t1"), Some("W"), &["kernel_admin"]).is_err());
    assert!(ask(Some("shared"), Some("W"), &[]).is_err());
    assert!(ask(None, Some("W"), &[]).is_err());
    let none = StrMap::new();
    let shared = |token| resolve_connect_claims(Some("shared"), &none, token, Some("E"), &set(&[]));
    assert!(shared(Some("shared")).unwrap().is_none());
    assert!(shared(Some("wrong")).is_err());
    assert!(shared(None).is_err());
    let open = resolve_connect_claims(None, &StrMap::new(), None, Some("E"), &set(&[]));
    assert!(open.unwrap().is_none());
}

#[test]
fn each_role_has_its_messages() {
    let none = set(&[]);
    assert!(role_policy_allows(PeerRole::Worker, &none, "CreateEntity"));
    assert!(!role_policy_allows(PeerRole::Client, &none, "CreateEntity"));
    assert!(!role_policy_allows(PeerRole::Observer, &none, "CreateEntity"));
    assert!(!role_policy_allows(PeerRole::Mesh, &none, "CreateEntity"));
    assert!(role_policy_allows(PeerRole::Mesh, &none, "MeshHandoff"));
    assert!(!role_policy_allows(PeerRole::Worker, &none, "MeshHandoff"));
    assert!(is_persistent_op("CreateEntity"));
    assert!(!is_persistent_op("Heartbeat"));
}

#[test]
fn a_message_costs_by_its_kind() {
    let cost = |op: &str| ingress_op_cost(&j(&format!("{{\"op\":\"{}\"}}", op)));
    assert_eq!(cost("CreateEntity"), 4);
    assert_eq!(cost("BatchUpdate"), 4);
    assert_eq!(cost("MeshAck"), 2);
    assert_eq!(cost("Heartbeat"), 1);
    assert_eq!(cost("whatever"), 1);
    assert_eq!(ingress_op_cost(&j("{}")), 1);
}

// ── clocks ──

#[test]
fn clocks_only_advance() {
    assert_eq!(next_gen_value(None, &j("null")), 1);
    assert_eq!(next_gen_value(None, &j("7")), 7);
    assert_eq!(next_gen_value(Some(5), &j("3")), 6);
    assert_eq!(next_gen_value(Some(5), &j("9")), 6);
    assert_eq!(next_gen_value(Some(u64::MAX), &j("9")), u64::MAX);
    assert_eq!(next_server_time_value(None, 70), 70);
    assert_eq!(next_server_time_value(Some(100), 70), 101);
    assert_eq!(next_sim_time_value(Some(100), &j("null")), 116);
    assert_eq!(next_sim_time_value(Some(100), &j("200")), 200);
}

#[test]
fn the_broker_sets_the_clocks_of_a_body() {
    let e = thing(r#"{"physics":{"gen":4,"t_server":90,"sim_time":32},"gen":2}"#);
    let w = normalize_physics_clock_write(&e, "physics", j(r#"{"gen":1,"mass":2}"#), 80);
    assert_eq!(w.text(), r#"{"gen":5,"mass":2,"sim_time":48,"t_server":91}"#);
    assert_eq!(normalize_physics_clock_write(&e, "gen", j("1"), 80).text(), "3");
    assert_eq!(normalize_physics_clock_write(&e, "hp", j("\"x\""), 80).text(), "\"x\"");
}

// ── components and authority ──

#[test]
fn modes_have_names() {
    let modes = [
        (AuthorityMode::ServerPhysicsIsland, "server_physics_island"),
        (AuthorityMode::ServerArbitrated, "server_arbitrated"),
        (AuthorityMode::ClientForwardSparse, "client_forward_sparse"),
        (AuthorityMode::ThresholdOverlap, "threshold_overlap"),
        (AuthorityMode::PersistentKernelLock, "persistent_kernel_lock"),
    ];
    for (mode, name) in modes {
        assert_eq!(mode.as_wire_str(), name);
        assert_eq!(AuthorityMode::from_wire_str(name), Some(mode));
    }
    assert_eq!(AuthorityMode::from_wire_str("none"), None);
}

#[test]
fn some_components_are_special() {
    assert!(is_spatial_component("pos"));
    assert!(!is_spatial_component("hp"));
    assert!(is_spatial_component("physics.mass"));
    assert!(is_platform_reserved_component("threshold.tx"));
    assert!(is_platform_reserved_component("kernel.seal"));
    assert!(!is_platform_reserved_component("hp"));
    assert!(is_kernel_locked_component("zone.law"));
    assert!(!is_kernel_locked_component("threshold.tx"));
}

#[test]
fn access_is_by_attribute() {
    let e = thing(r#"{"acl":{"read":["team.red"],"write":{"hp":"role.medic"}}}"#);
    assert!(acl_read_ok(&set(&["team.red"]), &e));
    assert!(!acl_read_ok(&set(&["team.blue"]), &e));
    assert_eq!(acl_write_attr(&e, "hp"), Some("role.medic".to_string()));
    assert_eq!(acl_write_attr(&e, "pos"), None);
    assert_eq!(acl_client_write_attr(&e, "pos"), None);
    assert!(acl_read_ok(&set(&[]), &thing("{}")));
}

#[test]
fn an_epoch_is_raised_or_set() {
    let mut e = thing(r#"{"hp":1}"#);
    assert_eq!(component_authority_epoch(&e, "hp"), 1);
    assert_eq!(bump_component_authority_epoch(&mut e, "hp"), 2);
    set_component_authority_epoch(&mut e, "hp", 9);
    assert_eq!(component_authority_epoch(&e, "hp"), 9);
    assert_eq!(component_authority_epoch(&e, "pos"), 1);
    assert_eq!(authority_epoch_from_value(&j(r#"{"authority_epoch":3}"#)), Some(3));
    assert_eq!(authority_mode_from_value(&j("\"server_arbitrated\"")), Some(AuthorityMode::ServerArbitrated));
    assert_eq!(authority_owner_from_value(&j(r#"{"owner":"w1"}"#)), Some("w1".to_string()));
}

#[test]
fn the_island_changes_hands_as_one() {
    let mut e = thing(r#"{"rot":0.5,"hp":3}"#);
    let names = physics_island_component_names(&e.components, &e.authority);
    assert_eq!(names, ["pos", "rot", "vel"]);
    let (epoch, moved) = advance_physics_island_authority(&mut e, None, Some("w2"));
    assert_eq!(epoch, 2);
    assert_eq!(moved, names);
    for c in &names {
        assert_eq!(component_authority_epoch(&e, c), 2);
        assert_eq!(component_authority_owner(&e, c), Some("w2".to_string()));
    }
    assert_eq!(component_authority_epoch(&e, "hp"), 1);
    assert_eq!(bump_spatial_authority_epoch(&mut e), 3);
    assert_eq!(set_physics_island_authority_epoch(&mut e, 7), names);
    assert_eq!(component_authority_epoch(&e, "vel"), 7);
}

#[test]
fn authorities_round_trip_through_a_snapshot() {
    let mut e = thing(r#"{"rot":0.5,"hp":3}"#);
    let _ = advance_physics_island_authority(&mut e, None, Some("w2"));
    let snapshot = authority_to_json(&e.authority);
    let mut back = thing(r#"{"rot":0.5,"hp":3}"#);
    apply_authority_snapshot(&mut back, &j(&snapshot.text()));
    assert_eq!(authority_to_json(&back.authority).text(), snapshot.text());
    assert_eq!(component_authority_mode(&back, "pos"), AuthorityMode::ServerPhysicsIsland);
}

// ── partitions ──

#[test]
fn strips_have_names() {
    assert_eq!(strip_name(0, 1), "W");
    assert_eq!(strip_name(1, 1), "E");
    assert_eq!(strip_name(0, 0), "E");
    assert_eq!(strip_name(1, 2), "Z1");
    for n in [1usize, 2, 12] {
        for i in 0..n + 1 {
            assert_eq!(strip_index_of_name(&strip_name(i, n), n), Some(i));
        }
    }
    assert_eq!(strip_index_of_name("nowhere", 3), None);
    assert!(is_strip_region_name("W", 1) && is_strip_region_name("E#1", 1));
    assert!(!is_strip_region_name("Z0", 1) && !is_strip_region_name("Z1", 1));
    assert!(is_strip_region_name("Z2", 2) && !is_strip_region_name("Z3", 2));
    assert!(!is_strip_region_name("W", 2) && !is_strip_region_name("E", 2));
    assert!(!is_strip_region_name("Z2_0", 2));
    assert_eq!(coarse_region("W#1"), "W");
    assert_eq!(coarse_region("W"), "W");
}

#[test]
fn a_strip_is_left_only_past_its_band() {
    let c = cuts(&[0.0]);
    assert_eq!(strip_index(&at(-1.0), &c), 0);
    assert_eq!(strip_index(&at(0.0), &c), 1);
    assert_eq!(initial_region(&at(-1.0), &c), "W");
    assert_eq!(region_after(&at(0.25), "W", &c), "W");
    assert_eq!(region_after(&at(0.5), "W", &c), "E");
    assert_eq!(region_after(&at(-0.25), "E", &c), "E");
    assert_eq!(region_after(&at(-0.75), "E", &c), "W");
    assert_eq!(region_after(&at(9.0), "EARTH", &c), "EARTH");
    assert_eq!(seam_intent_target(&at(0.25), "W", &c), Some("E".to_string()));
    assert_eq!(seam_intent_target(&at(-9.0), "W", &c), None);
}

#[test]
fn split_strips_are_refined() {
    let mut splits = StrMap::new();
    assert_eq!(refine_region("E", &at(3.0), &splits), "E");
    assert_eq!(spawn_region(&at(3.0), Some("EARTH"), &cuts(&[0.0]), &splits), "EARTH");
    assert_eq!(spawn_region(&at(3.0), None, &cuts(&[0.0]), &splits), "E");
    splits.insert("E", Splits(vec![fl(10.0)]));
    assert_eq!(refine_region("E", &at(3.0), &splits), "E");
    assert_eq!(refine_region("E", &at(12.0), &splits), "E#1");
    assert_eq!(movement_region_after(&at(12.0), "E", &cuts(&[0.0]), &splits), "E#1");
}

#[test]
fn cells_have_names() {
    assert_eq!(parse_grid_size("3x4"), Some((3, 4)));
    assert_eq!(parse_grid_size("3"), None);
    assert_eq!(parse_grid_size("0x4"), None);
    assert_eq!(region_2d((1, 2), 3, 4), "Z1_2");
    assert_eq!(region_2d((-5, 9), 3, 4), "Z0_3");
    assert_eq!(parse_grid_cell("Z1_2"), Some((1, 2)));
    assert_eq!(parse_grid_cell("W"), None);
    assert_eq!(region_2d_after("Z1_2", (2, 2), (false, false), 3, 4), "Z1_2");
    assert_eq!(region_2d_after("Z1_2", (2, 3), (true, false), 3, 4), "Z2_2");
    assert_eq!(region_2d_after("Z1_2", (2, 3), (true, true), 3, 4), "Z2_3");
}

#[test]
fn cuts_are_put_in_order() {
    let v = order_cuts(&vec![fl(3.0), fl(-1.0), fl(3.0), fl(0.5)]);
    let places: Vec<f64> = v.iter().map(|f| f64::from_bits(f.bits())).collect();
    assert_eq!(places, [-1.0, 0.5, 3.0]);
}

// ── interest ──

#[test]
fn small_areas_have_cells_and_large_ones_none() {
    let cells = interest_cells_for(CellBox { x0: -1, x1: 0, y0: 2, y1: 3 });
    assert_eq!(cells.len(), 4);
    assert!(cells.contains(&GridCell { x: -1, y: 3 }));
    assert!(interest_cells_for(CellBox { x0: 0, x1: 99, y0: 0, y1: 99 }).is_empty());
    let (lo, hi) = (i64::MIN, i64::MAX);
    assert!(interest_cells_for(CellBox { x0: lo, x1: hi, y0: lo, y1: hi }).is_empty());
    assert!(interest_cells_for(CellBox { x0: hi, x1: lo, y0: 0, y1: 0 }).is_empty());
    let edge = interest_cells_for(CellBox { x0: hi, x1: hi, y0: hi - 1, y1: hi });
    assert_eq!(edge, [GridCell { x: hi, y: hi - 1 }, GridCell { x: hi, y: hi }]);
}

#[test]
fn who_is_left_behind_is_looked_at_too() {
    let a = GridCell { x: 0, y: 0 };
    let b = GridCell { x: 5, y: 0 };
    let c = GridCell { x: 9, y: 9 };
    let mut g = InterestGrid::new();
    g.update("near-a", Some(vec![a]), false);
    g.update("near-b", Some(vec![b]), false);
    g.update("wide", Some(vec![]), false);
    g.update("everywhere", None, true);
    g.update("nowhere", None, false);
    g.settle("ship", a);
    assert_eq!(g.moved("ship", b), ["everywhere", "near-a", "near-b", "wide"]);
    assert_eq!(g.moved("ship", c), ["everywhere", "near-b", "wide"]);
    g.forget("ship");
    assert_eq!(g.moved("ship", c), ["everywhere", "wide"]);
    g.remove("everywhere");
    assert_eq!(g.candidates(Some(a), c), ["near-a", "wide"]);
}

// ── the registry ──

#[test]
fn an_advertisement_is_read() {
    let a = parse_advertise(" W = 10.0.0.1:7000 @ 12 ");
    assert_eq!((a.region.as_str(), a.addr.as_str(), a.epoch), ("W", "10.0.0.1:7000", Some(12)));
    let a = parse_advertise("W=host:1@x");
    assert_eq!((a.addr.as_str(), a.epoch), ("host:1", None));
    let a = parse_advertise("nothing");
    assert_eq!((a.region.as_str(), a.addr.as_str(), a.epoch), ("", "", None));
    let m = parse_mesh("E=h:1, N = h:2 ,bad,=x,y=");
    let m: Vec<(String, String)> = m.into_iter().map(|n| (n.region, n.addr)).collect();
    assert_eq!(m, [("E".to_string(), "h:1".to_string()), ("N".to_string(), "h:2".to_string())]);
}

#[test]
fn a_lease_epoch_never_falls() {
    let mut entries = StrMap::new();
    assert_eq!(own_lease_epoch("W", None, &entries), 1);
    assert_eq!(own_lease_epoch("", Some(3), &entries), 0);
    entries.insert("W", registry_heartbeat(&entries, "W", "h:1", 50, 4).unwrap());
    assert_eq!(entries.get("W").unwrap().text(), r#"{"addr":"h:1","hb_ms":50,"lease_epoch":4}"#);
    assert_eq!(registry_lease_epoch(&entries, "W"), Some(4));
    assert_eq!(own_lease_epoch("W", None, &entries), 5);
    assert_eq!(own_lease_epoch("W", Some(3), &entries), 3);
    assert!(registry_heartbeat(&entries, "W", "h:2", 60, 3).is_none());
    assert!(registry_heartbeat(&entries, "W", "h:2", 60, 5).is_some());
}

// ── the tape ──

#[test]
fn replay_tape_disabled_by_default() {
    assert!(ReplayTape::from_env(None, None).is_none());
}

#[test]
fn a_tape_holds_what_its_setting_says() {
    assert!(ReplayTape::from_env(Some("  "), None).is_none());
    let mut t = ReplayTape::from_env(Some("/tape"), Some("2")).unwrap();
    for _ in 0..3 {
        t.record(&j(r#"{"kind":"x","auth_token":"secret"}"#));
    }
    assert_eq!(t.dropped(), 1);
    assert_eq!(t.take_lines(), [r#"{"kind":"x"}"#, r#"{"kind":"x"}"#]);
    t.close();
    t.record(&j("{}"));
    assert_eq!(t.dropped(), 2);
    assert!(t.take_lines().is_empty());
    let mut one = ReplayTape::open_path(0);
    one.record(&j("{}"));
    assert_eq!(one.take_lines(), ["{}"]);
}

#[test]
fn nothing_redacted_is_left_at_any_depth() {
    let ev = j(r#"{"a":[{"value":1,"b":2}],"payload":3,"c":{"updates":[],"d":{"components":{}}}}"#);
    let clean = sanitize_tape_event(&ev);
    assert_eq!(clean.text(), r#"{"a":[{"b":2}],"c":{"d":{}}}"#);
    assert_eq!(sanitize_tape_event(&clean).text(), clean.text());
}

// ── recovery ──

fn replayed(events: &[&str]) -> godworks_broker::recovery::ReplayStore {
    let events: Vec<Json> = events.iter().map(|e| j(e)).collect();
    apply_wal_events(&events, true)
}

#[test]
fn a_deleted_entity_stays_deleted() {
    let s = replayed(&[
        r#"{"kind":"register","entity":"e1","pos":[1,2],"region":"W","version":1}"#,
        r#"{"kind":"delete_tombstone","entity":"e1"}"#,
        r#"{"kind":"register","entity":"e1","pos":[1,2],"region":"W","version":2}"#,
        r#"{"kind":"transfer","entity":"e1","to":"E"}"#,
    ]);
    assert!(s.entities.is_empty());
    assert!(s.tombstones.contains("e1"));
}

#[test]
fn a_departure_is_pending_until_it_is_confirmed() {
    let register = r#"{"kind":"register","entity":"e1","region":"W","version":1}"#;
    let out = r#"{"kind":"mesh_out","entity":"e1","target":"E","authority_epoch":4}"#;
    let acked = r#"{"kind":"mesh_acked","entity":"e1"}"#;
    let s = replayed(&[register, out]);
    assert!(s.entities.is_empty());
    assert_eq!(s.recovered_pending.keys(), ["e1"]);
    assert_eq!(s.mesh_forwarded_epoch.get("e1").copied(), Some(4));
    let s = replayed(&[register, out, acked]);
    assert!(s.recovered_pending.is_empty());
    assert_eq!(s.mesh_forwarded_epoch.get("e1").copied(), Some(4));
    let s = replayed(&[register, out, r#"{"kind":"mesh_forwarded_fence","entity":"e1","authority_epoch":3}"#]);
    assert!(s.recovered_pending.is_empty());
    assert_eq!(s.mesh_forwarded_epoch.get("e1").copied(), Some(4));
}

#[test]
fn a_threshold_is_never_half_open_after_recovery() {
    let register = r#"{"kind":"register","entity":"e1","region":"W","version":1}"#;
    let prepare = r#"{"kind":"threshold_prepare","entity":"e1","tx_id":"t","from":"W","to":"E","ts_ms":5,"version":2}"#;
    let commit = r#"{"kind":"threshold_commit","entity":"e1","tx_id":"t","from":"W","to":"E","ts_ms":6,"authority_epoch":3,"version":3}"#;
    let s = replayed(&[register, prepare]);
    let e = s.entities.get("e1").unwrap();
    assert!(e.components.get("threshold.tx").is_none());
    assert_eq!((e.region.as_str(), e.version), ("W", 2));
    let s = replayed(&[register, prepare, commit]);
    let e = s.entities.get("e1").unwrap();
    assert_eq!(e.components.get("threshold.tx").unwrap().get_str("phase"), Some("commit"));
    assert_eq!((e.region.as_str(), e.version), ("E", 3));
    assert_eq!(component_authority_epoch(e, "pos"), 3);
    let s = replayed(&[register, prepare, commit, r#"{"kind":"threshold_adopt","entity":"e1","version":4}"#]);
    assert!(s.entities.get("e1").unwrap().components.get("threshold.tx").is_none());
}

#[test]
fn reservations_never_shrink() {
    let s = replayed(&[
        r#"{"kind":"reserve_entity_ids","next_id":50}"#,
        r#"{"kind":"reserve_entity_ids","next_id":20}"#,
    ]);
    assert_eq!(s.recovered_id_hwm, 50);
}

#[test]
fn a_replayed_write_gives_the_version_that_it_states() {
    let s = replayed(&[
        r#"{"kind":"register","entity":"e1","version":5,"pos":[0,0],"vel":[0,0],"components":{},"region":"W"}"#,
        r#"{"kind":"write","entity":"e1","comp":"hp","value":1,"version":2}"#,
    ]);
    assert_eq!(s.entities.get("e1").unwrap().version, 2);
    let s = replayed(&[
        r#"{"kind":"register","entity":"e1","version":5,"pos":[0,0],"vel":[0,0],"components":{},"region":"W"}"#,
        r#"{"kind":"write","entity":"e1","comp":"hp","value":1}"#,
        r#"{"kind":"transfer","entity":"e1","to":"E","version":3}"#,
    ]);
    let e = s.entities.get("e1").unwrap();
    assert_eq!((e.region.as_str(), e.version), ("E", 3));
}

#[test]
fn an_arbitrated_component_is_replayed() {
    let s = replayed(&[
        r#"{"kind":"register","entity":"e1","version":5,"pos":[1,2],"vel":[0,0],"components":{},"region":"W"}"#,
        r#"{"kind":"component_authority","entity":"e1","version":6,"writer":"broker.contact","comp":"pos","owner":"w1","authority_epoch":4,"mode":"server_arbitrated","reason":"r"}"#,
    ]);
    let e = s.entities.get("e1").unwrap();
    assert_eq!(e.version, 6);
    assert_eq!(component_authority_mode(e, "pos"), AuthorityMode::ServerArbitrated);
    assert_eq!(component_authority_owner(e, "pos"), Some("w1".to_string()));
    assert_eq!(component_authority_epoch(e, "pos"), 4);
    assert_eq!(e.pos.json().text(), "[1.0,2.0]");
}

#[test]
fn writes_and_components_are_replayed() {
    let s = replayed(&[
        r#"{"kind":"register","entity":"e1","pos":[1,2],"vel":[0,0],"region":"W","version":1,"components":{"hp":3,"tag":"x"}}"#,
        r#"{"kind":"write","entity":"e1","comp":"pos","value":[4.5,6.0],"version":2}"#,
        r#"{"kind":"write","entity":"e1","comp":"hp","value":9,"version":3}"#,
        r#"{"kind":"component_add","entity":"e1","comp":"mana","value":7,"version":4}"#,
        r#"{"kind":"component_remove","entity":"e1","comp":"tag","version":5}"#,
        r#"{"kind":"component_authority","entity":"e1","comp":"hp","owner":"w9","authority_epoch":8,"mode":"server_arbitrated","version":6}"#,
    ]);
    let e = s.entities.get("e1").unwrap();
    assert_eq!(e.pos.json().text(), "[4.5,6.0]");
    assert_eq!(e.components.keys(), ["hp", "mana"]);
    assert_eq!(e.components.get("hp").unwrap().text(), "9");
    assert_eq!(e.version, 6);
    assert_eq!(component_authority_owner(e, "hp"), Some("w9".to_string()));
    assert_eq!(component_authority_epoch(e, "hp"), 8);
    assert_eq!(component_authority_mode(e, "hp"), AuthorityMode::ServerArbitrated);
}

#[test]
fn a_damaged_log_gives_nothing() {
    let good = wal_v1_envelope_line(&j(r#"{"kind":"register","entity":"e1"}"#));
    let lines = vec![wal_v1_header_line(), "junk".to_string(), good];
    let r = recover_from_wal_report(Some(&lines), None, true);
    assert!(r.report.error.is_some());
    assert!(r.store.entities.is_empty());
}

#[test]
fn a_log_is_cut_back_to_its_good_part() {
    let good = wal_v1_envelope_line(&j(r#"{"kind":"register","entity":"e1"}"#));
    let lines = vec![wal_v1_header_line(), good, "junk".to_string()];
    let r = recover_from_wal_report(Some(&lines), None, true).report;
    let len = r.recoverable_prefix_bytes + r.truncated_tail_bytes;
    let cut = truncate_wal_tail_to_recoverable_prefix(&r, len);
    assert_eq!(cut, Ok(Some(r.recoverable_prefix_bytes)));
    let short = r.recoverable_prefix_bytes - 1;
    let err = truncate_wal_tail_to_recoverable_prefix(&r, short).unwrap_err();
    assert_eq!(
        err,
        format!("recoverable WAL prefix {} exceeds on-disk length {}", short + 1, short)
    );
    let whole = recover_from_wal_report(Some(&vec![wal_v1_header_line()]), None, true).report;
    assert_eq!(truncate_wal_tail_to_recoverable_prefix(&whole, 1), Ok(None));
}

#[test]
fn the_fingerprint_of_a_world_has_no_order() {
    let mut a = StrMap::new();
    a.insert("x", thing("{}"));
    a.insert("y", thing(r#"{"hp":1}"#));
    let mut b = StrMap::new();
    b.insert("y", thing(r#"{"hp":1}"#));
    b.insert("x", thing("{}"));
    assert_eq!(store_content_hash(&a), store_content_hash(&b));
    let mut one = StrMap::new();
    one.insert("x", thing("{}"));
    let text = r#"{"components":{},"id":"x","pos":[1.0,2.0],"region":"W","vel":[0.0,0.0],"version":1}"#;
    assert_eq!(store_content_hash(&one), ((crc32_ieee(text.as_bytes()) as u64) << 1) | 1);
    assert_ne!(store_content_hash(&a), store_content_hash(&one));
    assert_eq!(store_content_hash(&StrMap::new()), 0);
}

// ── values from afar ──

fn coarse(comp: &str, value: &str, grid: f64) -> String {
    let v = j(value);
    let g = fl(grid);
    let table: Vec<Rounded> = numbers_to_round(comp, &v, &g)
        .into_iter()
        .map(|n| {
            let x = (f64::from_bits(n.bits()) / grid).round() * grid;
            Rounded { number: n, rounded: if x.is_finite() { at(x) } else { None } }
        })
        .collect();
    coarsen_component_value(comp, &v, &g, &table).text()
}

#[test]
fn positions_and_velocities_are_rounded_from_afar() {
    assert_eq!(coarse("pos", "[1.2,7]", 5.0), "[0.0,5.0]");
    assert_eq!(coarse("vel", r#"[-3.5,"x",null,2.4]"#, 1.0), r#"[-4.0,"x",null,2.0]"#);
    assert_eq!(coarse("pos", "7", 5.0), "7");
    assert_eq!(coarse("hp", "[1.2]", 5.0), "[1.2]");
    assert_eq!(
        coarse("physics", r#"{"ang":[0.6],"lin":1.2,"mass":[1.2],"pos":[1.4,2.6],"vel":[]}"#, 1.0),
        r#"{"ang":[1.0],"lin":1.2,"mass":[1.2],"pos":[1.0,3.0],"vel":[]}"#
    );
    assert_eq!(coarse("physics", "[1.2]", 1.0), "[1.2]");
    assert_eq!(coarse("pos", "[1e308]", 1e-9), "[null]");
}

#[test]
fn a_grid_of_nothing_rounds_nothing() {
    for grid in [0.0, -0.0, -2.0] {
        assert_eq!(coarse("pos", "[1.2,7]", grid), "[1.2,7]");
        assert!(numbers_to_round("pos", &j("[1.2,7]"), &fl(grid)).is_empty());
    }
    let table = vec![Rounded { number: fl(1.2), rounded: at(2.0) }];
    assert_eq!(quantize_array(&j("[1.2,7,1.2]"), &table).text(), "[2.0,7.0,2.0]");
}

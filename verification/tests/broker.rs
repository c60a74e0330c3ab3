use std::collections::{HashMap, VecDeque};

use godworks_broker::claims::{
    auth_token_matches, parse_connect_auth_claims, peer_role_for, resolve_connect_claims,
    strip_peer_declared_broker_owned_attributes, PeerRole,
};
use godworks_broker::connect::{decide_connect, disconnect_peer, register_peer, Connect};
use godworks_broker::dispatch::{Answer, Ask, Scene, Surroundings, Task};
use godworks_broker::doc::Json;
use godworks_broker::entity::{
    component_authority_epoch, component_authority_owner, initial_authority_map,
    set_component_authority_epoch, AuthorityMode, Entity,
};
use godworks_broker::fidelity::{numbers_to_round, Rounded};
use godworks_broker::float::{Float, Point};
use godworks_broker::grants::{
    authority_key, grant_authority, grant_region_physics_island_authority,
};
use godworks_broker::interest::InterestGrid;
use godworks_broker::journal::{
    compaction_events, ensure_wal_header, may_compact_wal, note_append, note_compaction, note_sync,
    rewritten_log, wal_header, wal_line, Compaction,
};
use godworks_broker::mesh::{mesh_ack_event, record_mesh_ack};
use godworks_broker::moves::{handoff_with_position, Start};
use godworks_broker::partition::{
    is_strip_region_name, region_2d, region_2d_after, Cut, Splits,
};
use godworks_broker::policy::is_persistent_op;
use godworks_broker::publish::{propagate, Sight};
use godworks_broker::query::Reach;
use godworks_broker::rebalance::maybe_split;
use godworks_broker::receive::{dispatch_frame, dispatch_inner, Outcome, Overdraft};
use godworks_broker::replay_tape::ReplayTape;
use godworks_broker::report::{health_snapshot, Gauges};
use godworks_broker::schema::{snapshot_authority_hash, Identity};
use godworks_broker::spawn::{complete_spawn, prepare_spawn, prepared_spawn_wal_event, region_of_spawn};
use godworks_broker::startup::{
    recover_from_wal_report, restore, truncate_wal_tail_to_recoverable_prefix, Recovered, Settings,
};
use godworks_broker::state::{
    GhostEntity, Grid, Out, PendingMesh, PendingRemoteHandoff, PreparedUpdate, ServerState,
    Worker,
};
use godworks_broker::steps::step;
use godworks_broker::strmap::{Dup, StrMap, StrSet};
use godworks_broker::tape_events::{
    replay_tape_connect, replay_tape_emit, replay_tape_handoff, replay_tape_ingress,
    replay_tape_op_summary, Semantics,
};
use godworks_broker::transfers::transfers;
use godworks_broker::update::{contact_radius, max_stride, Gap, Stride, Verdict};
use godworks_broker::wire::frame_len;
use serde_json::Value;

const REGISTRY_VERSION: u64 = 1;
const BAND: f64 = 0.5;

fn v(text: &str) -> Value {
    serde_json::from_str(text).unwrap()
}

fn j(text: &str) -> Json {
    Json::parse(text).unwrap()
}

fn val(x: &Json) -> Value {
    serde_json::from_str(&x.text()).unwrap()
}

fn fl(x: f64) -> Float {
    Float::of_json(&j(&format!("{:?}", x))).unwrap()
}

fn num(x: &Float) -> f64 {
    f64::from_bits(x.bits())
}

fn coordinate(x: f64) -> Option<Float> {
    if x.is_finite() {
        Some(fl(x))
    } else {
        None
    }
}

fn point(p: [f64; 2]) -> Point {
    Point { x: coordinate(p[0]), y: coordinate(p[1]) }
}

fn numbers(p: &Point) -> [f64; 2] {
    let one = |c: &Option<Float>| match c {
        Some(f) => num(f),
        None => f64::NAN,
    };
    [one(&p.x), one(&p.y)]
}

fn cut(at: f64) -> Cut {
    Cut { at: fl(at), up: fl(at + BAND), down: fl(at - BAND) }
}

fn cuts(at: &[f64]) -> Vec<Cut> {
    at.iter().map(|b| cut(*b)).collect()
}

fn set(items: &[&str]) -> StrSet {
    let mut s = StrSet::new();
    for i in items {
        s.insert(i);
    }
    s
}

fn pair(x: &Value) -> [f64; 2] {
    let at = |i: usize| x.get(i).and_then(Value::as_f64).unwrap_or(0.0);
    [at(0), at(1)]
}

fn grid(cols: u64, rows: u64, w: f64, h: f64) -> Option<Grid> {
    Some(Grid { cols, rows, cell_w: fl(w), cell_h: fl(h) })
}

fn settings() -> Settings {
    Settings {
        lease_ttl_ms: 30_000,
        threshold_ttl_ms: 30_000,
        wal_compact_bytes: 64 * 1024 * 1024,
        wal_fail: false,
        mesh_ack_drop: false,
        mesh_adopt_drop: false,
        boundaries: cuts(&[0.0]),
        grid2d: None,
        connect_auth_token: None,
        connect_auth_claims: StrMap::new(),
        draining: false,
        drain_exit: true,
    }
}

/// A broker with a log in memory.
struct World {
    s: ServerState,
    tasks: Vec<Task>,
    log: String,
    tape: Option<ReplayTape>,
    lines: Vec<Value>,
    inbox: HashMap<String, VecDeque<Value>>,
    mesh_out: HashMap<String, VecDeque<Value>>,
    grid: InterestGrid,
    now: u64,
}

impl World {
    fn new() -> World {
        World::of(settings())
    }

    fn of(c: Settings) -> World {
        World {
            s: ServerState::new(c),
            tasks: Vec::new(),
            log: String::new(),
            tape: None,
            lines: Vec::new(),
            inbox: HashMap::new(),
            mesh_out: HashMap::new(),
            grid: InterestGrid::new(),
            now: 1_000_000,
        }
    }

    fn with_log() -> World {
        let mut w = World::new();
        w.attach();
        w
    }

    fn attach(&mut self) {
        self.s.wal.attached = true;
        if let Some(line) = ensure_wal_header(&self.s) {
            self.log.push_str(&line);
            assert!(note_append(&mut self.s, &line, true));
        }
    }

    fn env(&self) -> Surroundings {
        Surroundings {
            gauges: self.gauges(),
            lags: StrMap::new(),
            me: Identity {
                broker_id: "broker".to_string(),
                component_registry_version: REGISTRY_VERSION,
            },
        }
    }

    fn gauges(&self) -> Gauges {
        Gauges {
            now_ms: self.now,
            tick_lag_ms: fl(0.0).json(),
            lock_max_hold_ms: fl(0.0).json(),
            lock_max_hold_path: String::new(),
            lock_last_hold_ms: fl(0.0).json(),
            interest_band: fl(0.0).json(),
            rss_bytes: 0,
        }
    }

    fn append(&mut self, ev: &Json) -> bool {
        let line = wal_line(ev);
        let done = note_append(&mut self.s, &line, true);
        if done && self.s.wal.attached {
            self.log.push_str(&line);
        }
        done
    }

    fn commit(&mut self, ev: &Json) -> bool {
        self.append(ev) && note_sync(&mut self.s, true)
    }

    fn write_queue(&mut self) {
        let mut queue = Vec::new();
        std::mem::swap(&mut queue, &mut self.s.log_queue);
        for ev in queue {
            let _ = self.commit(&ev);
        }
    }

    fn record(&mut self, event: Json) {
        if let Some(t) = self.tape.as_mut() {
            t.record(&event);
            for line in t.take_lines() {
                self.lines.push(serde_json::from_str(&line).unwrap());
            }
        }
    }

    fn collect(&mut self) {
        let mut out = Vec::new();
        std::mem::swap(&mut out, &mut self.s.outbox);
        for o in out {
            match o {
                Out::Peer { wid, msg } => {
                    if let Some(ev) =
                        replay_tape_emit(&self.s, &wid, &msg, REGISTRY_VERSION, self.now)
                    {
                        self.record(ev);
                    }
                    self.inbox.entry(wid).or_default().push_back(val(&msg));
                }
                Out::Mesh { region, msg } => {
                    self.mesh_out.entry(region).or_default().push_back(val(&msg));
                }
            }
        }
    }

    fn cell_of(&self, eid: &str) -> String {
        match self.s.entities.get(eid) {
            Some(e) => self.cell_after(numbers(&e.pos), &e.region),
            None => String::new(),
        }
    }

    fn cell_after(&self, p: [f64; 2], current: &str) -> String {
        let g = match &self.s.grid2d {
            Some(g) => g,
            None => return String::new(),
        };
        let (cw, ch) = (num(&g.cell_w), num(&g.cell_h));
        let cell = ((p[0] / cw).floor() as i64, (p[1] / ch).floor() as i64);
        let left = |x: f64, i: i64, size: f64| {
            x >= (i + 1) as f64 * size + BAND || x < i as f64 * size - BAND
        };
        match godworks_broker::partition::parse_grid_cell(current) {
            Some((x, y)) => region_2d_after(
                current,
                cell,
                (left(p[0], x, cw), left(p[1], y, ch)),
                g.cols as usize,
                g.rows as usize,
            ),
            None => region_2d(cell, g.cols as usize, g.rows as usize),
        }
    }

    fn sees(&self, w: &Worker, p: [f64; 2]) -> bool {
        match &w.aoi_center {
            Some(c) => {
                let c = numbers(c);
                let r = w.aoi_radius.as_ref().map(num).unwrap_or(0.0);
                let (dx, dy) = (p[0] - c[0], p[1] - c[1]);
                dx * dx + dy * dy <= r * r
            }
            None => false,
        }
    }

    fn peers_near(&self, p: [f64; 2]) -> StrSet {
        let mut near = StrSet::new();
        for wid in self.s.workers.keys() {
            if self.sees(self.s.workers.get(&wid).unwrap(), p) {
                near.insert(&wid);
            }
        }
        near
    }

    fn things_near(&self, w: &Worker) -> StrSet {
        let mut near = StrSet::new();
        for eid in self.s.entities.keys() {
            if self.sees(w, numbers(&self.s.entities.get(&eid).unwrap().pos)) {
                near.insert(&eid);
            }
        }
        for eid in self.s.ghosts.keys() {
            if self.sees(w, numbers(&self.s.ghosts.get(&eid).unwrap().pos)) {
                near.insert(&eid);
            }
        }
        near
    }

    fn sights(&self, eid: &str) -> Vec<Sight> {
        let p = match self.s.entities.get(eid) {
            Some(e) => numbers(&e.pos),
            None => return Vec::new(),
        };
        let mut out = Vec::new();
        for wid in self.s.workers.keys() {
            let w = self.s.workers.get(&wid).unwrap();
            let near = self.sees(w, p);
            out.push(Sight { wid, near, full: true, rounded: Vec::new() });
        }
        out
    }

    fn scene(&self, wid: &str, f: &Json) -> Scene {
        let m = val(f);
        let op = m["op"].as_str().unwrap_or("").to_string();
        let mut scene = Scene {
            cell: String::new(),
            reach: Reach { in_sphere: StrSet::new(), near: StrSet::new() },
            verdicts: Vec::new(),
        };
        if op == "CreateEntity" {
            let p = pair(&m["components"]["pos"]);
            scene.cell = self.cell_after(p, "");
            scene.reach.near = self.peers_near(p);
        } else if op == "MeshHandoff" || op == "MeshGhost" {
            let p = pair(&m["pos"]);
            scene.cell = self.cell_after(p, "");
            scene.reach.near = self.peers_near(p);
        } else if op == "EntityEvent" {
            if let Some(e) = self.s.entities.get(m["entity"].as_str().unwrap_or("")) {
                scene.reach.near = self.peers_near(numbers(&e.pos));
            }
        } else if op == "EntityQuery" {
            if let Some(w) = self.s.workers.get(wid) {
                scene.reach.near = self.things_near(w);
            }
        }
        scene
    }

    fn drive(&mut self, first: Ask) {
        let mut ask = first;
        loop {
            self.write_queue();
            let answer = match ask {
                Ask::Done => break,
                Ask::Again => Answer::Nothing,
                Ask::Append(ev) => Answer::Went(self.append(&ev)),
                Ask::Commit(ev) => Answer::Went(self.commit(&ev)),
                Ask::Sync => Answer::Went(note_sync(&mut self.s, true)),
                Ask::Cell(eid) => Answer::Cell(self.cell_of(&eid)),
                Ask::Sights { eid, .. } => Answer::Seen(self.sights(&eid)),
            };
            let moved = transfers(&self.s, &self.tasks, &answer);
            let env = self.env();
            ask = step(&mut self.s, &mut self.tasks, answer, &env);
            for h in &moved {
                let event = replay_tape_handoff(&self.s, h, REGISTRY_VERSION, self.now);
                self.record(event);
            }
        }
        self.write_queue();
        self.collect();
    }

    fn run(&mut self, task: Task) {
        self.tasks.push(task);
        self.drive(Ask::Again);
    }

    fn flush(&mut self) {
        self.run(Task::Flush);
    }

    fn flush_handoffs(&mut self) {
        self.run(Task::SyncHandoffs);
    }

    fn semantics(op: &str) -> Option<Semantics> {
        if op == "CreateEntity" {
            Some(Semantics {
                persistence: "persistent".to_string(),
                category: "entity_lifecycle".to_string(),
                response_op: Some("CreateEntityResponse".to_string()),
            })
        } else {
            None
        }
    }

    fn note_ingress(&mut self, wid: &str, f: &Json, outcome: &str, reason: Option<&str>) {
        let m = val(f);
        let bytes = f.text().len() as u64;
        let sem = World::semantics(m["op"].as_str().unwrap_or(""));
        let summary = replay_tape_op_summary(f, bytes, &sem);
        let ev = replay_tape_ingress(
            &self.s,
            wid,
            summary,
            outcome,
            reason,
            REGISTRY_VERSION,
            self.now,
        );
        self.record(ev);
    }

    /// A message at the door.
    fn frame(&mut self, wid: &str, text: &str) -> Outcome {
        self.frame_limited(wid, text, None)
    }

    fn frame_limited(&mut self, wid: &str, text: &str, over: Option<Overdraft>) -> Outcome {
        let f = j(text);
        let scene = self.scene(wid, &f);
        let env = self.env();
        let (outcome, ask) =
            dispatch_frame(&mut self.s, &mut self.tasks, wid, &f, over, scene, &env);
        self.collect();
        self.drive(ask);
        match outcome {
            Outcome::RateLimited => {
                self.note_ingress(wid, &f, "rejected", Some("rate_limit_error"))
            }
            Outcome::RoleRefused => {
                self.note_ingress(wid, &f, "rejected", Some("role_policy_error"))
            }
            Outcome::Dispatched => self.note_ingress(wid, &f, "dispatched", None),
        }
        outcome
    }

    /// A message past the door.
    fn inner(&mut self, wid: &str, text: &str) {
        let f = j(text);
        let scene = self.scene(wid, &f);
        let env = self.env();
        let ask = dispatch_inner(&mut self.s, &mut self.tasks, wid, &f, scene, &env);
        self.drive(ask);
    }

    fn recv(&mut self, wid: &str) -> Option<Value> {
        self.collect();
        self.inbox.get_mut(wid).and_then(|q| q.pop_front())
    }

    fn recv_mesh(&mut self, region: &str) -> Option<Value> {
        self.collect();
        self.mesh_out.get_mut(region).and_then(|q| q.pop_front())
    }

    fn clear(&mut self, wid: &str) {
        while self.recv(wid).is_some() {}
    }

    fn add_worker(&mut self, wid: &str, region: &str) {
        self.add_peer(wid, region, &[]);
        self.s.region_worker.insert(region, wid.to_string());
    }

    fn add_peer(&mut self, wid: &str, region: &str, attributes: &[&str]) {
        let attributes = set(attributes);
        let role = peer_role_for(region, &attributes);
        self.s.workers.insert(
            wid,
            Worker {
                region: region.to_string(),
                role,
                attributes,
                view: StrSet::new(),
                authority_epochs: StrMap::new(),
                aoi_center: None,
                aoi_radius: None,
                fidelity_full_radius: None,
                fidelity_coarse_rate: 1,
                fidelity_coarse_grid: fl(0.0),
                fidelity_seq: StrMap::new(),
                ingress_rejected: 0,
            },
        );
        if role == PeerRole::Worker {
            self.s.region_worker.insert(region, wid.to_string());
        }
        self.index(wid);
    }

    /// Puts a peer without an area on the grid.
    fn index(&mut self, wid: &str) {
        let global = self.s.workers.get(wid).unwrap().should_be_global_interest_holder();
        self.grid.update(wid, None, global);
    }

    fn edit_worker(&mut self, wid: &str, edit: impl FnOnce(&mut Worker)) {
        let mut w = self.s.workers.remove(wid).unwrap();
        edit(&mut w);
        self.s.workers.insert(wid, w);
    }

    fn edit_entity(&mut self, eid: &str, edit: impl FnOnce(&mut Entity)) {
        let mut e = self.s.entities.remove(eid).unwrap();
        edit(&mut e);
        self.s.entities.insert(eid, e);
    }

    fn add_attribute(&mut self, wid: &str, attr: &str) {
        self.edit_worker(wid, |w| w.attributes.insert(attr));
    }

    fn put(&mut self, eid: &str, e: Entity) {
        self.s.entities.insert(eid, e);
    }

    fn entity(&self, eid: &str) -> &Entity {
        self.s.entities.get(eid).unwrap()
    }

    fn spawn(
        &mut self,
        eid: &str,
        pos: [f64; 2],
        vel: [f64; 2],
        comps: &str,
        requested: Option<&str>,
    ) -> bool {
        let cell = self.cell_after(pos, "");
        let region = region_of_spawn(&self.s, &coordinate(pos[0]), requested, &cell);
        let comps = j(comps).as_object().unwrap().dup();
        let p = match prepare_spawn(
            &self.s,
            eid,
            point(pos),
            point(vel),
            comps,
            &region,
            None,
            None,
        ) {
            Some(p) => p,
            None => return false,
        };
        let ev = prepared_spawn_wal_event(&p);
        let written = self.commit(&ev);
        let near = self.peers_near(pos);
        let done = complete_spawn(&mut self.s, p, written, &near);
        self.collect();
        done
    }

    fn grant_island(&mut self, wid: &str, eid: &str) {
        grant_region_physics_island_authority(&mut self.s, wid, eid);
        self.collect();
    }

    fn handoff(&mut self, eid: &str, from: &str, to: &str, pos: Option<[f64; 2]>) -> bool {
        let p = pos.map(point);
        match handoff_with_position(&mut self.s, eid, from, to, &p) {
            Start::Done(b) => b,
            Start::Log(h) => {
                let ev = godworks_broker::handoff::prepared_handoff_wal_event(&h);
                let ok = self.append(&ev);
                self.tasks.push(Task::Handoff { h });
                let env = self.env();
                let ask = step(&mut self.s, &mut self.tasks, Answer::Went(ok), &env);
                self.drive(ask);
                ok
            }
        }
    }

    fn forward(&mut self, eid: &str, target: &str) {
        let list = vec![PendingRemoteHandoff { eid: eid.to_string(), target: target.to_string() }];
        self.run(Task::Depart { list, next: 0 });
    }

    fn ack(&mut self, eid: &str) -> bool {
        let ok = self.commit(&mesh_ack_event(eid));
        record_mesh_ack(&mut self.s, eid, ok)
    }

    /// A neighbour's confirmation.
    fn confirm(&mut self, eid: &str) {
        if let Some(ev) = godworks_broker::mesh::plan_mesh_ack(&self.s, eid) {
            self.tasks.push(Task::Acked { eid: eid.to_string() });
            self.drive(Ask::Commit(ev));
        }
    }

    fn log_lines(&self) -> Vec<String> {
        self.log.lines().map(|l| l.to_string()).collect()
    }

    fn recover(&self, offset: Option<u64>) -> Recovered {
        let lines = self.log_lines();
        recover_from_wal_report(Some(&lines), offset, true)
    }

    fn reject_text(&mut self, wid: &str) -> String {
        let m = self.recv(wid).expect("a rejection is sent");
        assert_eq!(m["op"], "UpdateRejected");
        m["reason"].as_str().unwrap_or("").to_string()
    }
}

fn test_entity(pos: [f64; 2], region: &str) -> Entity {
    let components = StrMap::new();
    Entity {
        pos: point(pos),
        vel: point([1.0, 0.0]),
        authority: initial_authority_map(&components, 1),
        components,
        region: region.to_string(),
        version: 1,
    }
}

fn test_physics_island_entity(pos: [f64; 2], region: &str) -> Entity {
    let mut components = StrMap::new();
    components.insert("rot", j("0.25"));
    components.insert("lin", j("[1.0, 0.0]"));
    components.insert("ang", j("0.125"));
    components.insert("at_rest", j("false"));
    Entity {
        pos: point(pos),
        vel: point([1.0, 0.0]),
        authority: initial_authority_map(&components, 1),
        components,
        region: region.to_string(),
        version: 1,
    }
}

fn expanded_physics_island_components() -> Vec<&'static str> {
    vec!["ang", "at_rest", "lin", "pos", "rot", "vel"]
}

fn stamp_expanded_physics_island_epochs(e: &mut Entity) -> HashMap<String, u64> {
    let epochs: [(&str, u64); 6] =
        [("ang", 3), ("at_rest", 5), ("lin", 7), ("pos", 11), ("rot", 13), ("vel", 17)];
    let mut out = HashMap::new();
    for (comp, epoch) in epochs {
        set_component_authority_epoch(e, comp, epoch);
        out.insert(comp.to_string(), epoch);
    }
    out
}

fn physics_island_update_value(comp: &str) -> &'static str {
    match comp {
        "ang" => "0.75",
        "at_rest" => "true",
        "lin" => "[2.0,0.0]",
        "pos" => "[3.0,0.0]",
        "rot" => "0.5",
        "vel" => "[0.0,2.0]",
        other => panic!("unexpected physics-island comp {other}"),
    }
}

fn seed_2d_rebalance_state(w: &mut World) -> Vec<String> {
    w.s.grid2d = grid(2, 2, 10.0, 10.0);
    w.add_worker("hot", "Z0_0");
    w.add_worker("cold", "Z1_0");
    w.s.region_worker.insert("Z0_1", "hot".to_string());
    let mut eids = Vec::new();
    for (name, y) in [("a", 1.0), ("b", 11.0)] {
        for i in 0..4 {
            let eid = format!("{name}{i}");
            assert!(w.spawn(&eid, [1.0, y + i as f64], [0.0, 0.0], "{}", None));
            w.grant_island("hot", &eid);
            eids.push(eid);
        }
    }
    eids
}

fn prepared_update(gen: u64, eid: &str, comp: &str, value: &str, version: u64, writer: &str) -> PreparedUpdate {
    PreparedUpdate {
        gen,
        eid: eid.to_string(),
        comp: comp.to_string(),
        value: j(value),
        version,
        writer: writer.to_string(),
    }
}

#[test]
fn maybe_split_ignores_non_finite_positions_without_panicking() {
    let mut w = World::new();
    w.add_worker("hot", "W");
    w.add_worker("standby", "SPARE");
    w.s.region_worker.remove("SPARE");
    w.s.standbys.push("standby".to_string());
    w.s.worker_load.insert("hot", fl(1.0));
    w.put("nan", test_entity([f64::NAN, 0.0], "W"));
    w.put("left", test_entity([-4.0, 0.0], "W"));
    w.put("right", test_entity([4.0, 0.0], "W"));

    let now = w.now;
    maybe_split(&mut w.s, now);

    let splits = w.s.splits.get("W").expect("hot region should split");
    assert_eq!(splits.0.len(), 1);
    assert!(num(&splits.0[0]).is_finite());
    assert_eq!(num(&splits.0[0]), 4.0);
    assert_eq!(w.s.rebalance_jobs.len(), 1);
}

#[test]
fn replay_tape_never_records_auth_token_or_component_body() {
    let mut w = World::new();
    w.tape = Some(ReplayTape::open_path(128));
    w.add_peer("client-1", "CLIENT", &["role.client", "player.alice"]);
    let sentinel = "SECRET_COMPONENT_BODY_SHOULD_NOT_APPEAR";
    let text = format!(
        "{{\"op\":\"CreateEntity\",\"request_id\":\"create-secret\",\"entity\":\"client-forged\",\
         \"auth_token\":\"super-secret-token\",\
         \"components\":{{\"profile\":\"{sentinel}\",\"pos\":[1.0,2.0]}}}}"
    );

    w.frame("client-1", &text);

    let content: String = w.lines.iter().map(|l| l.to_string()).collect();
    assert!(w.lines.len() >= 2);
    assert!(!content.contains("super-secret-token"));
    assert!(!content.contains("auth_token"));
    assert!(!content.contains(sentinel));
    assert!(content.contains("credential_present"));
    assert!(content.contains("components_bytes"));
}

#[test]
fn replay_tape_large_payload_records_size_not_payload() {
    let mut w = World::new();
    w.tape = Some(ReplayTape::open_path(128));
    w.add_peer("client-1", "CLIENT", &["role.client", "player.alice"]);
    let sentinel = format!("LARGE_PAYLOAD_SENTINEL_{}", "x".repeat(2048));
    let text = format!(
        "{{\"op\":\"UpdateComponent\",\"entity\":\"missing-entity\",\"comp\":\"bio\",\
         \"value\":\"{sentinel}\"}}"
    );

    w.frame("client-1", &text);

    let content: String = w.lines.iter().map(|l| l.to_string()).collect();
    assert!(!content.contains("LARGE_PAYLOAD_SENTINEL"));
    assert!(content.contains("value_bytes"));
    assert!(content.contains("\"outcome\":\"dispatched\""));
}

#[test]
fn replay_tape_role_policy_reject_matches_frame_reason() {
    let mut w = World::new();
    w.tape = Some(ReplayTape::open_path(128));
    w.add_peer("client-1", "CLIENT", &["role.client", "player.alice"]);

    w.frame("client-1", r#"{"op":"CreateEntity","request_id":"c1","entity":"bad"}"#);

    assert!(w.lines.iter().any(|event| {
        event["kind"] == "broker_ingress"
            && event["outcome"] == "rejected"
            && event["reason"] == "role_policy_error"
            && event["op_summary"]["op"] == "CreateEntity"
            && event["op_summary"]["persistence"] == "persistent"
            && event["op_summary"]["category"] == "entity_lifecycle"
            && event["op_summary"]["response_op"] == "CreateEntityResponse"
    }));
    assert!(w.lines.iter().any(|event| {
        event["kind"] == "broker_outbound"
            && event["op"] == "UpdateRejected"
            && event["error"] == "role_policy_error"
            && event["rejected_op"] == "CreateEntity"
            && event["peer_role"] == "client"
    }));
}

#[test]
fn replay_tape_handoff_authority_change_records_epoch() {
    let mut w = World::new();
    w.add_worker("zw-W", "W");
    w.add_worker("zw-E", "E");
    w.put("ship", test_physics_island_entity([-1.0, 0.0], "W"));
    w.grant_island("zw-W", "ship");
    w.tape = Some(ReplayTape::open_path(128));

    assert!(w.handoff("ship", "W", "E", Some([1.0, 0.0])));
    w.flush_handoffs();

    assert!(w.lines.iter().any(|event| {
        event["kind"] == "broker_handoff"
            && event["path"] == "local"
            && event["entity"] == "ship"
            && event["from"] == "W"
            && event["to"] == "E"
            && event["spatial_dim"] == "D2"
            && event["coordinate_codec"] == "debug_f64_2"
            && event["component_registry_version"] == REGISTRY_VERSION
            && event["partition_schema"]["kind"] == "strip1d"
            && event["authority_epoch"].as_u64().is_some_and(|epoch| epoch > 1)
    }));
}

#[test]
fn n_zone_strip_names_do_not_accept_legacy_we_labels() {
    assert!(is_strip_region_name("W", 1));
    assert!(is_strip_region_name("E", 1));
    assert!(!is_strip_region_name("W", 2));
    assert!(!is_strip_region_name("E", 2));
    assert!(is_strip_region_name("Z2", 2));
    assert!(!is_strip_region_name("Z2_0", 2));
}

#[test]
fn spawn_in_region_reports_failure_when_wal_fails() {
    let mut w = World::new();
    w.s.wal.fail_inject = true;
    w.s.wal.degraded = false;

    let ok = w.spawn("e-spawn", [1.0, 2.0], [0.0, 0.0], "{}", None);

    assert!(!ok);
    assert!(!w.s.entities.contains_key("e-spawn"));
    assert!(w.s.wal.degraded);
}

#[test]
fn mesh_forward_does_not_send_or_remove_when_mesh_out_wal_fails() {
    let mut w = World::new();
    w.s.wal.fail_inject = true;
    w.s.wal.degraded = false;
    w.s.my_region = "W".to_string();
    w.s.region_lease_epoch.insert("W", 7);
    w.put("ship", test_entity([1.0, 0.0], "W"));
    w.s.mesh.insert("E");

    w.forward("ship", "E");

    assert!(w.s.entities.contains_key("ship"));
    assert!(w.s.pending_mesh.is_empty());
    assert!(w.recv_mesh("E").is_none());
    assert!(w.s.wal.degraded);
}

fn mesh_world() -> World {
    let mut w = World::new();
    w.s.my_region = "W".to_string();
    w.s.region_lease_epoch.insert("W", 1);
    w.add_worker("zw-W", "W");
    w.s.mesh_regions.insert("E");
    w.s.mesh.insert("E");
    w
}

#[test]
fn cross_broker_handoff_flushes_after_same_batch_writes() {
    let mut w = mesh_world();
    let mut ship = test_entity([-1.0, 0.0], "W");
    ship.components.insert("hp", j("1"));
    w.put("ship", ship);
    w.s.pending_updates.push(prepared_update(1, "ship", "pos", "[1.0,0.0]", 2, "zw-W"));
    w.s.pending_updates.push(prepared_update(2, "ship", "hp", "2", 3, "zw-W"));
    w.s.wal.pending_gen = 2;

    w.flush();

    assert!(!w.s.entities.contains_key("ship"));
    assert!(w.s.pending_mesh.contains_key("ship"));
    let handoff = w.recv_mesh("E").expect("sent after the batch");
    assert_eq!(handoff["op"], "MeshHandoff");
    assert_eq!(handoff["entity"], "ship");
    assert_eq!(handoff["components"]["hp"], v("2"));
    assert!(w.s.pending_remote_handoffs.is_empty());
}

#[test]
fn cross_broker_handoff_intent_is_rechecked_after_same_batch_return() {
    let mut w = mesh_world();
    w.put("ship", test_entity([-1.0, 0.0], "W"));
    w.s.pending_updates.push(prepared_update(1, "ship", "pos", "[1.0,0.0]", 2, "zw-W"));
    w.s.pending_updates.push(prepared_update(2, "ship", "pos", "[-1.0,0.0]", 3, "zw-W"));
    w.s.wal.pending_gen = 2;

    w.flush();

    let ship = w.entity("ship");
    assert_eq!(ship.region, "W");
    assert_eq!(numbers(&ship.pos), [-1.0, 0.0]);
    assert!(w.s.pending_mesh.is_empty());
    assert!(w.s.pending_remote_handoffs.is_empty());
    assert!(w.recv_mesh("E").is_none());
}

fn command_world() -> World {
    let mut w = World::new();
    w.add_peer("client", "CLIENT", &[]);
    w.add_worker("w1", "W");
    w
}

#[test]
fn command_response_wrong_worker_does_not_satisfy_pending() {
    let mut w = command_world();
    w.add_worker("w2", "E");
    w.put("ship", test_entity([-1.0, 0.0], "W"));
    w.grant_island("w1", "ship");
    w.clear("w1");

    w.frame(
        "client",
        r#"{"op":"CommandRequest","request_id":"cmd-1","entity":"ship","command":"move"}"#,
    );
    let forwarded = w.recv("w1").expect("command must route to owner");
    assert_eq!(forwarded["op"], "CommandRequest");
    assert_eq!(forwarded["entity"], "ship");
    assert_eq!(forwarded["authority_comp"], "pos");
    let routed_epoch = forwarded["authority_epoch"].as_u64().expect("routed epoch");

    w.frame(
        "w2",
        r#"{"op":"CommandResponse","request_id":"cmd-1","entity":"ship","success":true,
            "payload":{"entity":"ship","handled_by":"w2"}}"#,
    );
    assert!(w.recv("client").is_none());
    assert!(w.s.pending_commands.contains_key("cmd-1"));

    w.frame(
        "w1",
        r#"{"op":"CommandResponse","request_id":"cmd-1","entity":"ship","success":true,
            "payload":{"entity":"ship","handled_by":"w1"}}"#,
    );
    let response = w.recv("client").expect("owner response must forward");
    assert_eq!(response["op"], "CommandResponse");
    assert_eq!(response["entity"], "ship");
    assert_eq!(response["routed_owner"], "w1");
    assert_eq!(response["authority_comp"], "pos");
    assert_eq!(response["authority_epoch"].as_u64(), Some(routed_epoch));
    assert_eq!(response["success"], true);
    assert!(!w.s.pending_commands.contains_key("cmd-1"));
}

#[test]
fn command_response_wrong_entity_does_not_satisfy_pending() {
    let mut w = command_world();
    w.put("ship", test_entity([-1.0, 0.0], "W"));
    w.grant_island("w1", "ship");
    w.clear("w1");

    w.frame(
        "client",
        r#"{"op":"CommandRequest","request_id":"cmd-entity","entity":"ship","command":"move"}"#,
    );
    w.recv("w1").expect("command must route to owner");

    w.frame(
        "w1",
        r#"{"op":"CommandResponse","request_id":"cmd-entity","entity":"other","success":true,
            "payload":{"entity":"other","handled_by":"w1"}}"#,
    );
    assert!(w.recv("client").is_none());
    assert!(w.s.pending_commands.contains_key("cmd-entity"));

    w.frame(
        "w1",
        r#"{"op":"CommandResponse","request_id":"cmd-entity","payload":{"entity":"ship"},
            "success":true}"#,
    );
    let response = w.recv("client").expect("matching entity must forward");
    assert_eq!(response["op"], "CommandResponse");
    assert_eq!(response["entity"], "ship");
    assert_eq!(response["routed_owner"], "w1");
    assert_eq!(response["authority_comp"], "pos");
    assert!(response["authority_epoch"].as_u64().is_some());
    assert_eq!(response["success"], true);
    assert!(!w.s.pending_commands.contains_key("cmd-entity"));
}

#[test]
fn command_response_stale_owner_after_handoff_fails() {
    let mut w = command_world();
    w.add_worker("w2", "E");
    w.put("ship", test_entity([-1.0, 0.0], "W"));
    w.grant_island("w1", "ship");
    w.clear("w1");

    w.frame(
        "client",
        r#"{"op":"CommandRequest","request_id":"cmd-stale","entity":"ship","command":"move"}"#,
    );
    w.recv("w1").expect("command must route to the old owner");

    assert!(w.handoff("ship", "W", "E", Some([2.0, 0.0])));
    w.flush_handoffs();
    assert_eq!(component_authority_owner(w.entity("ship"), "pos"), Some("w2".to_string()));

    w.frame(
        "w1",
        r#"{"op":"CommandResponse","request_id":"cmd-stale","entity":"ship","success":true,
            "payload":{"entity":"ship","handled_by":"w1"}}"#,
    );
    let response = w.recv("client").expect("a failure is sent");
    assert_eq!(response["op"], "CommandResponse");
    assert_eq!(response["request_id"], "cmd-stale");
    assert_eq!(response["success"], false);
    assert_eq!(response["reason"], "stale command authority");
    assert!(!w.s.pending_commands.contains_key("cmd-stale"));
}

#[test]
fn entity_query_filters_acl_protected_ghosts_before_rows_and_qbi() {
    let mut w = World::new();
    w.add_worker("public-observer", "OBS");
    w.add_worker("secret-observer", "OBS");
    for wid in ["public-observer", "secret-observer"] {
        w.edit_worker(wid, |p| {
            p.aoi_center = Some(point([0.0, 0.0]));
            p.aoi_radius = Some(fl(10.0));
        });
    }
    w.add_attribute("secret-observer", "secret_reader");
    let mut components = StrMap::new();
    components.insert("acl", j(r#"{"read":["secret_reader"]}"#));
    components.insert("hidden_logic", j(r#"{"server_only":true}"#));
    w.s.ghosts.insert(
        "secret-ghost",
        GhostEntity {
            pos: point([1.0, 0.0]),
            vel: point([0.0, 0.0]),
            components,
            owner_region: "E".to_string(),
            last_seen_ms: w.now,
        },
    );

    w.inner(
        "public-observer",
        r#"{"op":"EntityQuery","request_id":"public-all","query":{"type":"all"}}"#,
    );
    assert_eq!(w.recv("public-observer").unwrap()["count"].as_u64(), Some(0));

    w.inner(
        "public-observer",
        r#"{"op":"EntityQuery","request_id":"public-qbi",
            "query":{"type":"component","comp":"hidden_logic"}}"#,
    );
    assert_eq!(w.recv("public-observer").unwrap()["count"].as_u64(), Some(0));

    w.inner(
        "secret-observer",
        r#"{"op":"EntityQuery","request_id":"secret-all","query":{"type":"all"}}"#,
    );
    assert_eq!(w.recv("secret-observer").unwrap()["count"].as_u64(), Some(1));
}

#[test]
fn health_snapshot_reports_stale_and_fresh_monitor_tick_age() {
    let mut w = World::new();
    let stale = val(&health_snapshot(&w.s, &w.gauges()).done());
    assert_eq!(stale["monitor_tick_age_ms"].as_u64(), Some(u64::MAX));

    w.s.monitor_last_tick_ms = w.now - 25;
    let fresh = val(&health_snapshot(&w.s, &w.gauges()).done());
    assert!(fresh["monitor_tick_age_ms"].as_u64().is_some_and(|age| age <= 1_000));
    assert_eq!(fresh["monitor_tick_age_ms"].as_u64(), Some(25));
}

#[test]
fn batch_update_missing_entity_emits_update_rejected() {
    let mut w = World::new();
    w.add_worker("owner-W", "W");

    w.inner(
        "owner-W",
        r#"{"op":"BatchUpdate","comp":"pos","updates":[["missing-body",[1.0,0.0]]]}"#,
    );

    let rejected = w.recv("owner-W").expect("missing entity rejection");
    assert_eq!(rejected["op"], "UpdateRejected");
    assert_eq!(rejected["entity"], "missing-body");
    assert_eq!(rejected["comp"], "pos");
    assert_eq!(rejected["reason"], "entity not found");
}

#[test]
fn obs_without_observer_attr_cannot_query_global_entities() {
    let mut w = World::new();
    assert!(w.spawn("visible-if-authorized", [0.0, 0.0], [0.0, 0.0], "{}", Some("W")));
    w.add_worker("viewer", "OBS");

    w.frame("viewer", r#"{"op":"EntityQuery","request_id":"q1","query":{"type":"all"}}"#);

    let response = w.recv("viewer").expect("query must respond");
    assert_eq!(response["op"], "EntityQueryResponse");
    assert_eq!(response["count"], 0);
    assert_eq!(response["entities"].as_array().unwrap().len(), 0);
}

#[test]
fn obs_with_observer_attr_can_query_global_entities() {
    let mut w = World::new();
    assert!(w.spawn("visible-to-observer", [0.0, 0.0], [0.0, 0.0], "{}", Some("W")));
    w.add_worker("observer", "OBS");
    w.add_attribute("observer", "observer");
    w.index("observer");
    assert!(w.grid.global_workers.contains("observer"));

    w.frame("observer", r#"{"op":"EntityQuery","request_id":"q1","query":{"type":"all"}}"#);

    let response = w.recv("observer").expect("query must respond");
    assert_eq!(response["op"], "EntityQueryResponse");
    assert_eq!(response["count"], 1);
    assert_eq!(response["entities"][0]["entity"], "visible-to-observer");
}

#[test]
fn obs_without_observer_attr_no_center_interest_is_rejected_and_not_global() {
    let mut w = World::new();
    w.add_worker("viewer", "OBS");
    w.index("viewer");
    assert!(!w.grid.global_workers.contains("viewer"));

    w.frame("viewer", r#"{"op":"Interest"}"#);
    w.index("viewer");

    let rejected = w.recv("viewer").expect("global interest must reject");
    assert_eq!(rejected["op"], "UpdateRejected");
    assert_eq!(rejected["comp"], "interest");
    assert!(rejected["reason"].as_str().unwrap().contains("global OBS interest requires"));
    assert!(!w.grid.global_workers.contains("viewer"));
}

#[test]
fn read_frame_rejects_oversized_header_before_body() {
    let limit: usize = 1024;
    let oversized = (limit as u32 + 1).to_be_bytes();
    assert!(frame_len(&oversized, limit).is_none());
    assert_eq!(frame_len(&(limit as u32).to_be_bytes(), limit), Some(limit));
}

#[test]
fn worker_connect_auth_token_matcher_is_fail_closed_when_configured() {
    assert!(auth_token_matches(None, None));
    assert!(auth_token_matches(None, Some("anything")));
    assert!(auth_token_matches(Some("secret"), Some("secret")));
    assert!(!auth_token_matches(Some("secret"), None));
    assert!(!auth_token_matches(Some("secret"), Some("wrong")));
}

fn claims_error(r: Result<Option<godworks_broker::claims::PeerClaims>, String>) -> String {
    match r {
        Ok(_) => panic!("an error was expected"),
        Err(e) => e,
    }
}

#[test]
fn worker_connect_claims_bind_token_to_region_and_attributes() {
    let claims = parse_connect_auth_claims("w-secret:W:physics|sim,mesh-secret:MESH:mesh");
    assert_eq!(claims.len(), 2);

    let requested = set(&["physics"]);
    let resolved =
        resolve_connect_claims(None, &claims, Some("w-secret"), Some("W"), &requested)
            .unwrap()
            .unwrap();
    assert_eq!(resolved.region, "W");
    assert!(resolved.attributes.contains("physics"));
    assert!(resolved.attributes.contains("sim"));

    assert_eq!(
        claims_error(resolve_connect_claims(
            None,
            &claims,
            Some("w-secret"),
            Some("E"),
            &requested
        )),
        "auth token is not valid for requested region"
    );

    let escalated = set(&["physics", "inspector"]);
    assert_eq!(
        claims_error(resolve_connect_claims(
            None,
            &claims,
            Some("w-secret"),
            Some("W"),
            &escalated
        )),
        "auth token is not valid for requested attributes"
    );

    let derived = resolve_connect_claims(None, &claims, Some("w-secret"), None, &StrSet::new())
        .unwrap()
        .unwrap();
    assert_eq!(derived.region, "W");
}

#[test]
fn peer_declared_broker_owned_attributes_are_stripped() {
    let mut attributes =
        set(&["physics", "kernel_admin", "acl_admin", "inspector", "role.client"]);

    strip_peer_declared_broker_owned_attributes(&mut attributes);

    assert!(attributes.contains("physics"));
    assert!(!attributes.contains("kernel_admin"));
    assert!(!attributes.contains("acl_admin"));
    assert!(!attributes.contains("inspector"));
    assert!(!attributes.contains("role.client"));
}

impl World {
    /// A connection: the peer is registered, or the reply is a rejection.
    fn connect(&mut self, text: &str) -> Option<Value> {
        let first = j(text);
        let bytes = first.text().len() as u64;
        match decide_connect(&self.s, &first) {
            Connect::Ignore => None,
            Connect::Reject { wid, reply, reason, region, attributes } => {
                let ev = replay_tape_connect(
                    &self.s,
                    &wid,
                    &first,
                    bytes,
                    &region,
                    &attributes,
                    "rejected",
                    Some(&reason),
                    REGISTRY_VERSION,
                    self.now,
                );
                self.record(ev);
                Some(val(&reply))
            }
            Connect::Accept { wid, region, attributes } => {
                let now = self.now;
                let near = StrSet::new();
                register_peer(&mut self.s, &wid, &region, attributes, &near, now);
                self.collect();
                None
            }
        }
    }

    fn claim(&mut self, token: &str, region: &str, attributes: &[&str]) {
        self.s.connect_auth_claims.insert(
            token,
            godworks_broker::claims::PeerClaims {
                region: region.to_string(),
                attributes: set(attributes),
            },
        );
    }

    fn has_attribute(&self, wid: &str, attr: &str) -> bool {
        self.s.workers.get(wid).is_some_and(|w| w.attributes.contains(attr))
    }

    fn holds(&self, region: &str, wid: &str) -> bool {
        self.s.region_worker.get(region).is_some_and(|w| w == wid)
    }
}

#[test]
fn worker_connect_peer_declared_kernel_admin_is_not_registered() {
    let mut w = World::new();
    let reject = w.connect(
        r#"{"op":"WorkerConnect","worker_id":"fake-admin","region":"W",
            "attributes":["physics","kernel_admin"]}"#,
    );
    assert!(reject.is_none());
    assert!(w.has_attribute("fake-admin", "physics"));
    assert!(!w.has_attribute("fake-admin", "kernel_admin"));
    disconnect_peer(&mut w.s, "fake-admin");
    assert!(!w.s.workers.contains_key("fake-admin"));
}

#[test]
fn worker_connect_shared_token_does_not_grant_kernel_admin() {
    let mut w = World::new();
    w.s.connect_auth_token = Some("shared".to_string());
    let reject = w.connect(
        r#"{"op":"WorkerConnect","worker_id":"shared-token-peer","region":"W",
            "attributes":["physics","kernel_admin"],"auth_token":"shared"}"#,
    );
    assert!(reject.is_none());
    assert!(w.has_attribute("shared-token-peer", "physics"));
    assert!(!w.has_attribute("shared-token-peer", "kernel_admin"));
}

#[test]
fn worker_connect_peer_declared_mesh_region_requires_claim() {
    let mut w = World::new();
    let reject = w
        .connect(r#"{"op":"WorkerConnect","worker_id":"fake-mesh","region":"MESH"}"#)
        .unwrap();
    assert_eq!(reject["op"], "AuthReject");
    assert_eq!(reject["worker_id"], "fake-mesh");
    assert_eq!(reject["reason"], "broker-owned connect region requires token-bound claim");
    assert!(!w.s.workers.contains_key("fake-mesh"));
}

#[test]
fn worker_connect_shared_token_cannot_claim_mesh_region() {
    let mut w = World::new();
    w.s.connect_auth_token = Some("shared".to_string());
    let reject = w
        .connect(
            r#"{"op":"WorkerConnect","worker_id":"shared-token-mesh","region":"MESH",
                "auth_token":"shared"}"#,
        )
        .unwrap();
    assert_eq!(reject["op"], "AuthReject");
    assert_eq!(reject["reason"], "broker-owned connect region requires token-bound claim");
    assert!(!w.s.workers.contains_key("shared-token-mesh"));
}

#[test]
fn worker_connect_claim_token_can_register_mesh_region() {
    let mut w = World::new();
    w.claim("mesh-secret", "MESH", &["role.mesh"]);
    let reject = w.connect(
        r#"{"op":"WorkerConnect","worker_id":"mesh-link","auth_token":"mesh-secret"}"#,
    );
    assert!(reject.is_none());
    let p = w.s.workers.get("mesh-link").unwrap();
    assert_eq!(p.region, "MESH");
    assert_eq!(p.role, PeerRole::Mesh);
    assert!(p.attributes.contains("role.mesh"));
}

#[test]
fn worker_connect_claim_token_can_register_kernel_admin() {
    let mut w = World::new();
    w.claim("admin-secret", "OBS", &["kernel_admin"]);
    let reject =
        w.connect(r#"{"op":"WorkerConnect","worker_id":"admin","auth_token":"admin-secret"}"#);
    assert!(reject.is_none());
    assert_eq!(w.s.workers.get("admin").unwrap().region, "OBS");
    assert!(w.has_attribute("admin", "kernel_admin"));
}

#[test]
fn worker_connect_claim_token_rejects_wrong_region_before_registration() {
    let mut w = World::new();
    w.claim("w-secret", "W", &["physics"]);
    let reject = w
        .connect(
            r#"{"op":"WorkerConnect","worker_id":"region-thief","region":"E",
                "attributes":["physics"],"auth_token":"w-secret"}"#,
        )
        .unwrap();
    assert_eq!(reject["op"], "AuthReject");
    assert_eq!(reject["error"], "auth_error");
    assert_eq!(reject["reason"], "auth token is not valid for requested region");
    assert!(!w.s.workers.contains_key("region-thief"));
    assert!(!w.holds("E", "region-thief"));
}

#[test]
fn replay_tape_worker_connect_redacts_auth_token_on_reject() {
    let mut w = World::new();
    w.tape = Some(ReplayTape::open_path(128));
    w.claim("w-secret", "W", &["physics"]);
    let reject = w
        .connect(
            r#"{"op":"WorkerConnect","worker_id":"region-thief","region":"E",
                "attributes":["physics"],"auth_token":"w-secret"}"#,
        )
        .unwrap();
    assert_eq!(reject["op"], "AuthReject");

    let content: String = w.lines.iter().map(|l| l.to_string()).collect();
    assert!(content.contains("\"kind\":\"broker_connect\""));
    assert!(content.contains("\"credential_present\":true"));
    assert!(content.contains("\"outcome\":\"rejected\""));
    assert!(!content.contains("w-secret"));
    assert!(!content.contains("auth_token"));
}

#[test]
fn worker_connect_claim_token_registers_from_broker_owned_claims() {
    let mut w = World::new();
    w.claim("w-secret", "W", &["physics"]);
    let reject = w.connect(
        r#"{"op":"WorkerConnect","worker_id":"worker-ok","region":"W","auth_token":"w-secret"}"#,
    );
    assert!(reject.is_none());
    assert!(w.s.workers.contains_key("worker-ok"));
    assert!(w.holds("W", "worker-ok"));
    assert!(w.has_attribute("worker-ok", "physics"));
}

#[test]
fn client_role_claim_cannot_lease_worker_region() {
    let mut w = World::new();
    w.claim("client-secret", "W", &["role.client", "player.alice"]);
    let reject = w.connect(
        r#"{"op":"WorkerConnect","worker_id":"client-alice","region":"W",
            "auth_token":"client-secret"}"#,
    );
    assert!(reject.is_none());
    let p = w.s.workers.get("client-alice").unwrap();
    assert_eq!(p.role, PeerRole::Client);
    assert_eq!(p.region, "W");
    assert!(p.attributes.contains("player.alice"));
    assert!(!w.holds("W", "client-alice"));
}

#[test]
fn worker_connect_auth_rejects_before_registration() {
    let mut w = World::new();
    w.s.connect_auth_token = Some("secret".to_string());
    let reject =
        w.connect(r#"{"op":"WorkerConnect","worker_id":"intruder","region":"W"}"#).unwrap();
    assert_eq!(reject["op"], "AuthReject");
    assert_eq!(reject["error"], "auth_error");
    assert_eq!(reject["worker_id"], "intruder");
    assert!(!w.s.workers.contains_key("intruder"));
    assert!(!w.holds("W", "intruder"));
}

#[test]
fn worker_connect_auth_accepts_matching_token_before_disconnect() {
    let mut w = World::new();
    w.s.connect_auth_token = Some("secret".to_string());
    let reject = w.connect(
        r#"{"op":"WorkerConnect","worker_id":"worker-ok","region":"W","auth_token":"secret"}"#,
    );
    assert!(reject.is_none());
    assert!(w.s.workers.contains_key("worker-ok"));
    assert!(w.holds("W", "worker-ok"));
}

#[test]
fn client_role_rejects_create_entity_before_dispatch_or_wal() {
    let mut w = World::new();
    w.add_peer("client-alice", "W", &["role.client", "player.alice"]);

    w.frame(
        "client-alice",
        r#"{"op":"CreateEntity","request_id":"create-client","entity":"client-spawn",
            "components":{"pos":[0.0,0.0],"vel":[0.0,0.0]}}"#,
    );

    assert!(!w.s.entities.contains_key("client-spawn"));
    assert_eq!(w.s.wal.bytes, 0);
    let reject = w.recv("client-alice").expect("client create must reject");
    assert_eq!(reject["op"], "UpdateRejected");
    assert_eq!(reject["comp"], "role_policy");
    assert_eq!(reject["rejected_op"], "CreateEntity");
    assert_eq!(reject["peer_role"], "client");
}

#[test]
fn client_role_update_component_still_requires_component_authority() {
    let mut w = World::new();
    w.add_worker("owner", "W");
    assert!(w.spawn("ship", [-1.0, 0.0], [0.0, 0.0], "{}", Some("W")));
    w.add_peer("client-alice", "W", &["role.client", "player.alice"]);

    w.frame(
        "client-alice",
        r#"{"op":"UpdateComponent","entity":"ship","comp":"pos","value":[2.0,0.0],
            "authority_epoch":0}"#,
    );

    let reject = w.recv("client-alice").expect("update without authority must reject");
    assert_eq!(reject["op"], "UpdateRejected");
    assert_eq!(reject["comp"], "pos");
    assert_ne!(reject["comp"], "role_policy");
    assert_eq!(numbers(&w.entity("ship").pos), [-1.0, 0.0]);
}

#[test]
fn mesh_role_rejects_non_mesh_lifecycle_ops_but_allows_mesh_ack() {
    let mut w = World::new();
    w.add_peer("mesh-peer", "MESH", &["role.mesh"]);

    w.frame(
        "mesh-peer",
        r#"{"op":"CreateEntity","request_id":"mesh-create","entity":"bad-mesh-spawn",
            "components":{"pos":[0.0,0.0]}}"#,
    );
    let reject = w.recv("mesh-peer").expect("mesh create must reject");
    assert_eq!(reject["op"], "UpdateRejected");
    assert_eq!(reject["comp"], "role_policy");
    assert_eq!(reject["peer_role"], "mesh");
    assert!(!w.s.entities.contains_key("bad-mesh-spawn"));

    w.frame("mesh-peer", r#"{"op":"MeshAck","entity":"not-pending"}"#);
    assert!(w.recv("mesh-peer").is_none());
}

#[test]
fn observer_role_rejects_write_ops_and_requires_inspector_for_inspector_query() {
    let mut w = World::new();
    w.add_peer("observer", "OBS", &["observer"]);

    w.frame(
        "observer",
        r#"{"op":"CreateEntity","request_id":"obs-create","entity":"observer-spawn",
            "components":{"pos":[0.0,0.0]}}"#,
    );
    let create_reject = w.recv("observer").expect("observer create must reject");
    assert_eq!(create_reject["op"], "UpdateRejected");
    assert_eq!(create_reject["comp"], "role_policy");
    assert_eq!(create_reject["peer_role"], "observer");
    assert!(!w.s.entities.contains_key("observer-spawn"));

    w.frame("observer", r#"{"op":"InspectorQuery","request_id":"inspect-denied"}"#);
    let inspector_reject = w.recv("observer").expect("plain observer must reject");
    assert_eq!(inspector_reject["op"], "UpdateRejected");
    assert_eq!(inspector_reject["comp"], "role_policy");

    w.add_attribute("observer", "inspector");
    w.frame(
        "observer",
        r#"{"op":"InspectorQuery","request_id":"inspect-ok","max_entities":0}"#,
    );
    let frame = w.recv("observer").expect("inspector query must pass");
    assert_eq!(frame["op"], "InspectorFrame");
    assert_eq!(frame["request_id"], "inspect-ok");
}

/// A budget that is never refilled.
struct Budget {
    tokens: f64,
}

impl Budget {
    fn charge(&mut self, text: &str) -> Option<Overdraft> {
        let f = j(text);
        let cost = godworks_broker::policy::ingress_op_cost(&f) as f64;
        let cost = cost.max(f.text().len() as f64 / 8192.0).max(1.0);
        if self.tokens >= cost {
            self.tokens -= cost;
            return None;
        }
        Some(Overdraft { cost: fl(cost).json(), tokens: fl(self.tokens).json() })
    }
}

#[test]
fn ingress_rate_limit_rejects_before_dispatch_or_wal() {
    let mut w = World::new();
    let mut b = Budget { tokens: 2.0 };
    w.add_worker("spam", "W");

    for text in [
        r#"{"op":"LogMessage","msg":"budget-1"}"#,
        r#"{"op":"LogMessage","msg":"budget-2"}"#,
        r#"{"op":"CreateEntity","request_id":"create-after-budget","entity":"should-not-exist",
            "components":{"pos":[-1.0,0.0],"vel":[0.0,0.0]}}"#,
    ] {
        let over = b.charge(text);
        w.frame_limited("spam", text, over);
    }

    assert!(!w.s.entities.contains_key("should-not-exist"));
    assert_eq!(w.s.workers.get("spam").unwrap().ingress_rejected, 1);
    let reject = w.recv("spam").expect("a rejection is sent");
    assert_eq!(reject["op"], "UpdateRejected");
    assert_eq!(reject["error"], "rate_limit_error");
    assert_eq!(reject["rate_limited"], true);
    assert_eq!(reject["limited_op"], "CreateEntity");
    assert_eq!(reject["request_id"], "create-after-budget");
    assert!(w.recv("spam").is_none());
}

#[test]
fn ingress_rate_limit_charges_expensive_ops_above_one_frame() {
    let mut w = World::new();
    let mut b = Budget { tokens: 3.0 };
    w.add_worker("expensive", "W");
    let text = r#"{"op":"CreateEntity","request_id":"expensive-create","entity":"must-not-create",
        "components":{"pos":[-1.0,0.0],"vel":[0.0,0.0]}}"#;

    let over = b.charge(text);
    w.frame_limited("expensive", text, over);

    assert!(!w.s.entities.contains_key("must-not-create"));
    let reject = w.recv("expensive").expect("a rejection is sent");
    assert_eq!(reject["limited_op"], "CreateEntity");
    assert!(reject["rate_limit_cost"].as_f64().unwrap() >= 4.0);
    assert_eq!(reject["request_id"], "expensive-create");
}

#[test]
fn cross_broker_adopt_not_visible_above_source_durable_gen() {
    let mut w = World::new();
    w.s.my_region = "W".to_string();
    w.s.region_lease_epoch.insert("W", 7);
    w.put("ship", test_entity([1.0, 0.0], "W"));
    let before = w.s.wal.durable_gen;
    w.s.mesh.insert("E");

    w.forward("ship", "E");

    let handoff = w.recv_mesh("E").expect("sent once it is durable");
    let source_gen = handoff["source_durable_gen"].as_u64().expect("source generation");
    assert!(source_gen > before);
    assert!(source_gen <= w.s.wal.durable_gen);
    assert!(!w.s.entities.contains_key("ship"));
    assert!(w.s.pending_mesh.contains_key("ship"));
}

#[test]
fn mesh_forward_carries_full_physics_island_authority_snapshot() {
    let mut w = World::new();
    w.s.my_region = "W".to_string();
    w.s.region_lease_epoch.insert("W", 7);
    w.add_worker("w1", "W");
    let mut ship = test_physics_island_entity([1.0, 0.0], "W");
    let old_epochs = stamp_expanded_physics_island_epochs(&mut ship);
    let expected_epoch = old_epochs.values().copied().max().unwrap() + 1;
    w.put("ship", ship);
    w.grant_island("w1", "ship");
    w.s.mesh.insert("E");

    w.forward("ship", "E");

    let handoff = w.recv_mesh("E").expect("the handoff is sent");
    assert_eq!(handoff["op"], "MeshHandoff");
    assert_eq!(handoff["authority_epoch"], expected_epoch);
    let authority = handoff["authority"].as_object().expect("a snapshot");
    for comp in expanded_physics_island_components() {
        let spec = authority.get(comp).unwrap_or_else(|| panic!("missing authority for {comp}"));
        assert!(spec["owner"].is_null());
        assert_eq!(spec["authority_epoch"], expected_epoch, "{comp}");
        assert_eq!(spec["mode"], "server_physics_island", "{comp}");
    }
    let components = handoff["components"].as_object().expect("the components");
    for comp in ["ang", "at_rest", "lin", "rot"] {
        assert!(components.contains_key(comp));
    }
}

impl World {
    fn update(
        &mut self,
        wid: &str,
        eid: &str,
        comp: &str,
        value: &str,
        epoch: Option<u64>,
    ) -> bool {
        let verdict = Verdict::silent();
        let now = self.now;
        let found = godworks_broker::update::prepare_update(
            &mut self.s,
            wid,
            eid,
            comp,
            j(value),
            epoch,
            &verdict,
            now,
        );
        match found {
            Some(u) => {
                let ev = godworks_broker::update::prepared_update_wal_event(&u);
                let written = self.append(&ev);
                godworks_broker::update::queue_prepared_update(&mut self.s, u, written)
            }
            None => false,
        }
    }

    fn owner(&self, eid: &str, comp: &str) -> Option<String> {
        component_authority_owner(self.entity(eid), comp)
    }

    fn epoch(&self, eid: &str, comp: &str) -> u64 {
        component_authority_epoch(self.entity(eid), comp)
    }

    fn cached_epoch(&self, wid: &str, eid: &str, comp: &str) -> Option<u64> {
        let key = authority_key(eid, comp);
        self.s.workers.get(wid).unwrap().authority_epochs.get(&key).copied()
    }

    fn rejected_because(&self, reason: &str) -> bool {
        self.s.rejected.iter().any(|r| val(r)["reason"] == reason)
    }

    fn check_leases(&mut self) {
        let regions = self.s.region_worker.keys();
        self.run(Task::Leases { regions, next: 0 });
    }

    fn compact(&mut self) {
        if !may_compact_wal(&self.s) {
            return;
        }
        let mut text = String::new();
        for line in rewritten_log(&self.s) {
            text.push_str(&line);
            text.push('\n');
        }
        let bytes = text.len() as u64;
        self.log = text;
        note_compaction(&mut self.s, Compaction::Placed { bytes, reopened: true });
    }
}

fn arrival(target: &str, pos: &str) -> String {
    format!(
        "{{\"op\":\"MeshHandoff\",\"entity\":\"ship\",\"source_region\":\"W\",\
         \"target\":\"{target}\",\"source_durable_gen\":7,\"lease_epoch\":1,\
         \"authority_epoch\":9,\"pos\":{pos},\"vel\":[0.0,0.0],\
         \"components\":{{\"pos\":{pos},\"vel\":[0.0,0.0]}}}}"
    )
}

#[test]
fn mesh_adopt_persists_committed_region_for_strip_target() {
    let mut w = World::new();
    w.s.wal.attached = true;
    w.add_worker("east-worker", "E");

    w.inner("mesh-link", &arrival("E", "[-5.0,0.0]"));

    assert_eq!(w.entity("ship").region, "E");
    let r = w.recover(None);
    assert!(r.report.error.is_none());
    assert_eq!(r.store.entities.get("ship").unwrap().region, "E");
}

#[test]
fn mesh_adopt_commits_grid_cell_before_advertised_strip_region() {
    let mut w = World::new();
    w.s.grid2d = grid(4, 4, 30.0, 30.0);
    w.s.my_region = "E".to_string();
    w.s.wal.attached = true;
    w.add_worker("cell-worker", "Z2_3");

    w.inner("mesh-link", &arrival("Z2_3", "[75.0,105.0]"));

    assert_eq!(w.entity("ship").region, "Z2_3");
    assert!(w.holds(&w.entity("ship").region, "cell-worker"));
    let r = w.recover(None);
    assert!(r.report.error.is_none());
    assert_eq!(r.store.entities.get("ship").unwrap().region, "Z2_3");
}

#[test]
fn mesh_adopt_grid_target_overrides_geometric_cell() {
    let mut w = World::new();
    w.s.grid2d = grid(4, 4, 30.0, 30.0);
    w.s.wal.attached = true;
    w.add_worker("cell-worker", "Z2_3");

    w.inner("mesh-link", &arrival("Z2_3", "[15.0,15.0]"));

    assert_eq!(w.cell_after([15.0, 15.0], ""), "Z0_0");
    assert_eq!(w.entity("ship").region, "Z2_3");
    assert!(w.holds(&w.entity("ship").region, "cell-worker"));
    let r = w.recover(None);
    assert!(r.report.error.is_none());
    assert_eq!(r.store.entities.get("ship").unwrap().region, "Z2_3");
}

#[test]
fn mesh_adopt_grid_target_must_be_receiver_owned() {
    let mut w = World::new();
    w.s.grid2d = grid(4, 4, 30.0, 30.0);
    w.add_worker("cell-worker", "Z2_3");
    w.add_worker("mesh-link", "MESH");

    w.inner("mesh-link", &arrival("Z3_3", "[75.0,105.0]"));

    assert!(!w.s.entities.contains_key("ship"));
    assert!(w.recv("mesh-link").is_none());
    assert!(w.s.rejected.iter().any(|r| {
        let r = val(r);
        r["reason"] == "mesh handoff target region not owned" && r["target"] == "Z3_3"
    }));
}

fn epochs_at(mut e: Entity, epoch: u64) -> Entity {
    set_component_authority_epoch(&mut e, "pos", epoch);
    set_component_authority_epoch(&mut e, "vel", epoch);
    e
}

#[test]
fn mesh_handoff_existing_entity_exact_duplicate_is_reacked() {
    let mut w = World::new();
    w.add_worker("east-worker", "E");
    w.add_worker("mesh-link", "MESH");
    w.put("ship", epochs_at(test_entity([5.0, 0.0], "E"), 9));

    w.inner("mesh-link", &arrival("E", "[-5.0,0.0]"));

    let ack = w.recv("mesh-link").expect("an exact duplicate is confirmed again");
    assert_eq!(ack["op"], "MeshAck");
    assert_eq!(ack["entity"], "ship");
    assert!(w.s.rejected.is_empty());
}

#[test]
fn mesh_handoff_existing_entity_mismatch_must_not_ack_as_idempotent() {
    let mut w = World::new();
    w.add_worker("east-worker", "E");
    w.add_worker("mesh-link", "MESH");
    w.put("ship", epochs_at(test_entity([5.0, 0.0], "E"), 3));

    w.inner("mesh-link", &arrival("E", "[-5.0,0.0]"));

    assert!(w.recv("mesh-link").is_none());
    assert!(w.rejected_because("mesh handoff existing-entity mismatch"));
    assert_eq!(w.epoch("ship", "pos"), 3);
}

#[test]
fn mesh_handoff_old_upstream_resend_after_onward_forward_is_reacked_without_readopt() {
    let mut w = World::with_log();
    w.add_worker("east-worker", "E");
    w.add_worker("mesh-link-W", "MESH");
    let upstream = r#"{"op":"MeshHandoff","entity":"ship","source_region":"W","target":"E",
        "source_durable_gen":7,"lease_epoch":1,"authority_epoch":9,"pos":[5.0,0.0],
        "vel":[1.0,0.0],"components":{"pos":[5.0,0.0],"vel":[1.0,0.0]}}"#;

    w.s.mesh_ack_drop = true;
    w.inner("mesh-link-W", upstream);
    assert!(w.recv("mesh-link-W").is_none());
    assert!(w.s.entities.contains_key("ship"));

    w.s.mesh_ack_drop = false;
    w.s.mesh.insert("F");
    w.forward("ship", "F");
    let onward = w.recv_mesh("F").expect("the onward handoff is sent");
    assert_eq!(onward["op"], "MeshHandoff");
    let forwarded_epoch = *w.s.mesh_forwarded_epoch.get("ship").expect("a fence");
    assert!(forwarded_epoch > 9);
    assert!(w.ack("ship"));
    assert!(!w.s.entities.contains_key("ship"));
    assert!(!w.s.pending_mesh.contains_key("ship"));
    w.s.wal.snapshot_seen = false;
    w.s.wal.compact_bytes = 1;
    w.s.wal.bytes = w.s.wal.bytes.max(4096);
    w.compact();
    assert_eq!(w.s.metrics.wal_compactions, 1);

    let r = w.recover(None);
    assert!(r.report.error.is_none());
    assert!(r.store.recovered_pending.is_empty());
    assert_eq!(r.store.mesh_forwarded_epoch.get("ship").copied(), Some(forwarded_epoch));

    let mut back = World::new();
    back.s.mesh_forwarded_epoch = r.store.mesh_forwarded_epoch;
    back.add_worker("east-worker", "E");
    back.add_worker("mesh-link-W", "MESH");

    back.inner("mesh-link-W", upstream);

    let ack = back.recv("mesh-link-W").expect("the old resend is confirmed");
    assert_eq!(ack["op"], "MeshAck");
    assert_eq!(ack["entity"], "ship");
    assert!(!back.s.entities.contains_key("ship"));
    assert!(back.rejected_because("mesh handoff stale after onward forward"));
}

#[test]
fn update_component_wal_fail_does_not_advance_ram() {
    let mut w = World::new();
    w.s.wal.fail_inject = true;
    w.s.wal.degraded = false;
    w.add_worker("w1", "W");
    w.put("avatar", test_entity([-1.0, 2.0], "W"));

    let ok = w.update("w1", "avatar", "pos", "[-3.0,100.0]", None);

    assert!(!ok);
    assert_eq!(numbers(&w.entity("avatar").pos), [-1.0, 2.0]);
    assert_eq!(w.entity("avatar").version, 1);
    assert!(w.s.wal.degraded);
}

#[test]
fn batch_update_wal_fail_does_not_advance_ram() {
    let mut w = World::new();
    w.s.wal.fail_inject = true;
    w.s.wal.degraded = false;
    w.add_worker("w1", "W");
    w.put("a", test_entity([-1.0, 0.0], "W"));
    w.put("b", test_entity([-2.0, 0.0], "W"));

    w.frame(
        "w1",
        r#"{"op":"BatchUpdate","comp":"pos","updates":[["a",[10.0,0.0]],["b",[11.0,0.0]]]}"#,
    );

    assert_eq!(numbers(&w.entity("a").pos), [-1.0, 0.0]);
    assert_eq!(numbers(&w.entity("b").pos), [-2.0, 0.0]);
    assert_eq!(w.entity("a").version, 1);
    assert_eq!(w.entity("b").version, 1);
    assert!(w.s.wal.degraded);
}

#[test]
fn update_component_waits_for_durable_watermark_flush() {
    let mut w = World::new();
    w.add_worker("w1", "W");
    w.put("avatar", test_entity([-1.0, 2.0], "W"));

    assert!(w.update("w1", "avatar", "pos", "[-3.0,100.0]", None));
    assert_eq!(w.s.pending_updates.len(), 1);
    assert_eq!(w.s.wal.pending_gen, 1);
    assert_eq!(w.s.wal.durable_gen, 0);
    assert_eq!(numbers(&w.entity("avatar").pos), [-1.0, 2.0]);
    assert_eq!(w.entity("avatar").version, 1);

    w.flush();

    assert!(w.s.pending_updates.is_empty());
    assert_eq!(w.s.wal.durable_gen, 1);
    assert_eq!(numbers(&w.entity("avatar").pos), [-3.0, 100.0]);
    assert_eq!(w.entity("avatar").version, 2);
}

#[test]
fn single_updates_group_until_one_watermark_flush() {
    let mut w = World::new();
    w.add_worker("w1", "W");
    w.put("avatar", test_entity([-1.0, 2.0], "W"));

    assert!(w.update("w1", "avatar", "pos", "[-3.0,20.0]", None));
    assert!(w.update("w1", "avatar", "pos", "[-4.0,40.0]", None));
    assert_eq!(w.s.pending_updates.len(), 2);
    assert_eq!(w.s.wal.pending_gen, 2);
    assert_eq!(w.s.wal.durable_gen, 0);
    assert_eq!(numbers(&w.entity("avatar").pos), [-1.0, 2.0]);

    w.flush();

    assert_eq!(numbers(&w.entity("avatar").pos), [-4.0, 40.0]);
    assert_eq!(w.entity("avatar").version, 3);
    assert_eq!(w.s.wal.durable_gen, 2);
}

#[test]
fn watermark_sync_fail_does_not_advance_ram() {
    let mut w = World::new();
    w.add_worker("w1", "W");
    w.put("avatar", test_entity([-1.0, 2.0], "W"));

    assert!(w.update("w1", "avatar", "pos", "[-3.0,100.0]", None));
    w.s.wal.fail_inject = true;
    w.flush();

    assert!(w.s.pending_updates.is_empty());
    assert_eq!(w.s.wal.durable_gen, 0);
    assert_eq!(numbers(&w.entity("avatar").pos), [-1.0, 2.0]);
    assert_eq!(w.entity("avatar").version, 1);
    assert!(w.s.wal.degraded);
}

#[test]
fn delete_entity_wal_fail_does_not_tombstone_or_remove() {
    let mut w = World::new();
    w.s.wal.fail_inject = true;
    w.s.wal.degraded = false;
    w.add_worker("w1", "W");
    w.put("victim", test_entity([-1.0, 0.0], "W"));

    w.frame("w1", r#"{"op":"DeleteEntity","entity":"victim"}"#);

    assert!(w.s.entities.contains_key("victim"));
    assert!(!w.s.deleted_entities.contains("victim"));
    assert!(w.s.wal.degraded);
}

fn handoff_world() -> World {
    let mut w = World::new();
    w.add_worker("w1", "W");
    w.add_worker("w2", "E");
    w.put("ship", test_entity([-1.0, 0.0], "W"));
    w.grant_island("w1", "ship");
    w
}

#[test]
fn handoff_atomic_under_watermark() {
    let mut w = handoff_world();
    assert!(w.handoff("ship", "W", "E", Some([2.0, 0.0])));

    assert_eq!(w.s.pending_handoffs.len(), 1);
    assert_eq!(w.s.wal.durable_gen, 0);
    assert_eq!(w.entity("ship").region, "W");
    assert_eq!(numbers(&w.entity("ship").pos), [-1.0, 0.0]);
    assert_eq!(w.owner("ship", "pos"), Some("w1".to_string()));

    w.flush_handoffs();

    assert!(w.s.pending_handoffs.is_empty());
    assert_eq!(w.s.wal.durable_gen, 1);
    assert_eq!(w.entity("ship").region, "E");
    assert_eq!(numbers(&w.entity("ship").pos), [2.0, 0.0]);
    assert_eq!(w.owner("ship", "pos"), Some("w2".to_string()));
    assert!(w.cached_epoch("w1", "ship", "pos").is_none());
    assert!(w.cached_epoch("w2", "ship", "pos").is_some());
}

#[test]
fn physics_island_handoff_fences_all_components() {
    let mut w = World::new();
    w.add_worker("w1", "W");
    w.add_worker("w2", "E");
    let mut ship = test_physics_island_entity([-1.0, 0.0], "W");
    let old_epochs = stamp_expanded_physics_island_epochs(&mut ship);
    let expected_epoch = old_epochs.values().copied().max().unwrap() + 1;
    w.put("ship", ship);
    w.grant_island("w1", "ship");

    for comp in expanded_physics_island_components() {
        assert_eq!(w.owner("ship", comp), Some("w1".to_string()), "{comp}");
        assert_eq!(w.cached_epoch("w1", "ship", comp), Some(old_epochs[comp]), "{comp}");
    }

    assert!(w.handoff("ship", "W", "E", Some([2.0, 0.0])));

    assert_eq!(w.s.pending_handoffs.len(), 1);
    assert_eq!(w.s.pending_handoffs[0].moved_comps, expanded_physics_island_components());
    assert_eq!(w.s.pending_handoffs[0].authority_epoch, expected_epoch);
    let pending = val(&w.s.pending_handoffs[0].authority);
    for comp in expanded_physics_island_components() {
        assert_eq!(pending[comp]["owner"], "w2", "{comp}");
        assert_eq!(pending[comp]["authority_epoch"], expected_epoch, "{comp}");
    }

    w.flush_handoffs();

    for comp in expanded_physics_island_components() {
        assert_eq!(w.owner("ship", comp), Some("w2".to_string()), "{comp}");
        assert_eq!(w.epoch("ship", comp), expected_epoch, "{comp}");
        assert!(w.cached_epoch("w1", "ship", comp).is_none(), "{comp}");
        assert_eq!(w.cached_epoch("w2", "ship", comp), Some(expected_epoch), "{comp}");
        let value = physics_island_update_value(comp);
        assert!(!w.update("w1", "ship", comp, value, Some(old_epochs[comp])), "{comp}");
        assert!(w.update("w2", "ship", comp, value, Some(expected_epoch)), "{comp}");
    }
    w.flush();

    let ship = w.entity("ship");
    assert_eq!(numbers(&ship.pos), [3.0, 0.0]);
    assert_eq!(numbers(&ship.vel), [0.0, 2.0]);
    assert_eq!(val(ship.components.get("rot").unwrap()), v("0.5"));
    assert_eq!(val(ship.components.get("lin").unwrap()), v("[2.0,0.0]"));
    assert_eq!(val(ship.components.get("ang").unwrap()), v("0.75"));
    assert_eq!(val(ship.components.get("at_rest").unwrap()), v("true"));
}

#[test]
fn physics_handoff_preserves_gameplay_authority() {
    let mut w = World::new();
    w.add_worker("w1", "W");
    w.add_worker("w2", "E");
    w.add_worker("gameplay", "GAME");
    let mut ship = test_physics_island_entity([-1.0, 0.0], "W");
    ship.components.insert("inventory", j(r#"{"iron":3,"atlas_shards":1}"#));
    ship.components.insert("health", j(r#"{"hp":100}"#));
    godworks_broker::entity::ensure_component_authority(&mut ship, "inventory");
    godworks_broker::entity::ensure_component_authority(&mut ship, "health");
    set_component_authority_epoch(&mut ship, "inventory", 29);
    set_component_authority_epoch(&mut ship, "health", 31);
    w.put("ship", ship);
    w.grant_island("w1", "ship");
    grant_authority(&mut w.s, "gameplay", "ship", "inventory");
    grant_authority(&mut w.s, "gameplay", "ship", "health");
    let inventory_epoch = w.epoch("ship", "inventory");
    let health_epoch = w.epoch("ship", "health");
    let mut old_physics_epochs = HashMap::new();
    w.edit_entity("ship", |e| old_physics_epochs = stamp_expanded_physics_island_epochs(e));
    w.grant_island("w1", "ship");

    assert_eq!(inventory_epoch, 29);
    assert_eq!(health_epoch, 31);
    assert_eq!(w.owner("ship", "inventory"), Some("gameplay".to_string()));
    assert_eq!(w.owner("ship", "health"), Some("gameplay".to_string()));
    assert_eq!(w.cached_epoch("gameplay", "ship", "inventory"), Some(inventory_epoch));
    assert_eq!(w.cached_epoch("gameplay", "ship", "health"), Some(health_epoch));

    assert!(w.handoff("ship", "W", "E", Some([2.0, 0.0])));

    assert_eq!(w.s.pending_handoffs.len(), 1);
    assert!(!w.s.pending_handoffs[0].moved_comps.contains(&"inventory".to_string()));
    assert!(!w.s.pending_handoffs[0].moved_comps.contains(&"health".to_string()));
    let pending = val(&w.s.pending_handoffs[0].authority);
    assert_eq!(pending["inventory"]["owner"], "gameplay");
    assert_eq!(pending["inventory"]["authority_epoch"], inventory_epoch);
    assert_eq!(pending["inventory"]["mode"], "server_arbitrated");
    assert_eq!(pending["health"]["owner"], "gameplay");
    assert_eq!(pending["health"]["authority_epoch"], health_epoch);
    assert_eq!(pending["health"]["mode"], "server_arbitrated");

    w.flush_handoffs();

    for comp in expanded_physics_island_components() {
        assert_eq!(w.owner("ship", comp), Some("w2".to_string()), "{comp}");
        assert!(w.cached_epoch("w1", "ship", comp).is_none(), "{comp}");
        assert!(w.cached_epoch("w2", "ship", comp).is_some(), "{comp}");
    }
    for (comp, epoch) in [("inventory", inventory_epoch), ("health", health_epoch)] {
        assert_eq!(w.owner("ship", comp), Some("gameplay".to_string()));
        assert_eq!(w.epoch("ship", comp), epoch);
        assert_eq!(
            godworks_broker::entity::component_authority_mode(w.entity("ship"), comp),
            AuthorityMode::ServerArbitrated
        );
        assert!(w.cached_epoch("gameplay", "ship", comp).is_some());
        assert!(w.cached_epoch("w2", "ship", comp).is_none());
    }
    assert!(!w.update("w1", "ship", "pos", "[4.0,0.0]", Some(old_physics_epochs["pos"])));
    assert!(!w.update("w2", "ship", "health", r#"{"hp":1}"#, Some(health_epoch)));
    assert!(w.update(
        "gameplay",
        "ship",
        "inventory",
        r#"{"iron":4,"atlas_shards":1}"#,
        Some(inventory_epoch)
    ));
    assert!(w.update("gameplay", "ship", "health", r#"{"hp":90}"#, Some(health_epoch)));
    w.flush();
    let ship = w.entity("ship");
    assert_eq!(
        val(ship.components.get("inventory").unwrap()),
        v(r#"{"iron":4,"atlas_shards":1}"#)
    );
    assert_eq!(val(ship.components.get("health").unwrap()), v(r#"{"hp":90}"#));
}

#[test]
fn handoff_sync_fail_keeps_old_owner_and_pending_retry() {
    let mut w = handoff_world();
    assert!(w.handoff("ship", "W", "E", Some([2.0, 0.0])));
    w.s.wal.fail_inject = true;
    w.flush_handoffs();

    assert_eq!(w.s.pending_handoffs.len(), 1);
    assert_eq!(w.s.wal.durable_gen, 0);
    assert_eq!(w.entity("ship").region, "W");
    assert_eq!(numbers(&w.entity("ship").pos), [-1.0, 0.0]);
    assert_eq!(w.owner("ship", "pos"), Some("w1".to_string()));
    assert!(w.s.wal.degraded);

    w.s.wal.fail_inject = false;
    w.s.wal.degraded = false;
    w.flush_handoffs();

    assert!(w.s.pending_handoffs.is_empty());
    assert_eq!(w.entity("ship").region, "E");
    assert_eq!(numbers(&w.entity("ship").pos), [2.0, 0.0]);
    assert_eq!(w.owner("ship", "pos"), Some("w2".to_string()));
}

#[test]
fn delete_tombstone_cancels_pending_local_handoff() {
    let mut w = handoff_world();
    assert!(w.handoff("ship", "W", "E", Some([2.0, 0.0])));
    assert_eq!(w.s.pending_handoffs.len(), 1);

    w.inner("w1", r#"{"op":"DeleteEntity","entity":"ship"}"#);

    assert!(w.s.deleted_entities.contains("ship"));
    assert!(!w.s.entities.contains_key("ship"));
    assert!(w.s.pending_handoffs.is_empty());

    w.flush_handoffs();

    assert_eq!(w.s.metrics.handoffs, 0);
    assert!(w.recv("w2").is_none());
}

#[test]
fn delete_tombstone_dominates_queued_handoff_after_recovery() {
    let mut w = World::new();
    w.s.wal.attached = true;
    w.add_worker("w1", "W");
    w.add_worker("w2", "E");
    assert!(w.spawn("ship", [-1.0, 0.0], [1.0, 0.0], "{}", Some("W")));
    w.grant_island("w1", "ship");

    assert!(w.handoff("ship", "W", "E", Some([2.0, 0.0])));
    assert_eq!(w.s.pending_handoffs.len(), 1);

    w.inner("w1", r#"{"op":"DeleteEntity","entity":"ship"}"#);
    assert!(w.s.deleted_entities.contains("ship"));
    assert!(!w.s.entities.contains_key("ship"));
    assert!(w.s.pending_handoffs.is_empty());

    let lines = w.log_lines();
    let read = godworks_broker::wal::read_wal_events(Some(&lines), None);
    assert!(read.report.error.is_none());
    let at = |kind: &str| read.events.iter().position(|ev| val(ev)["kind"] == kind);
    let transfer_idx = at("transfer").expect("the queued handoff is in the log");
    let delete_idx = at("delete_tombstone").expect("the deletion is in the log");
    assert!(transfer_idx < delete_idx);

    let r = w.recover(None);
    assert!(r.report.error.is_none());
    assert!(r.store.tombstones.contains("ship"));
    assert!(!r.store.entities.contains_key("ship"));
    assert!(!r.store.recovered_pending.contains_key("ship"));
    assert!(!r.store.mesh_forwarded_epoch.contains_key("ship"));
}

#[test]
fn prepared_handoff_missing_entity_records_rejection() {
    let mut w = handoff_world();
    assert!(w.handoff("ship", "W", "E", Some([2.0, 0.0])));
    w.s.entities.remove("ship");
    w.s.deleted_entities.insert("ship");

    w.flush_handoffs();

    assert!(w.s.pending_handoffs.is_empty());
    assert_eq!(w.s.metrics.handoffs, 0);
    assert!(w.s.rejected.iter().any(|r| {
        let r = val(r);
        r["reason"] == "prepared handoff target entity missing or deleted before durable apply"
            && r["entity"] == "ship"
    }));
}

#[test]
fn stale_old_owner_write_rejected_by_epoch_after_recovered_handoff() {
    let mut w = World::new();
    w.s.wal.attached = true;
    w.add_worker("w1", "W");
    w.add_worker("w2", "E");
    assert!(w.spawn("ship", [-1.0, 0.0], [1.0, 0.0], "{}", Some("W")));
    w.grant_island("w1", "ship");
    let old_epoch = w.epoch("ship", "pos");

    assert!(w.handoff("ship", "W", "E", Some([2.0, 0.0])));
    w.flush_handoffs();
    let new_epoch = w.epoch("ship", "pos");
    assert!(new_epoch > old_epoch);

    let r = w.recover(None);
    assert!(r.report.error.is_none());
    let mut back = World::new();
    back.s.entities = r.store.entities;
    back.add_worker("w1", "W");
    back.add_worker("w2", "E");

    assert!(!back.update("w1", "ship", "pos", "[9.0,0.0]", Some(old_epoch)));
    assert_eq!(numbers(&back.entity("ship").pos), [2.0, 0.0]);
    assert!(back.update("w2", "ship", "pos", "[3.0,0.0]", Some(new_epoch)));
    back.flush();
    assert_eq!(numbers(&back.entity("ship").pos), [3.0, 0.0]);
}

#[test]
fn failover_grant_only_bumps_epoch_and_old_owner_rejected_on_reconnect() {
    let mut w = World::new();
    w.s.wal.attached = true;
    w.add_worker("w1", "W");
    w.add_worker("w2", "SPARE");
    w.s.standbys.push("w2".to_string());
    assert!(w.spawn("ship", [-1.0, 0.0], [1.0, 0.0], "{}", Some("W")));
    w.grant_island("w1", "ship");
    let old_epoch = w.epoch("ship", "pos");
    w.s.region_expires.insert("W", w.now - 1);

    w.check_leases();

    assert_eq!(w.s.pending_failovers.len(), 1);
    assert!(w.holds("W", "w1"));
    assert_eq!(w.owner("ship", "pos"), Some("w1".to_string()));
    assert_eq!(w.s.metrics.failovers, 0);

    w.run(Task::SyncFailovers);

    assert!(w.s.pending_failovers.is_empty());
    assert!(w.holds("W", "w2"));
    assert_eq!(w.s.workers.get("w2").unwrap().region, "W");
    assert_eq!(w.s.metrics.failovers, 1);
    let new_epoch = w.epoch("ship", "pos");
    assert!(new_epoch > old_epoch);
    assert_eq!(w.owner("ship", "pos"), Some("w2".to_string()));

    let r = w.recover(None);
    assert!(r.report.error.is_none());
    let ship = r.store.entities.get("ship").unwrap();
    assert_eq!(component_authority_epoch(ship, "pos"), new_epoch);
    assert_eq!(component_authority_owner(ship, "pos"), Some("w2".to_string()));

    let mut back = World::new();
    back.s.entities = r.store.entities;
    back.add_worker("w1", "W");
    back.add_worker("w2", "SPARE");
    assert!(!back.update("w1", "ship", "pos", "[9.0,0.0]", Some(old_epoch)));
    assert_eq!(numbers(&back.entity("ship").pos), [-1.0, 0.0]);
    assert!(back.update("w2", "ship", "pos", "[3.0,0.0]", Some(new_epoch)));
    back.flush();
    assert_eq!(numbers(&back.entity("ship").pos), [3.0, 0.0]);
}

#[test]
fn rebalance_2d_block_migration_atomic_all_or_nothing() {
    let in_block = |w: &World, block: &str| -> Vec<String> {
        w.s.entities.keys().into_iter().filter(|k| w.entity(k).region == block).collect()
    };
    let mut failed = World::new();
    seed_2d_rebalance_state(&mut failed);
    failed.run(Task::Rebalance2d);
    assert_eq!(failed.s.pending_block_migrations.len(), 1);
    let fail_block = failed.s.pending_block_migrations[0].block.clone();
    let fail_eids = in_block(&failed, &fail_block);
    assert_eq!(fail_eids.len(), 4);
    failed.s.wal.fail_inject = true;
    failed.run(Task::SyncMigrations);

    assert!(failed.s.pending_block_migrations.is_empty());
    assert_eq!(failed.s.wal.durable_gen, 0);
    assert!(failed.holds(&fail_block, "hot"));
    for eid in &fail_eids {
        assert_eq!(failed.owner(eid, "pos"), Some("hot".to_string()));
    }
    assert!(failed.s.wal.degraded);

    let mut w = World::new();
    w.s.wal.attached = true;
    seed_2d_rebalance_state(&mut w);
    w.run(Task::Rebalance2d);

    assert_eq!(w.s.pending_block_migrations.len(), 1);
    assert_eq!(w.s.wal.durable_gen, 0);
    let block = w.s.pending_block_migrations[0].block.clone();
    let block_eids = in_block(&w, &block);
    assert_eq!(block_eids.len(), 4);
    assert!(w.holds(&block, "hot"));
    let old_epochs: HashMap<String, u64> =
        block_eids.iter().map(|eid| (eid.clone(), w.epoch(eid, "pos"))).collect();
    for eid in &block_eids {
        assert_eq!(w.owner(eid, "pos"), Some("hot".to_string()));
    }

    w.run(Task::SyncMigrations);

    assert!(w.s.pending_block_migrations.is_empty());
    assert_eq!(w.s.wal.durable_gen, 1);
    assert!(w.holds(&block, "cold"));
    assert_eq!(w.s.workers.get("cold").unwrap().region, block);
    let mut new_epochs = HashMap::new();
    for eid in &block_eids {
        let epoch = w.epoch(eid, "pos");
        assert!(epoch > old_epochs[eid]);
        assert_eq!(w.owner(eid, "pos"), Some("cold".to_string()));
        assert!(w.cached_epoch("hot", eid, "pos").is_none());
        assert!(w.cached_epoch("cold", eid, "pos").is_some());
        new_epochs.insert(eid.clone(), epoch);
    }

    let r = w.recover(None);
    assert!(r.report.error.is_none());
    for eid in &block_eids {
        let e = r.store.entities.get(eid).unwrap();
        assert_eq!(e.region, block);
        assert_eq!(component_authority_epoch(e, "pos"), new_epochs[eid]);
        assert_eq!(component_authority_owner(e, "pos"), Some("cold".to_string()));
    }
}

#[test]
fn reserve_entity_ids_persists_high_watermark_before_response() {
    let mut w = World::new();
    w.s.wal.attached = true;
    w.add_worker("w1", "W");
    w.frame("w1", r#"{"op":"ReserveEntityIds","request_id":"r1","count":7}"#);
    assert_eq!(w.s.entity_id_reservations, 7);

    let r = w.recover(None);
    assert!(r.report.error.is_none());
    assert_eq!(r.store.recovered_id_hwm, 7);

    let mut failed = World::new();
    failed.s.wal.fail_inject = true;
    failed.s.wal.degraded = false;
    failed.add_worker("w1", "W");
    failed.frame("w1", r#"{"op":"ReserveEntityIds","request_id":"r1","count":7}"#);
    assert_eq!(failed.s.entity_id_reservations, 0);
    assert!(failed.s.wal.degraded);
}

#[test]
fn persistent_gate_rejects_reserve_ids_when_wal_already_degraded() {
    let mut w = World::new();
    w.s.wal.degraded = true;
    w.add_worker("w1", "W");

    w.frame("w1", r#"{"op":"ReserveEntityIds","request_id":"r1","count":7}"#);

    assert_eq!(w.s.entity_id_reservations, 0);
    let rejected = w.recv("w1").expect("it must fail closed");
    assert_eq!(rejected["op"], "UpdateRejected");
    assert_eq!(rejected["request_id"], "r1");
    assert!(rejected["reason"].as_str().unwrap().contains("WAL-degraded"));
}

fn add_snapshotter(w: &mut World) {
    w.add_worker("snap", "OBS");
    w.add_attribute("snap", "snapshot");
}

fn snapshot(w: &mut World, id: &str) -> Value {
    let text =
        format!("{{\"op\":\"SnapshotMarker\",\"request_id\":\"s1\",\"snapshot_id\":\"{id}\"}}");
    w.frame("snap", &text);
    let manifest = w.recv("snap").expect("snapshot manifest must emit");
    assert_eq!(manifest["op"], "SnapshotManifest");
    manifest
}

#[test]
fn snapshot_marker_wal_fail_does_not_disable_compaction_or_emit_cut() {
    let mut w = World::new();
    w.s.wal.fail_inject = true;
    w.s.wal.degraded = false;
    add_snapshotter(&mut w);

    w.frame("snap", r#"{"op":"SnapshotMarker","request_id":"s1","snapshot_id":"cut-1"}"#);

    assert!(!w.s.wal.snapshot_seen);
    assert!(w.s.wal.degraded);
}

#[test]
fn snapshot_marker_restore_offset_rolls_back_post_cut_entities() {
    let mut w = World::with_log();
    assert!(w.spawn("pre-cut", [-1.0, 0.0], [0.0, 0.0], "{}", Some("W")));
    add_snapshotter(&mut w);
    let manifest = snapshot(&mut w, "cut-1");
    assert_eq!(manifest["snapshot_id"], "cut-1");
    let cut_offset = manifest["wal_offset"].as_u64().expect("an offset");
    assert!(w.spawn("post-cut", [1.0, 0.0], [0.0, 0.0], "{}", Some("E")));

    let cut = w.recover(Some(cut_offset));
    assert!(cut.report.error.is_none());
    assert_eq!(cut.report.kind_counts.get("snapshot_marker").copied(), Some(1));
    assert!(cut.store.entities.contains_key("pre-cut"));
    assert!(!cut.store.entities.contains_key("post-cut"));
    assert!(cut.store.recovered_pending.is_empty());

    let full = w.recover(None);
    assert!(full.report.error.is_none());
    assert!(full.store.entities.contains_key("pre-cut"));
    assert!(full.store.entities.contains_key("post-cut"));
}

#[test]
fn snapshot_marker_flushes_pending_update_before_cut() {
    let mut w = World::with_log();
    w.add_worker("w1", "W");
    assert!(w.spawn("snapshot-ship", [-1.0, 0.0], [0.0, 0.0], "{}", Some("W")));
    assert!(w.update("w1", "snapshot-ship", "pos", "[4.0,0.0]", None));
    assert_eq!(w.s.pending_updates.len(), 1);
    assert_eq!(numbers(&w.entity("snapshot-ship").pos), [-1.0, 0.0]);

    add_snapshotter(&mut w);
    let manifest = snapshot(&mut w, "flush-cut");
    let cut_offset = manifest["wal_offset"].as_u64().expect("an offset");
    assert!(w.s.pending_updates.is_empty());
    assert_eq!(numbers(&w.entity("snapshot-ship").pos), [4.0, 0.0]);

    let cut = w.recover(Some(cut_offset));
    assert!(cut.report.error.is_none());
    let e = cut.store.entities.get("snapshot-ship").expect("recovered");
    assert_eq!(numbers(&e.pos), [4.0, 0.0]);
    assert!(cut.store.recovered_pending.is_empty());
}

#[test]
fn snapshot_manifest_carries_spatial_schema_contract() {
    let mut w = World::new();
    w.s.grid2d = grid(3, 2, 10.0, 20.0);
    w.s.zone_topology_rev = 7;
    w.attach();
    add_snapshotter(&mut w);

    let manifest = snapshot(&mut w, "cut-1");

    assert_eq!(manifest["snapshot_id"], "cut-1");
    assert_eq!(manifest["snapshot_manifest_version"], 1);
    assert_eq!(manifest["snapshot_schema_version"], 1);
    assert_eq!(manifest["spatial_schema_version"], 1);
    assert_eq!(manifest["coordinate_codec_version"], 1);
    assert_eq!(manifest["component_registry_version"], REGISTRY_VERSION);
    assert_eq!(manifest["partition_map_version"], 7);
    assert_eq!(manifest["spatial_schema"]["spatial_dim"], "D2");
    assert_eq!(manifest["spatial_schema"]["coordinate_codec"], "debug_f64_2");
    assert_eq!(
        manifest["spatial_schema"]["partition_schema"],
        v(r#"{"kind":"grid2d","cols":3,"rows":2}"#)
    );
    assert_eq!(
        manifest["partition_map"],
        v(r#"{"version":7,"kind":"grid2d","cols":3,"rows":2,"cell_w":10.0,"cell_h":20.0,
              "origin":[0.0,0.0]}"#)
    );
}

#[test]
fn snapshot_manifest_carries_strip_partition_map_contract() {
    let mut w = World::new();
    w.s.boundary = fl(0.0);
    w.s.boundaries = cuts(&[-10.0, 0.0, 10.0]);
    w.s.splits.insert("Z1", Splits(vec![fl(3.0), fl(6.0)]));
    w.s.zone_topology_rev = 42;
    add_snapshotter(&mut w);

    let manifest = snapshot(&mut w, "strip-cut");

    assert_eq!(manifest["partition_map_version"], 42);
    assert_eq!(
        manifest["partition_map"],
        v(r#"{"version":42,"kind":"strip1d","boundaries":[-10.0,0.0,10.0],
              "splits":[{"region":"Z1","boundaries":[3.0,6.0]}]}"#)
    );
}

#[test]
fn snapshot_manifest_authority_hash_matches_pos_owner_epoch_cut() {
    let mut w = World::with_log();
    w.add_worker("w1", "W");
    w.add_worker("w2", "E");
    assert!(w.spawn("zeta", [-1.0, 0.0], [0.0, 0.0], "{}", Some("W")));
    assert!(w.spawn("alpha", [1.0, 0.0], [0.0, 0.0], "{}", Some("E")));
    w.edit_entity("zeta", |e| set_component_authority_epoch(e, "pos", 11));
    w.edit_entity("alpha", |e| set_component_authority_epoch(e, "pos", 4));
    grant_authority(&mut w.s, "w1", "zeta", "pos");
    grant_authority(&mut w.s, "w2", "alpha", "pos");

    let mut h: u64 = 0xcbf29ce484222325;
    for eid in ["alpha", "zeta"] {
        for b in eid.bytes() {
            h = (h ^ b as u64).wrapping_mul(0x100000001b3);
        }
        let ca = w.entity(eid).authority.get("pos").unwrap();
        h = h.wrapping_add(ca.epoch);
        for b in ca.owner.as_ref().unwrap().bytes() {
            h = (h ^ b as u64).wrapping_mul(0x100000001b3);
        }
    }
    assert_eq!(snapshot_authority_hash(&w.s.entities), h);

    add_snapshotter(&mut w);
    let manifest = snapshot(&mut w, "hash-cut");
    assert_eq!(manifest["snapshot_id"], "hash-cut");
    assert_eq!(manifest["authority_hash"].as_str(), Some(h.to_string().as_str()));
}

#[test]
fn snapshot_vector_restores_in_flight_mesh_handoff_exactly_once() {
    let mut w = World::with_log();
    w.s.my_region = "W".to_string();
    w.s.region_lease_epoch.insert("W", 7);
    w.add_worker("w1", "W");
    let mut ship = test_physics_island_entity([-1.0, 2.0], "W");
    stamp_expanded_physics_island_epochs(&mut ship);
    w.put("ship", ship);
    w.grant_island("w1", "ship");

    w.s.mesh.insert("E");
    w.forward("ship", "E");
    let handoff = w.recv_mesh("E").expect("sent once it is durable");
    assert_eq!(handoff["op"], "MeshHandoff");
    assert!(!w.s.entities.contains_key("ship"));
    assert!(w.s.pending_mesh.contains_key("ship"));

    add_snapshotter(&mut w);
    let manifest = snapshot(&mut w, "mesh-cut");
    assert_eq!(manifest["pending_mesh"], 1);
    assert_eq!(manifest["in_flight"].as_array().unwrap().len(), 1);
    let cut_offset = manifest["wal_offset"].as_u64().expect("an offset");

    let cut = w.recover(Some(cut_offset));
    assert!(cut.report.error.is_none());
    assert!(!cut.store.entities.contains_key("ship"));
    let recovered = val(cut.store.recovered_pending.get("ship").expect("in flight"));
    assert_eq!(recovered["kind"], "mesh_out");
    assert_eq!(recovered["target"], "E");
    assert_eq!(recovered["pos"], v("[-1.0,2.0]"));
    for comp in ["rot", "lin", "ang", "at_rest"] {
        assert!(recovered["components"].as_object().unwrap().contains_key(comp));
    }

    assert!(w.ack("ship"));
    let full = w.recover(None);
    assert!(full.report.error.is_none());
    assert!(!full.store.entities.contains_key("ship"));
    assert!(!full.store.recovered_pending.contains_key("ship"));
}

#[test]
fn component_add_remove_wal_fail_does_not_mutate_ram() {
    let mut w = World::new();
    w.s.wal.fail_inject = true;
    w.s.wal.degraded = false;
    w.add_worker("w1", "W");
    w.put("crate", test_entity([-1.0, 0.0], "W"));
    w.grant_island("w1", "crate");

    w.frame("w1", r#"{"op":"AddComponent","entity":"crate","comp":"loot","value":3}"#);

    assert!(!w.entity("crate").components.contains_key("loot"));
    assert_eq!(w.entity("crate").version, 1);
    assert!(w.s.wal.degraded);

    let mut w = World::new();
    w.s.wal.fail_inject = true;
    w.s.wal.degraded = false;
    w.add_worker("w1", "W");
    w.put("crate", test_entity([-1.0, 0.0], "W"));
    w.edit_entity("crate", |e| {
        e.components.insert("loot", j("3"));
        godworks_broker::entity::ensure_component_authority(e, "loot");
    });

    w.frame("w1", r#"{"op":"RemoveComponent","entity":"crate","comp":"loot"}"#);

    assert!(w.entity("crate").components.contains_key("loot"));
    assert_eq!(w.entity("crate").version, 1);
    assert!(w.s.wal.degraded);
}

fn admin_world(epoch: u64) -> World {
    let mut w = World::new();
    w.add_worker("w1", "W");
    w.add_worker("w2", "E");
    w.add_worker("admin", "OBS");
    w.add_attribute("admin", "kernel_admin");
    w.put("ship", test_entity([-1.0, 0.0], "W"));
    w.edit_entity("ship", |e| set_component_authority_epoch(e, "pos", epoch));
    grant_authority(&mut w.s, "w1", "ship", "pos");
    w
}

#[test]
fn set_component_authority_rejects_authority_epoch_rewind() {
    let mut w = admin_world(9);
    w.frame(
        "admin",
        r#"{"op":"SetComponentAuthority","request_id":"rewind","entity":"ship","comp":"pos",
            "owner":"w2","authority_epoch":3}"#,
    );
    let response = w.recv("admin").expect("admin response");
    assert_eq!(response["op"], "SetComponentAuthorityResponse");
    assert_eq!(response["success"], false);
    assert_eq!(response["current_authority_epoch"], 9);
    assert_eq!(w.owner("ship", "pos"), Some("w1".to_string()));
    assert_eq!(w.epoch("ship", "pos"), 9);
    assert!(w.cached_epoch("w1", "ship", "pos").is_some());
    assert!(w.cached_epoch("w2", "ship", "pos").is_none());
}

#[test]
fn set_component_authority_current_epoch_bumps_epoch() {
    let mut w = admin_world(9);
    w.frame(
        "admin",
        r#"{"op":"SetComponentAuthority","request_id":"cas","entity":"ship","comp":"pos",
            "owner":"w2","authority_epoch":9}"#,
    );
    let response = w.recv("admin").expect("admin response");
    assert_eq!(response["op"], "SetComponentAuthorityResponse");
    assert_eq!(response["success"], true);
    assert_eq!(response["authority_epoch"], 10);
    assert_eq!(w.owner("ship", "pos"), Some("w2".to_string()));
    assert_eq!(w.epoch("ship", "pos"), 10);
    assert!(w.cached_epoch("w1", "ship", "pos").is_none());
    assert_eq!(w.cached_epoch("w2", "ship", "pos"), Some(10));
}

#[test]
fn set_component_authority_omitted_epoch_bumps_from_current_epoch() {
    let mut w = admin_world(12);
    w.frame(
        "admin",
        r#"{"op":"SetComponentAuthority","request_id":"omitted","entity":"ship","comp":"pos",
            "owner":"w2"}"#,
    );
    let response = w.recv("admin").expect("admin response");
    assert_eq!(response["op"], "SetComponentAuthorityResponse");
    assert_eq!(response["success"], true);
    assert_eq!(response["authority_epoch"], 13);
    assert_eq!(w.owner("ship", "pos"), Some("w2".to_string()));
    assert_eq!(w.epoch("ship", "pos"), 13);
    assert_eq!(w.cached_epoch("w2", "ship", "pos"), Some(13));
}

#[test]
fn set_component_authority_is_durable_and_revokes_old_cache() {
    let text = r#"{"op":"SetComponentAuthority","entity":"ship","comp":"pos","owner":"w2"}"#;
    let make = || {
        let mut w = World::new();
        w.add_worker("w1", "W");
        w.add_worker("w2", "E");
        w.add_worker("admin", "OBS");
        w.add_attribute("admin", "kernel_admin");
        w.put("ship", test_entity([-1.0, 0.0], "W"));
        w.grant_island("w1", "ship");
        w
    };
    let mut failed = make();
    failed.s.wal.fail_inject = true;
    failed.s.wal.degraded = false;
    failed.frame("admin", text);
    assert_eq!(failed.owner("ship", "pos"), Some("w1".to_string()));
    assert!(failed.cached_epoch("w1", "ship", "pos").is_some());
    assert!(failed.cached_epoch("w2", "ship", "pos").is_none());

    let mut w = make();
    w.frame("admin", text);
    assert_eq!(w.owner("ship", "pos"), Some("w2".to_string()));
    assert!(w.cached_epoch("w1", "ship", "pos").is_none());
    assert!(w.cached_epoch("w2", "ship", "pos").is_some());
}

#[test]
fn threshold_commit_wal_fail_does_not_move_or_fence() {
    let mut w = handoff_world();
    w.s.wal.fail_inject = true;
    w.s.wal.degraded = false;
    let old_epoch = w.epoch("ship", "pos");

    w.frame(
        "w1",
        r#"{"op":"ThresholdTx","entity":"ship","tx_id":"tx1","phase":"commit","from":"W",
            "to":"E"}"#,
    );

    assert_eq!(w.entity("ship").region, "W");
    assert!(!w.entity("ship").components.contains_key("threshold.tx"));
    assert_eq!(w.owner("ship", "pos"), Some("w1".to_string()));
    assert_eq!(w.epoch("ship", "pos"), old_epoch);
    assert!(w.s.wal.degraded);
}

#[test]
fn mesh_ack_wal_fail_keeps_pending_handoff() {
    let parked = |w: &mut World| {
        w.s.pending_mesh.insert(
            "ship",
            PendingMesh {
                frame: j(r#"{"op":"MeshHandoff","entity":"ship"}"#),
                sent_ms: w.now,
                target: "E".to_string(),
            },
        );
    };
    let mut failed = World::new();
    failed.s.wal.fail_inject = true;
    failed.s.wal.degraded = false;
    parked(&mut failed);
    assert!(!failed.ack("ship"));
    assert!(failed.s.pending_mesh.contains_key("ship"));
    assert!(failed.s.wal.degraded);

    let mut w = World::new();
    parked(&mut w);
    assert!(w.ack("ship"));
    assert!(!w.s.pending_mesh.contains_key("ship"));
}

#[test]
fn mesh_ack_is_classified_persistent_for_fail_closed_contract() {
    assert!(is_persistent_op("MeshAck"));
    assert!(is_persistent_op("ReserveEntityIds"));
}

#[test]
fn fold_transfer_recovery_preserves_position() {
    let mut w = World::new();
    w.s.wal.attached = true;
    w.add_worker("w1", "W");
    w.add_worker("m1", "MARS");
    assert!(w.spawn("foldy", [-1.0, 2.0], [0.5, 0.0], "{}", Some("W")));

    assert!(w.handoff("foldy", "W", "MARS", Some([100.0, 200.0])));
    assert_eq!(w.entity("foldy").region, "W");
    assert_eq!(w.s.pending_handoffs.len(), 1);
    w.flush_handoffs();
    assert_eq!(w.entity("foldy").region, "MARS");
    assert_eq!(numbers(&w.entity("foldy").pos), [100.0, 200.0]);

    let r = w.recover(None);
    assert!(r.report.error.is_none());
    let e = r.store.entities.get("foldy").unwrap();
    assert_eq!(e.region, "MARS");
    assert_eq!(numbers(&e.pos), [100.0, 200.0]);
}

#[test]
fn recovery_physically_truncates_corrupt_tail_before_append() {
    let mut w = World::new();
    let register = wal_line(&j(
        r#"{"kind":"register","entity":"ship","region":"W","pos":[1.0,0.0],"vel":[0.0,0.0],
            "components":{}}"#,
    ));
    let corrupt_tail = "{\"_c\":0,\"_d\":\"{\\\"kind\\\":\\\"write\\\"}\"}";
    w.log = format!("{}{}{}", wal_header(), register, corrupt_tail);
    let original_len = w.log.len() as u64;

    let r = w.recover(None);
    assert!(r.report.error.is_none());
    assert_eq!(numbers(&r.store.entities.get("ship").unwrap().pos), [1.0, 0.0]);
    assert!(r.report.truncated_tail_bytes > 0);
    assert!(r.report.recoverable_prefix_bytes < original_len);

    let cut = truncate_wal_tail_to_recoverable_prefix(&r.report, original_len).unwrap().unwrap();
    w.log.truncate(cut as usize);
    assert_eq!(w.log.len() as u64, r.report.recoverable_prefix_bytes);

    w.log.push_str(&wal_line(&j(
        r#"{"kind":"write","entity":"ship","comp":"pos","value":[2.0,0.0],"version":2}"#,
    )));
    let again = w.recover(None);
    assert!(again.report.error.is_none());
    assert_eq!(numbers(&again.store.entities.get("ship").unwrap().pos), [2.0, 0.0]);
}

#[test]
fn compaction_preserves_delete_tombstones() {
    let mut w = World::new();
    w.s.wal.attached = true;
    w.s.wal.compact_bytes = 1;
    w.s.wal.bytes = 4096;
    w.put("alive-1", test_entity([1.0, 0.0], "W"));
    w.s.deleted_entities.insert("ghost-1");

    w.compact();
    assert!(!w.s.wal.degraded);
    assert_eq!(w.s.metrics.wal_compactions, 1);

    let r = w.recover(None);
    assert!(r.report.error.is_none());
    assert!(r.store.tombstones.contains("ghost-1"));
    assert!(r.store.entities.contains_key("alive-1"));
}

#[test]
fn compaction_waits_for_pending_durable_transition_cut() {
    let original = "pending-update-still-in-current-wal\n";
    let mut w = World::new();
    w.log = original.to_string();
    w.s.wal.attached = true;
    w.s.wal.compact_bytes = 1;
    w.s.wal.bytes = 4096;
    w.put("ship", test_entity([1.0, 0.0], "W"));
    w.s.pending_updates.push(prepared_update(2, "ship", "pos", "[2.0,0.0]", 2, "w1"));

    w.compact();

    assert!(!w.s.wal.degraded);
    assert_eq!(w.log, original);
    assert_eq!(w.s.metrics.wal_compactions, 0);
    assert_eq!(w.s.pending_updates.len(), 1);
}

// ── what a peer is told ──

#[test]
fn a_new_connection_is_answered_for_its_version() {
    let mut w = World::new();
    let m = w.connect(r#"{"op":"WorkerConnect","worker_id":"w1","region":"W","proto":999}"#);
    let m = m.expect("an old broker says no");
    assert_eq!(m["op"], "VersionReject");
    assert_eq!(m["reason"], "incompatible protocol version");
    assert!(w.s.workers.is_empty());
}

#[test]
fn only_the_log_makes_an_entity() {
    let mut w = World::with_log();
    w.add_worker("w1", "W");
    w.frame("w1", r#"{"op":"CreateEntity","request_id":"c1","entity":"rock","components":{"pos":[-2.0,1.0],"hp":5}}"#);
    let e = w.entity("rock");
    assert_eq!((e.region.as_str(), e.version), ("W", 1));
    let answer = w.inbox.get("w1").unwrap().iter().find(|m| m["op"] == "CreateEntityResponse");
    assert_eq!(answer.unwrap()["success"], true);
    let back = w.recover(None).store;
    assert_eq!(back.entities.get("rock").unwrap().components.get("hp").unwrap().text(), "5");
    w.clear("w1");

    w.frame("w1", r#"{"op":"CreateEntity","request_id":"c2","entity":"rock","components":{}}"#);
    let again = w.recv("w1").unwrap();
    assert_eq!(again["op"], "CreateEntityResponse");
    assert_eq!(again["success"], false);

    let mut failed = World::new();
    failed.add_worker("w1", "W");
    failed.s.wal.fail_inject = true;
    failed.frame("w1", r#"{"op":"CreateEntity","request_id":"c1","entity":"rock","components":{}}"#);
    let m = failed.recv("w1").unwrap();
    assert_eq!(m["reason"], "wal_persist_failed: create not durably persisted");
    assert!(failed.s.entities.is_empty());
}

#[test]
fn a_burial_is_final() {
    let mut w = handoff_world();
    w.clear("w1");
    w.clear("w2");
    w.frame("w2", r#"{"op":"DeleteEntity","request_id":"d0","entity":"ship"}"#);
    let refused = w.recv("w2").unwrap();
    assert_eq!(refused["success"], false);
    assert_eq!(refused["reason"], "not authoritative; owner=w1");
    w.frame("w1", r#"{"op":"DeleteEntity","request_id":"d1","entity":"ship"}"#);
    assert!(w.s.deleted_entities.contains("ship"));
    assert!(!w.s.entities.contains_key("ship"));
    w.clear("w1");
    w.frame("w1", r#"{"op":"CreateEntity","request_id":"c1","entity":"ship","components":{}}"#);
    assert_eq!(w.recv("w1").unwrap()["success"], false);
    assert!(!w.s.entities.contains_key("ship"));
    assert!(!w.spawn("ship", [0.0, 0.0], [0.0, 0.0], "{}", None));
}

#[test]
fn commands_that_reach_nobody_fail() {
    let mut w = command_world();
    w.put("ship", test_entity([-1.0, 0.0], "W"));
    let why = |w: &mut World, text: &str| {
        w.frame("client", text);
        let m = w.recv("client").expect("an answer");
        assert_eq!(m["op"], "CommandResponse");
        assert_eq!(m["success"], false);
        m["reason"].as_str().unwrap().to_string()
    };
    let text = r#"{"op":"CommandRequest","entity":"ship","command":"go"}"#;
    assert_eq!(why(&mut w, text), "missing command request_id");
    let text = r#"{"op":"CommandRequest","request_id":"r","entity":"ghost","command":"go"}"#;
    assert_eq!(why(&mut w, text), "no authoritative worker for entity");
    w.grant_island("w1", "ship");
    let text = r#"{"op":"CommandRequest","request_id":"r","entity":"ship","command":"go"}"#;
    w.frame("client", text);
    assert!(w.recv("client").is_none());
    assert_eq!(why(&mut w, text), "duplicate pending command request_id");
}

#[test]
fn events_are_merged_and_bounded() {
    let mut w = handoff_world();
    w.clear("w1");
    for n in 0..5 {
        w.frame(
            "w1",
            &format!(
                "{{\"op\":\"EntityEvent\",\"entity\":\"ship\",\"event\":\"spark\",\"class\":\"visual\",\"payload\":{n}}}"
            ),
        );
    }
    w.frame("w1", r#"{"op":"EntityEvent","entity":"ship","event":"boom","class":"critical"}"#);
    let boom = w.recv("w1").expect("critical events do not wait");
    assert_eq!(boom["event"], "boom");
    assert!(w.recv("w1").is_none());
    godworks_broker::events::flush_events(&mut w.s);
    let merged = w.recv("w1").expect("one for all five");
    assert_eq!(merged["event"], "spark");
    assert_eq!(merged["count"], 5);
    assert_eq!(merged["payload"], 4);
    assert!(w.recv("w1").is_none());
    w.clear("w2");
    w.frame("w2", r#"{"op":"EntityEvent","entity":"ship","event":"boom","class":"critical"}"#);
    assert_eq!(w.reject_text("w2"), "not authoritative; owner=w1");
}

#[test]
fn a_mirror_is_shown_and_never_written() {
    let mut w = World::new();
    w.add_worker("w1", "W");
    w.add_peer("mesh", "MESH", &[]);
    let mirror = r#"{"op":"MeshGhost","entity":"far","pos":[-1.0,2.0],"vel":[0.0,0.0],
        "owner_region":"E","components":{"hp":4}}"#;
    w.frame("mesh", mirror);
    assert!(w.s.ghosts.contains_key("far"));
    assert!(!w.s.entities.contains_key("far"));
    w.clear("w1");
    w.frame("w1", r#"{"op":"UpdateComponent","entity":"far","comp":"hp","value":1}"#);
    let why = w.reject_text("w1");
    assert_eq!(
        why,
        "ghost is read-only (non-authoritative; owned by zone 'E'); cannot claim authority over a cross-seam mirror"
    );
    let later = w.now + 1400;
    godworks_broker::ghosts::reap_stale_ghosts(&mut w.s, later);
    assert!(w.s.ghosts.contains_key("far"));
    godworks_broker::ghosts::reap_stale_ghosts(&mut w.s, later + 200);
    assert!(!w.s.ghosts.contains_key("far"));
    w.frame("mesh", mirror);
    w.frame("mesh", r#"{"op":"MeshGhostRemove","entity":"far"}"#);
    assert!(!w.s.ghosts.contains_key("far"));

    w.put("near", test_entity([-1.0, 0.0], "W"));
    w.frame("mesh", r#"{"op":"MeshGhost","entity":"near","pos":[0.0,0.0],"owner_region":"E"}"#);
    assert!(!w.s.ghosts.contains_key("near"));
}

#[test]
fn a_neighbour_is_sent_what_is_near_its_border() {
    let mut w = mesh_world();
    w.put("ship", test_entity([-1.0, 0.0], "W"));
    w.put("far", test_entity([-90.0, 0.0], "W"));
    godworks_broker::ghosts::push_border_ghosts(&mut w.s, &set(&["ship"]), &set(&[]));
    let m = w.recv_mesh("E").expect("one mirror");
    assert_eq!(m["op"], "MeshGhost");
    assert_eq!(m["entity"], "ship");
    assert_eq!(m["owner_region"], "W");
    assert_eq!(m["pos"], v("[-1.0,0.0]"));
    assert!(w.recv_mesh("E").is_none());
}

#[test]
fn draining_needs_a_privilege_and_ends_creation() {
    let mut w = mesh_world();
    w.add_worker("w1", "W");
    w.add_peer("ops", "OBS", &["ops"]);
    w.put("ship", test_entity([-1.0, 0.0], "W"));
    w.inner("w1", r#"{"op":"Drain","request_id":"no"}"#);
    assert_eq!(w.reject_text("w1"), "Drain requires the kernel_admin/inspector/ops attribute");
    assert!(!w.s.draining);

    w.inner("ops", r#"{"op":"Drain","request_id":"yes","exit":true}"#);
    let m = w.recv("ops").expect("an answer");
    assert_eq!(m["op"], "DrainAck");
    assert_eq!(m["dispatched"], 1);
    assert_eq!(m["remaining_local"], 0);
    assert_eq!(m["pending_mesh"], 1);
    assert_eq!(w.recv_mesh("E").unwrap()["op"], "MeshHandoff");
    assert!(!godworks_broker::report::drain_is_complete(&w.s));
    assert!(w.ack("ship"));
    assert!(godworks_broker::report::drain_is_complete(&w.s));

    w.clear("w1");
    w.inner("w1", r#"{"op":"CreateEntity","request_id":"c","entity":"rock","components":{}}"#);
    assert_eq!(w.recv("w1").unwrap()["success"], false);
    assert!(w.s.entities.is_empty());
}

#[test]
fn the_inspector_needs_its_attribute() {
    let mut w = handoff_world();
    w.clear("w1");
    w.inner("w1", r#"{"op":"InspectorQuery","request_id":"i"}"#);
    assert_eq!(w.reject_text("w1"), "InspectorQuery requires the inspector attribute");
    w.add_attribute("w1", "inspector");
    w.inner("w1", r#"{"op":"InspectorQuery","request_id":"i","max_entities":0}"#);
    let m = w.recv("w1").unwrap();
    assert_eq!(m["op"], "InspectorFrame");
    assert_eq!(m["entities_capped"], true);
    assert_eq!(m["entities"].as_array().unwrap().len(), 0);
    w.inner("w1", r#"{"op":"Health","request_id":"h"}"#);
    assert_eq!(w.recv("w1").unwrap()["request_id"], "h");
}

#[test]
fn snapshots_need_an_attribute() {
    let mut w = handoff_world();
    w.clear("w1");
    w.inner("w1", r#"{"op":"SnapshotMarker","request_id":"s"}"#);
    assert_eq!(
        w.reject_text("w1"),
        "SnapshotMarker requires the snapshot/inspector/kernel_admin attribute"
    );
}

#[test]
fn flags_reach_everybody() {
    let mut w = handoff_world();
    w.clear("w1");
    w.clear("w2");
    w.inner("w1", r#"{"op":"FlagUpdate","flag":"fog","value":true}"#);
    for wid in ["w1", "w2"] {
        let m = w.recv(wid).unwrap();
        assert_eq!((m["op"].as_str(), m["flag"].as_str()), (Some("FlagUpdate"), Some("fog")));
        assert_eq!(m["value"], true);
    }
    assert_eq!(w.s.flags.get("fog").unwrap().as_bool(), Some(true));
    w.inner("w2", r#"{"op":"Metrics","load":0.75}"#);
    assert_eq!(num(w.s.worker_load.get("w2").unwrap()), 0.75);
}

#[test]
fn writes_are_refused_for_their_reasons() {
    let mut w = handoff_world();
    w.edit_entity("ship", |e| {
        e.components.insert("hp", j("1"));
        e.components.insert("acl", j(r#"{"write":{"hp":"role.medic"}}"#));
    });
    w.clear("w1");
    w.clear("w2");
    let why = |w: &mut World, wid: &str, comp: &str, epoch: Option<u64>| {
        assert!(!w.update(wid, "ship", comp, "2", epoch));
        w.reject_text(wid)
    };
    assert_eq!(why(&mut w, "w1", "hp", None), "acl: write requires attribute 'role.medic'");
    assert_eq!(
        why(&mut w, "w1", "acl", None),
        "acl is immutable post-creation (requires the 'acl_admin' attribute)"
    );
    assert_eq!(
        why(&mut w, "w1", "kernel.seal", None),
        "platform-reserved components require the 'kernel_admin' attribute"
    );
    assert_eq!(why(&mut w, "w2", "pos", None), "not authoritative; owner=w1");
    let current = w.epoch("ship", "pos");
    let stale = why(&mut w, "w1", "pos", Some(current + 7));
    assert_eq!(stale, format!("stale authority epoch {}; current={}", current + 7, current));
    assert!(!w.update("w1", "nobody", "pos", "[0,0]", None));
    assert_eq!(w.reject_text("w1"), "entity not found");
}

#[test]
fn a_crossing_loses_nothing() {
    let mut w = World::with_log();
    w.s.my_region = "W".to_string();
    w.s.mesh.insert("E");
    w.s.mesh_regions.insert("E");
    assert!(w.spawn("ship", [-1.5, 2.25], [3.0, 0.0], r#"{"hp":5,"rot":0.25}"#, Some("W")));
    let before = w.entity("ship").dup();
    w.forward("ship", "E");
    let sent = w.recv_mesh("E").expect("on its way");

    let mut e = World::with_log();
    e.s.my_region = "E".to_string();
    e.add_peer("mesh", "MESH", &[]);
    e.frame("mesh", &sent.to_string());
    let after = e.entity("ship");
    assert_eq!(after.pos.json().text(), before.pos.json().text());
    assert_eq!(after.vel.json().text(), before.vel.json().text());
    assert_eq!(after.components.get("hp").unwrap().text(), "5");
    assert_eq!(after.components.keys(), before.components.keys());
    assert!(component_authority_epoch(after, "pos") > component_authority_epoch(&before, "pos"));
    let ack = e.recv("mesh").expect("confirmed");
    assert_eq!(ack["op"], "MeshAck");
    assert!(w.ack("ship"));
    assert!(w.s.pending_mesh.is_empty());

    let back = e.recover(None).store;
    assert_eq!(back.entities.get("ship").unwrap().pos.json().text(), before.pos.json().text());
    assert!(w.recover(None).store.entities.is_empty());
    assert!(w.recover(None).store.recovered_pending.is_empty());
}

#[test]
fn what_is_parked_is_sent_again() {
    let mut w = World::new();
    w.s.mesh.insert("E");
    w.put("ship", test_entity([-1.0, 0.0], "W"));
    w.forward("ship", "E");
    let first = w.recv_mesh("E").unwrap();
    let now = w.now;
    godworks_broker::mesh::resend_pending_mesh(&mut w.s, now + 1000);
    assert!(w.recv_mesh("E").is_none());
    godworks_broker::mesh::resend_pending_mesh(&mut w.s, now + 1001);
    assert_eq!(w.recv_mesh("E"), Some(first));
}

#[test]
fn a_stale_incarnation_is_fenced() {
    let mut w = World::new();
    w.s.my_region = "E".to_string();
    w.add_peer("mesh", "MESH", &[]);
    w.s.region_lease_epoch.insert("W", 5);
    let text = arrival("E", "[1.0,0.0]").replace("source_region", "src_region");
    w.frame("mesh", &text);
    assert!(w.s.entities.is_empty());
    assert!(w.rejected_because("stale lease epoch (fenced incarnation)"));
}

#[test]
fn a_successor_in_the_registry_silences_a_broker() {
    let me = godworks_broker::registry::Incarnation {
        region: "W".to_string(),
        addr: "h:1".to_string(),
        epoch: 3,
    };
    let mut w = World::new();
    w.s.my_region = "W".to_string();
    w.s.mesh.insert("E");
    w.put("ship", test_entity([-1.0, 0.0], "W"));
    let see = |w: &mut World, region: &str, text: &str| {
        godworks_broker::registry::see_registry_entry(&mut w.s, region, &j(text), &me, 10_000)
    };
    assert!(see(&mut w, "E", r#"{"addr":"h:9","hb_ms":9000,"lease_epoch":7}"#));
    assert!(!see(&mut w, "N", r#"{"addr":"h:8","hb_ms":5000,"lease_epoch":7}"#));
    assert_eq!(w.s.region_lease_epoch.get("E").copied(), Some(7));
    assert!(see(&mut w, "E", r#"{"addr":"h:9","hb_ms":9000,"lease_epoch":2}"#));
    assert_eq!(w.s.region_lease_epoch.get("E").copied(), Some(7));
    assert!(!see(&mut w, "W", r#"{"addr":"h:1","hb_ms":9000,"lease_epoch":4}"#));
    assert!(!w.s.superseded_regions.contains("W"));
    assert!(!see(&mut w, "W", r#"{"addr":"h:2","hb_ms":9000,"lease_epoch":4}"#));
    assert!(w.s.superseded_regions.contains("W"));
    w.forward("ship", "E");
    assert!(w.s.entities.contains_key("ship"));
    assert!(w.recv_mesh("E").is_none());
}

#[test]
fn load_sheds_only_what_may_be_lost() {
    let mut w = World::new();
    let level = |w: &mut World, n: u64| {
        godworks_broker::leases::update_load_governor(&mut w.s, n);
        w.s.load_level
    };
    assert_eq!(level(&mut w, 2047), 0);
    assert_eq!(level(&mut w, 2048), 1);
    assert_eq!(level(&mut w, 1024), 1);
    assert_eq!(level(&mut w, 4096), 2);
    assert_eq!(level(&mut w, 1500), 1);
    assert_eq!(level(&mut w, 1023), 0);
    let shed = |w: &World, op: &str, n: u64| godworks_broker::leases::is_shed(&w.s, op, n);
    assert!(!shed(&w, "ComponentUpdate", 4096));
    assert!(shed(&w, "ComponentUpdate", 4097));
    assert!(!shed(&w, "EntityEvent", 1_000_000));
    level(&mut w, 4096);
    assert!(shed(&w, "ComponentUpdate", 1025));
    assert!(godworks_broker::leases::may_drop("InspectorFrame"));
    assert!(!godworks_broker::leases::may_drop("RemoveEntity"));
}

#[test]
fn the_partition_survives_a_restart() {
    let mut w = World::with_log();
    w.s.boundaries = cuts(&[-4.0, 6.5]);
    w.s.splits.insert("Z1", Splits(vec![fl(1.5)]));
    w.s.mesh_regions.insert("N");
    let ev = godworks_broker::topology::partition_wal_event(&w.s);
    assert!(w.commit(&ev));
    let back = w.recover(None).store;
    let c = godworks_broker::topology::read_partition(&back.last_partition.unwrap());
    let mut fresh = World::new();
    let places = godworks_broker::topology::restored_cut_places(&fresh.s, &c);
    let at: Vec<f64> = places.iter().map(num).collect();
    assert_eq!(at, [-4.0, 6.5]);
    godworks_broker::topology::restore_partition(&mut fresh.s, c, cuts(&at));
    assert_eq!(fresh.s.boundaries.len(), 2);
    assert_eq!(num(&fresh.s.splits.get("Z1").unwrap().0[0]), 1.5);
    assert!(fresh.s.mesh_regions.contains("N"));
}

#[test]
fn a_threshold_goes_through_its_phases() {
    let mut w = World::with_log();
    w.add_worker("w1", "W");
    w.add_worker("w2", "E");
    assert!(w.spawn("ship", [-1.0, 0.0], [0.0, 0.0], "{}", Some("W")));
    w.grant_island("w1", "ship");
    let step = |w: &mut World, wid: &str, phase: &str| {
        w.frame(
            wid,
            &format!(
                "{{\"op\":\"ThresholdTx\",\"request_id\":\"r\",\"entity\":\"ship\",\"tx_id\":\"t\",\"phase\":\"{phase}\",\"from\":\"W\",\"to\":\"E\"}}"
            ),
        );
        w.collect();
        let q = w.inbox.get_mut(wid).unwrap();
        let i = q.iter().position(|m| m["op"] == "ThresholdTxResponse").expect("an answer");
        q.remove(i).unwrap()
    };
    assert_eq!(step(&mut w, "w1", "prepare")["success"], true);
    let tx = val(w.entity("ship").components.get("threshold.tx").unwrap());
    assert_eq!(tx["phase"], "prepare");
    let before = w.epoch("ship", "pos");
    assert_eq!(step(&mut w, "w1", "commit")["success"], true);
    assert_eq!(w.entity("ship").region, "E");
    assert_eq!(w.owner("ship", "pos"), Some("w2".to_string()));
    assert_eq!(w.epoch("ship", "pos"), before + 1);
    let no = step(&mut w, "w1", "adopt");
    assert_eq!(no["success"], false);
    assert_eq!(no["reason"], "not authoritative; owner=w2");
    assert_eq!(step(&mut w, "w2", "dance")["reason"], "invalid threshold transaction");
    assert_eq!(step(&mut w, "w2", "adopt")["success"], true);
    assert!(!w.entity("ship").components.contains_key("threshold.tx"));
    let back = w.recover(None).store;
    let e = back.entities.get("ship").unwrap();
    assert_eq!(e.region, "E");
    assert_eq!(component_authority_epoch(e, "pos"), before + 1);
}

#[test]
fn a_fold_is_for_the_holder() {
    let mut w = handoff_world();
    w.clear("w1");
    w.clear("w2");
    w.frame("w2", r#"{"op":"Fold","entity":"ship","region":"E","pos":[9.0,9.0]}"#);
    assert_eq!(w.reject_text("w2"), "not authoritative; cannot fold an entity you do not own");
    w.frame("w1", r#"{"op":"Fold","entity":"ship","region":"E","pos":[9.0,9.0]}"#);
    let e = w.entity("ship");
    assert_eq!(e.region, "E");
    assert_eq!(numbers(&e.pos), [9.0, 9.0]);
    assert_eq!(w.owner("ship", "pos"), Some("w2".to_string()));
}

#[test]
fn components_come_and_go() {
    let mut w = handoff_world();
    w.frame("w1", r#"{"op":"AddComponent","entity":"ship","comp":"shield","value":3}"#);
    assert_eq!(w.entity("ship").components.get("shield").unwrap().text(), "3");
    w.clear("w1");
    w.frame("w1", r#"{"op":"AddComponent","entity":"ship","comp":"acl","value":{}}"#);
    assert_eq!(w.reject_text("w1"), "acl requires the 'acl_admin' attribute");
    w.frame("w1", r#"{"op":"RemoveComponent","entity":"ship","comp":"shield"}"#);
    assert!(!w.entity("ship").components.contains_key("shield"));
    w.clear("w2");
    w.frame("w2", r#"{"op":"SetComponentAuthority","entity":"ship","comp":"pos","owner":"w2"}"#);
    assert_eq!(
        w.reject_text("w2"),
        "component authority changes require the 'kernel_admin' attribute"
    );
}

#[test]
fn blocks_of_numbers_do_not_overlap() {
    let mut w = World::with_log();
    w.add_worker("w1", "W");
    let first = w.s.entity_id_reservations;
    w.frame("w1", r#"{"op":"ReserveEntityIds","request_id":"a","count":10}"#);
    w.frame("w1", r#"{"op":"ReserveEntityIds","request_id":"b","count":5}"#);
    let a = w.recv("w1").unwrap();
    let b = w.recv("w1").unwrap();
    assert_eq!(a["first_id"].as_u64(), Some(first));
    assert_eq!(b["first_id"].as_u64(), Some(first + 10));
    assert_eq!(w.recover(None).store.recovered_id_hwm, first + 15);
}

#[test]
fn a_broker_starts_where_its_log_ends() {
    let mut w = World::with_log();
    w.add_worker("w1", "W");
    w.s.mesh.insert("E");
    assert!(w.spawn("rock", [-3.0, 1.0], [0.0, 0.0], r#"{"hp":5}"#, Some("W")));
    assert!(w.spawn("ship", [-1.0, 0.0], [0.0, 0.0], "{}", Some("W")));
    assert!(w.spawn("dust", [-2.0, 0.0], [0.0, 0.0], "{}", Some("W")));
    w.grant_island("w1", "dust");
    w.frame("w1", r#"{"op":"DeleteEntity","entity":"dust"}"#);
    w.frame("w1", r#"{"op":"ReserveEntityIds","count":10}"#);
    w.forward("ship", "E");

    let found = w.recover(None);
    let mut fresh = World::new();
    restore(&mut fresh.s, found.store, 77);
    assert_eq!(fresh.s.entities.keys(), ["rock"]);
    assert_eq!(fresh.entity("rock").components.get("hp").unwrap().text(), "5");
    assert!(fresh.s.deleted_entities.contains("dust"));
    assert_eq!(fresh.s.entity_id_reservations, w.s.entity_id_reservations);
    let parked = fresh.s.pending_mesh.get("ship").unwrap();
    assert_eq!(parked.target, "E");
    assert_eq!(val(&parked.frame)["op"], "MeshHandoff");
    assert!(fresh.s.mesh_forwarded_epoch.contains_key("ship"));
}

#[test]
fn a_crossing_is_recorded_on_both_sides() {
    let mut w = World::new();
    w.s.my_region = "W".to_string();
    w.s.mesh.insert("E");
    w.put("ship", test_entity([-1.0, 0.0], "W"));
    w.tape = Some(ReplayTape::open_path(64));
    w.forward("ship", "E");
    let out = w.lines.iter().find(|l| l["kind"] == "broker_handoff").expect("recorded");
    assert_eq!(out["path"], "mesh_out");
    assert_eq!((out["from"].as_str(), out["to"].as_str()), (Some("W"), Some("E")));
    let sent = w.recv_mesh("E").unwrap();

    let mut e = World::new();
    e.s.my_region = "E".to_string();
    e.add_peer("mesh", "MESH", &[]);
    e.tape = Some(ReplayTape::open_path(64));
    for _ in 0..2 {
        e.frame("mesh", &sent.to_string());
    }
    let paths: Vec<&Value> = e.lines.iter().filter(|l| l["kind"] == "broker_handoff").collect();
    assert_eq!(paths.len(), 2);
    for l in paths {
        assert_eq!(l["path"], "mesh_in");
        assert_eq!(l["from"], "W");
        assert_eq!(l["to"], "E");
        assert_eq!(l["authority_epoch"], sent["authority_epoch"]);
    }

    let mut failed = World::new();
    failed.s.mesh.insert("E");
    failed.put("ship", test_entity([-1.0, 0.0], "W"));
    failed.tape = Some(ReplayTape::open_path(64));
    failed.s.wal.fail_inject = true;
    failed.forward("ship", "E");
    assert!(!failed.lines.iter().any(|l| l["kind"] == "broker_handoff"));
}

fn client_moved(pos: [f64; 2], bounds: &str) -> Entity {
    let mut e = test_entity(pos, "W");
    let spec = format!(
        "{{\"pos\":{{\"mode\":\"client_forward_sparse\",\"owner\":\"client\",{bounds}}}}}"
    );
    e.components.insert("authority.mode", j(&spec));
    e.authority = initial_authority_map(&e.components, 1);
    e
}

fn measured(w: &World, eid: &str, to: [f64; 2]) -> Verdict {
    let length = |a: [f64; 2], b: [f64; 2]| ((a[0] - b[0]).powi(2) + (a[1] - b[1]).powi(2)).sqrt();
    let e = w.entity(eid);
    let mut out = Verdict::silent();
    if let Some(max) = max_stride(e, "pos") {
        let d = length(to, numbers(&e.pos));
        out.stride = Some(Stride {
            distance: d.to_bits(),
            words: format!("{d:.3}"),
            limit_words: format!("{:.3}", num(&max)),
        });
    }
    let radius = contact_radius(e, "pos").map(|r| num(&r)).unwrap_or(0.0);
    for other in w.s.entities.keys() {
        let o = w.entity(&other);
        let d = length(to, numbers(&o.pos));
        let t = radius + contact_radius(o, "pos").map(|r| num(&r)).unwrap_or(0.0);
        out.gaps.push(Gap {
            other,
            distance: d.to_bits(),
            threshold: t.to_bits(),
            words: format!("{d:.3}"),
            threshold_words: format!("{t:.3}"),
        });
    }
    out
}

fn client_move(w: &mut World, eid: &str, to: [f64; 2], v: &Verdict) -> bool {
    let text = format!("[{:?},{:?}]", to[0], to[1]);
    let now = w.now;
    godworks_broker::update::prepare_update(&mut w.s, "client", eid, "pos", j(&text), None, v, now)
        .is_some()
}

#[test]
fn a_client_takes_no_leaps() {
    let mut w = World::new();
    w.add_peer("client", "CLIENT", &[]);
    w.put("a", client_moved([0.0, 0.0], "\"bounds\":{\"max_pos_delta\":5}"));
    grant_authority(&mut w.s, "client", "a", "pos");
    w.clear("client");
    let v = measured(&w, "a", [3.0, 4.0]);
    assert!(client_move(&mut w, "a", [3.0, 4.0], &v));
    let v = measured(&w, "a", [6.0, 8.0]);
    assert!(!client_move(&mut w, "a", [6.0, 8.0], &v));
    assert_eq!(
        w.reject_text("client"),
        "client_forward_sparse envelope: pos delta 10.000 exceeds max_position_delta 5.000"
    );
}

#[test]
fn a_contact_is_arbitrated_once() {
    let mut w = World::new();
    w.add_worker("w1", "W");
    w.add_peer("client", "CLIENT", &[]);
    let bounds = "\"contact_radius\":1.5";
    w.put("a", client_moved([0.0, 0.0], bounds));
    w.put("b", client_moved([10.0, 0.0], bounds));
    w.put("c", test_entity([8.0, 0.0], "W"));
    grant_authority(&mut w.s, "client", "a", "pos");
    grant_authority(&mut w.s, "client", "b", "pos");
    w.clear("client");
    let far = measured(&w, "a", [6.5, 0.0]);
    assert!(client_move(&mut w, "a", [6.5, 0.0], &far));
    let near = measured(&w, "a", [7.0, 0.0]);
    assert!(!client_move(&mut w, "a", [7.0, 0.0], &near));
    let told: Vec<Value> = std::iter::from_fn(|| w.recv("client")).collect();
    let last = told.last().unwrap();
    assert_eq!(
        last["reason"],
        "contact-risk: candidate distance 3.000 <= contact threshold 3.000; escalated to server_arbitrated"
    );
    assert_eq!(last["contact_entity"], "b");
    for eid in ["a", "b"] {
        let mode = godworks_broker::entity::component_authority_mode(w.entity(eid), "pos");
        assert_eq!(mode, AuthorityMode::ServerArbitrated);
        assert_eq!(w.owner(eid, "pos"), Some("w1".to_string()));
    }
    let epoch = w.epoch("b", "pos");
    assert!(!godworks_broker::update::reject_and_escalate_contact_risk(
        &mut w.s, "client", "a", "pos", &near
    ));
    assert_eq!(w.epoch("b", "pos"), epoch);
}

#[test]
fn the_line_goes_away_from_the_less_loaded() {
    let mut w = World::new();
    w.add_worker("w1", "W");
    w.add_worker("w2", "E");
    w.put("ship", test_entity([-0.75, 0.0], "W"));
    let even = |w: &mut World, imbalance: f64| {
        godworks_broker::rebalance::rebalance(&mut w.s, imbalance.to_bits(), cut(-1.5), cut(0.5))
    };
    assert!(!even(&mut w, 0.25));
    assert!(!even(&mut w, -0.25));
    assert!(even(&mut w, 0.5));
    assert_eq!(num(&w.s.boundary), -1.5);
    assert_eq!(num(&w.s.boundaries[0].at), -1.5);
    assert_eq!(w.s.rebalance_jobs.len(), 1);
    assert!(!even(&mut w, 0.5));
    let mut end = World::new();
    end.s.boundary = fl(7.0);
    assert!(!even(&mut end, -9.0));
}

#[test]
fn a_group_of_writes_survives_a_restart() {
    let mut w = World::with_log();
    w.add_worker("w1", "W");
    assert!(w.spawn("ship", [-4.0, 0.0], [0.0, 0.0], r#"{"hp":1}"#, Some("W")));
    w.grant_island("w1", "ship");
    grant_authority(&mut w.s, "w1", "ship", "hp");
    assert!(w.update("w1", "ship", "pos", "[-3.5,0.25]", None));
    assert!(w.update("w1", "ship", "hp", "7", None));
    assert!(w.update("w1", "ship", "pos", "[-3.0,0.5]", None));
    assert_eq!(numbers(&w.entity("ship").pos), [-4.0, 0.0]);
    w.flush();
    let back = w.recover(None).store;
    let (live, again) = (w.entity("ship"), back.entities.get("ship").unwrap());
    assert_eq!(numbers(&live.pos), [-3.0, 0.5]);
    assert_eq!(again.pos.json().text(), live.pos.json().text());
    assert_eq!(again.components.get("hp").unwrap().text(), "7");
    assert_eq!((again.version, again.region.as_str()), (live.version, live.region.as_str()));
}

#[test]
fn the_rewritten_log_keeps_the_mark_of_reserved_numbers() {
    let mut w = World::with_log();
    w.s.wal.compact_bytes = 1;
    w.s.wal.bytes = 4096;
    w.s.entity_id_reservations = 7;
    w.compact();
    assert_eq!(w.s.wal.bytes, w.log.len() as u64);
    assert_eq!(w.recover(None).store.recovered_id_hwm, 7);
    w.s.entity_id_reservations = 0;
    assert!(!compaction_events(&w.s).iter().any(|e| e.get_str("kind") == Some("reserve_entity_ids")));
}

#[test]
fn the_rewritten_log_keeps_departures_that_nobody_confirmed() {
    let mut w = World::with_log();
    w.s.my_region = "W".to_string();
    w.s.mesh.insert("E");
    assert!(w.spawn("ship", [1.0, 0.0], [0.5, 0.0], r#"{"hp":3}"#, Some("W")));
    w.forward("ship", "E");
    let sent = w.recv_mesh("E").unwrap();
    let before = w.recover(None).store;
    w.s.wal.compact_bytes = 1;
    assert!(may_compact_wal(&w.s));
    w.compact();
    let found = w.recover(None);
    assert!(found.report.error.is_none());
    assert!(found.store.recovered_pending.contains_key("ship"));
    assert!(found.store.entities.is_empty());
    assert_eq!(
        found.store.mesh_forwarded_epoch.get("ship").copied(),
        before.mesh_forwarded_epoch.get("ship").copied()
    );
    let mut fresh = World::new();
    restore(&mut fresh.s, found.store, 5);
    let again = val(&fresh.s.pending_mesh.get("ship").unwrap().frame);
    for key in ["entity", "target", "pos", "vel", "components", "authority", "authority_epoch"] {
        assert_eq!(again[key], sent[key]);
    }
}

#[test]
fn a_transfer_keeps_what_was_written_after_it_was_queued() {
    let mut w = World::with_log();
    w.add_worker("w1", "W");
    w.add_worker("w2", "E");
    assert!(w.spawn("ship", [-1.0, 0.0], [0.0, 0.0], "{}", Some("W")));
    w.grant_island("w1", "ship");
    assert!(w.update("w1", "ship", "pos", "[1.0,0.0]", None));
    assert!(w.update("w1", "ship", "pos", "[2.0,0.0]", None));
    w.flush();
    let e = w.entity("ship");
    assert_eq!(e.region, "E");
    assert_eq!(numbers(&e.pos), [2.0, 0.0]);
    let back = w.recover(None).store;
    let again = back.entities.get("ship").unwrap();
    assert_eq!(numbers(&again.pos), [2.0, 0.0]);
    assert_eq!((again.region.as_str(), again.version), ("E", e.version));
}

#[test]
fn a_snapshot_names_what_its_offset_replays_to() {
    let mut w = World::with_log();
    w.add_worker("w1", "W");
    w.add_worker("w2", "E");
    add_snapshotter(&mut w);
    assert!(w.spawn("ship", [-4.0, 0.0], [0.0, 0.0], r#"{"hp":1}"#, Some("W")));
    w.grant_island("w1", "ship");
    assert!(w.handoff("ship", "W", "E", None));
    assert!(w.update("w1", "ship", "pos", "[-3.0,0.5]", None));
    assert!(w.update("w1", "ship", "vel", "[2.0,0.0]", None));
    w.clear("snap");
    let m = snapshot(&mut w, "cut");
    let offset = m["wal_offset"].as_u64();
    let now = w.entity("ship").dup();
    let back = w.recover(offset).store;
    let again = back.entities.get("ship").unwrap();
    assert_eq!(again.pos.json().text(), now.pos.json().text());
    assert_eq!(again.vel.json().text(), "[2.0,0.0]");
    assert_eq!((again.region.as_str(), again.version), (now.region.as_str(), now.version));
    assert_eq!(again.components.keys(), now.components.keys());
    assert!(w.s.pending_updates.is_empty());
}

#[test]
fn requests_act_at_once_whatever_is_queued() {
    let mut w = World::with_log();
    w.add_worker("w1", "W");
    w.add_worker("w2", "E");
    assert!(w.spawn("ship", [-4.0, 0.0], [0.0, 0.0], r#"{"hp":1}"#, Some("W")));
    w.grant_island("w1", "ship");
    grant_authority(&mut w.s, "w1", "ship", "hp");
    assert!(w.update("w1", "ship", "hp", "2", None));
    w.frame("w1", r#"{"op":"AddComponent","entity":"ship","comp":"fuel","value":7}"#);
    let e = w.entity("ship");
    assert_eq!(e.components.get("fuel").unwrap().text(), "7");
    assert_eq!(e.components.get("hp").unwrap().text(), "1");
    assert_eq!((e.version, w.s.pending_updates[0].version), (2, 2));
    w.frame("w1", r#"{"op":"RemoveComponent","entity":"ship","comp":"hp"}"#);
    assert!(!w.entity("ship").components.contains_key("hp"));
    assert_eq!((w.entity("ship").version, w.s.pending_updates.len()), (3, 1));
    w.frame("w1", r#"{"op":"Fold","entity":"ship","region":"E","pos":[9.0,9.0]}"#);
    let e = w.entity("ship");
    assert_eq!((e.region.as_str(), numbers(&e.pos)), ("E", [9.0, 9.0]));
    assert_eq!((e.version, w.s.pending_updates.len()), (4, 1));
    w.flush();
    let e = w.entity("ship");
    assert_eq!(e.components.get("hp").unwrap().text(), "2");
    assert_eq!(e.version, 2);
    assert!(w.s.pending_updates.is_empty());
}

#[test]
fn a_drain_acts_at_once_whatever_is_queued() {
    let mut w = mesh_world();
    w.add_worker("w1", "W");
    w.add_peer("ops", "OBS", &["ops"]);
    w.put("ship", test_entity([-4.0, 0.0], "W"));
    w.grant_island("w1", "ship");
    assert!(w.update("w1", "ship", "pos", "[-3.0,0.0]", None));
    w.inner("ops", r#"{"op":"Drain","request_id":"d"}"#);
    let sent = w.recv_mesh("E").expect("on its way");
    assert_eq!(sent["pos"], v("[-4.0,0.0]"));
    assert_eq!(w.s.pending_updates.len(), 1);
}

#[test]
fn a_transaction_times_out_at_once_whatever_is_queued() {
    let mut w = World::with_log();
    w.add_worker("w1", "W");
    assert!(w.spawn("ship", [-4.0, 0.0], [0.0, 0.0], "{}", Some("W")));
    w.grant_island("w1", "ship");
    w.frame(
        "w1",
        r#"{"op":"ThresholdTx","entity":"ship","tx_id":"t","phase":"prepare","from":"W","to":"E"}"#,
    );
    assert!(w.entity("ship").components.contains_key("threshold.tx"));
    assert_log_says_what_is_open(&w, "ship");
    assert!(w.update("w1", "ship", "pos", "[-3.0,0.0]", None));
    w.run(Task::Timeouts { ids: vec!["ship".to_string()], next: 0 });
    assert!(!w.entity("ship").components.contains_key("threshold.tx"));
    assert_eq!((w.entity("ship").version, w.s.pending_updates.len()), (3, 1));
    w.s.pending_updates.clear();
    let back = w.recover(None).store;
    assert!(!back.entities.get("ship").unwrap().components.contains_key("threshold.tx"));
}

/// A transaction that is not committed is the one thing that a restart leaves out.
fn assert_log_says_what_is_open(w: &World, eid: &str) {
    let back = w.recover(None).store;
    let (a, b) = (w.entity(eid), back.entities.get(eid).unwrap());
    assert!(!b.components.contains_key("threshold.tx"));
    assert_eq!((&a.region, a.version), (&b.region, b.version));
}

#[test]
fn a_later_write_outlives_the_version_of_a_queued_transfer() {
    let mut w = World::with_log();
    w.add_worker("w1", "W");
    w.add_worker("w2", "E");
    assert!(w.spawn("ship", [-4.0, 0.0], [0.0, 0.0], "{}", Some("W")));
    w.grant_island("w1", "ship");
    assert!(w.handoff("ship", "W", "E", None));
    let before = w.s.pending_handoffs[0].version;
    assert!(w.update("w1", "ship", "vel", "[1.0,0.0]", None));
    let written = w.s.pending_updates[0].version;
    assert_eq!(w.s.pending_handoffs[0].version, written);
    assert!(before <= written);
    w.flush();
    assert_eq!((w.entity("ship").region.as_str(), w.entity("ship").version), ("E", written));
    assert_log_says_what_is(&w);
}

#[test]
fn the_rewritten_log_keeps_a_committed_transaction_without_an_authority() {
    let mut w = World::with_log();
    w.add_worker("w1", "W");
    w.add_worker("w2", "E");
    assert!(w.spawn("ship", [-4.0, 1.5], [0.5, 0.0], r#"{"hp":1}"#, Some("W")));
    w.grant_island("w1", "ship");
    for phase in ["prepare", "preload_ready", "commit"] {
        w.frame(
            "w1",
            &format!("{{\"op\":\"ThresholdTx\",\"entity\":\"ship\",\"tx_id\":\"t\",\"phase\":\"{phase}\",\"from\":\"W\",\"to\":\"E\"}}"),
        );
    }
    let live = w.entity("ship").dup();
    assert!(live.components.contains_key("threshold.tx"));
    assert!(!live.authority.contains_key("threshold.tx"));
    w.s.wal.compact_bytes = 1;
    w.compact();
    assert_log_says_what_is(&w);
    let back = w.recover(None).store;
    let again = back.entities.get("ship").unwrap();
    assert_eq!(again.region, "E");
    for comp in live.authority.keys() {
        let (a, b) = (live.authority.get(&comp).unwrap(), again.authority.get(&comp).unwrap());
        assert_eq!((&a.owner, a.epoch), (&b.owner, b.epoch));
    }
    assert!(again.authority.contains_key("threshold.tx"));
}

#[test]
fn a_snapshot_after_a_fold_replays_to_the_world() {
    let mut w = World::with_log();
    w.add_worker("w1", "W");
    w.add_worker("w2", "E");
    add_snapshotter(&mut w);
    assert!(w.spawn("ship", [-4.0, 0.0], [0.0, 0.0], r#"{"hp":1}"#, Some("W")));
    w.grant_island("w1", "ship");
    w.frame("w1", r#"{"op":"Fold","entity":"ship","region":"E","pos":[6.5,-2.0]}"#);
    w.grant_island("w2", "ship");
    assert!(w.update("w2", "ship", "vel", "[2.0,1.0]", None));
    w.clear("snap");
    let m = snapshot(&mut w, "cut");
    let (at, len) = (m["wal_offset"].as_u64(), w.log.len() as u64);
    assert_eq!(at, Some(len));
    let now = w.entity("ship").dup();
    assert!(w.update("w2", "ship", "pos", "[8.0,8.0]", None));
    w.flush();
    assert!(w.log.len() as u64 > len);
    let back = w.recover(at).store;
    let again = back.entities.get("ship").unwrap();
    assert_eq!(again.pos.json().text(), "[6.5,-2.0]");
    assert_eq!(again.vel.json().text(), "[2.0,1.0]");
    assert_eq!((&again.region, again.version), (&now.region, now.version));
    w.s.wal.compact_bytes = 1;
    assert!(!may_compact_wal(&w.s));
}

#[test]
fn what_is_far_is_shown_in_rounded_numbers() {
    let mut w = World::new();
    w.add_worker("w1", "W");
    w.add_worker("far", "E");
    w.put("ship", test_entity([-4.0, 0.0], "W"));
    let mut peer = w.s.workers.remove("far").unwrap();
    peer.view.insert("ship");
    peer.aoi_center = Some(Point { x: Some(fl(0.0)), y: Some(fl(0.0)) });
    peer.aoi_radius = Some(fl(50.0));
    peer.fidelity_full_radius = Some(fl(1.0));
    peer.fidelity_coarse_grid = fl(2.0);
    w.s.workers.insert("far", peer);
    w.clear("far");
    let value = j("[-4.75,0.25]");
    let rounded: Vec<Rounded> = numbers_to_round("pos", &value, &fl(2.0))
        .into_iter()
        .map(|n| {
            let x = (f64::from_bits(n.bits()) / 2.0).round() * 2.0;
            Rounded { number: n, rounded: Some(fl(x)) }
        })
        .collect();
    let sight = Sight { wid: "far".to_string(), near: true, full: false, rounded };
    propagate(&mut w.s, "ship", "pos", &value, &vec![sight]);
    let m = w.recv("far").unwrap();
    assert_eq!((m["op"].as_str(), m["fidelity"].as_str()), (Some("ComponentUpdate"), Some("coarse")));
    assert_eq!(m["value"], v("[-4.0,0.0]"));
}

#[test]
fn no_message_brings_back_what_was_deleted() {
    let mut w = handoff_world();
    w.add_peer("mesh", "MESH", &[]);
    w.frame("w1", r#"{"op":"DeleteEntity","entity":"ship"}"#);
    w.clear("w1");
    w.clear("mesh");
    w.frame("w1", r#"{"op":"CreateEntity","request_id":"a","entity":"ship","components":{}}"#);
    let m = w.recv("w1").unwrap();
    assert_eq!((m["success"].as_bool(), m["reason"].as_str()), (Some(false), Some("entity tombstoned")));
    w.frame(
        "w1",
        r#"{"op":"ThresholdTx","request_id":"b","entity":"ship","tx_id":"t","phase":"commit","to":"E"}"#,
    );
    let m = w.recv("w1").unwrap();
    assert_eq!((m["success"].as_bool(), m["reason"].as_str()), (Some(false), Some("entity tombstoned")));
    w.frame("w1", r#"{"op":"DeleteEntity","request_id":"c","entity":"ship"}"#);
    let m = w.recv("w1").unwrap();
    assert_eq!((m["success"].as_bool(), m["idempotent"].as_bool()), (Some(true), Some(true)));
    w.frame("mesh", &arrival("W", "[1.0,0.0]"));
    assert_eq!(w.recv("mesh").unwrap()["op"], "MeshAck");
    for op in ["AddComponent", "RemoveComponent", "UpdateComponent", "Fold", "SetComponentAuthority"] {
        w.frame(
            "w1",
            &format!("{{\"op\":\"{op}\",\"entity\":\"ship\",\"comp\":\"hp\",\"value\":1,\"region\":\"E\"}}"),
        );
    }
    w.flush();
    assert!(!w.s.entities.contains_key("ship"));
    assert!(w.s.deleted_entities.contains("ship"));
    assert!(w.s.pending_handoffs.is_empty());
}

fn assert_log_says_what_is(w: &World) {
    let back = w.recover(None);
    assert!(back.report.error.is_none());
    let found = back.store;
    assert_eq!(found.entities.keys(), w.s.entities.keys());
    for eid in w.s.entities.keys() {
        let (a, b) = (w.entity(&eid), found.entities.get(&eid).unwrap());
        assert_eq!(a.pos.json().text(), b.pos.json().text());
        assert_eq!(a.vel.json().text(), b.vel.json().text());
        assert_eq!((&a.region, a.version), (&b.region, b.version));
        assert_eq!(a.components.dup().done().text(), b.components.dup().done().text());
    }
    assert_eq!(found.tombstones.members(), w.s.deleted_entities.members());
    assert_eq!(found.recovered_pending.keys(), w.s.pending_mesh.keys());
    assert_eq!(found.recovered_id_hwm, w.s.entity_id_reservations);
}

#[test]
fn the_log_says_what_the_world_is() {
    let mut w = World::with_log();
    w.add_worker("w1", "W");
    w.add_worker("w2", "E");
    w.add_peer("mesh", "MESH", &[]);
    w.add_attribute("w1", "kernel_admin");
    w.s.mesh.insert("N");
    for eid in ["a", "b", "c"] {
        assert!(w.spawn(eid, [-4.0, 0.0], [0.0, 0.0], r#"{"hp":1}"#, Some("W")));
    }
    let mut seed: u64 = 7;
    let mut roll = |n: u64| {
        seed = seed.wrapping_mul(6364136223846793005).wrapping_add(1442695040888963407);
        (seed >> 33) % n
    };
    for round in 0..600u64 {
        let eid = ["a", "b", "c", "d", "e"][roll(5) as usize];
        let x = roll(17) as i64 - 8;
        match roll(16) {
            0..=4 => {
                w.frame("w1", &format!("{{\"op\":\"UpdateComponent\",\"entity\":\"{eid}\",\"comp\":\"pos\",\"value\":[{x},{round}]}}"));
            }
            5 => {
                w.frame("w1", &format!("{{\"op\":\"UpdateComponent\",\"entity\":\"{eid}\",\"comp\":\"vel\",\"value\":[{x},1]}}"));
            }
            6 | 7 => {
                w.frame("w1", &format!("{{\"op\":\"UpdateComponent\",\"entity\":\"{eid}\",\"comp\":\"hp\",\"value\":{round}}}"));
            }
            8 => {
                let to = if roll(2) == 0 { "W" } else { "E" };
                if let Some(from) = w.s.entities.get(eid).map(|e| e.region.clone()) {
                    w.handoff(eid, &from, to, None);
                }
            }
            9 => {
                w.flush();
                w.frame("w1", &format!("{{\"op\":\"AddComponent\",\"entity\":\"{eid}\",\"comp\":\"hp\",\"value\":{x}}}"));
            }
            10 => {
                w.flush();
                w.frame("w1", &format!("{{\"op\":\"RemoveComponent\",\"entity\":\"{eid}\",\"comp\":\"hp\"}}"));
            }
            11 => {
                w.flush();
                let (wid, to) = if roll(2) == 0 { ("w1", "E") } else { ("w2", "W") };
                w.frame(wid, &format!("{{\"op\":\"Fold\",\"entity\":\"{eid}\",\"region\":\"{to}\",\"pos\":[{x},-1]}}"));
            }
            12 => {
                w.flush();
                w.frame("w1", &format!("{{\"op\":\"SetComponentAuthority\",\"entity\":\"{eid}\",\"comp\":\"hp\",\"owner\":\"w2\"}}"));
            }
            13 => {
                w.frame("w1", &format!("{{\"op\":\"CreateEntity\",\"entity\":\"{eid}{round}\",\"components\":{{\"pos\":[{x},0]}}}}"));
                w.frame("w1", r#"{"op":"ReserveEntityIds","count":3}"#);
            }
            14 if roll(3) == 0 => {
                w.flush();
                if let Some(eid) = w.s.pending_mesh.keys().first().cloned() {
                    if roll(2) == 0 {
                        w.confirm(&eid);
                    } else {
                        let epoch = w.s.mesh_forwarded_epoch.get(&eid).copied().unwrap_or(0) + 3;
                        w.frame("mesh", &format!("{{\"op\":\"MeshHandoff\",\"entity\":\"{eid}\",\"authority_epoch\":{epoch},\"pos\":[{x},4],\"vel\":[0,1],\"components\":{{\"hp\":{round}}}}}"));
                        w.confirm(&eid);
                    }
                }
            }
            14 => {
                let ids = w.s.entities.keys();
                if ids.len() > 6 {
                    let last = ids[ids.len() - 1].clone();
                    if roll(2) == 0 {
                        w.frame("w1", &format!("{{\"op\":\"DeleteEntity\",\"entity\":\"{last}\"}}"));
                    } else {
                        w.forward(&last, "N");
                    }
                }
            }
            _ => {
                w.flush();
                assert_log_says_what_is(&w);
            }
        }
        if round % 150 == 149 {
            w.flush();
            w.s.wal.compact_bytes = 1;
            w.compact();
            assert_log_says_what_is(&w);
        }
    }
    w.flush();
    assert_log_says_what_is(&w);
    assert!(w.s.entities.len() > 3 && w.s.metrics.handoffs > 0);
}

#[test]
fn an_entity_is_in_one_place() {
    let mut w = World::with_log();
    w.add_worker("w1", "W");
    w.add_peer("mesh", "MESH", &[]);
    w.s.mesh.insert("E");
    assert!(w.spawn("ship", [-1.0, 0.0], [0.0, 0.0], "{}", Some("W")));
    w.forward("ship", "E");
    w.clear("w1");
    w.frame("w1", r#"{"op":"CreateEntity","request_id":"c","entity":"ship","components":{}}"#);
    assert_eq!(w.recv("w1").unwrap()["success"], false);
    assert!(!w.s.entities.contains_key("ship"));
    assert!(w.s.pending_mesh.contains_key("ship"));

    w.frame("mesh", &arrival("W", "[-2.0,0.0]"));
    assert!(w.s.entities.contains_key("ship"));
    assert!(!w.s.pending_mesh.contains_key("ship"));
    w.confirm("ship");
    assert!(w.recover(None).store.entities.contains_key("ship"));
    assert_log_says_what_is(&w);
}

//! What the broker says about itself: its health, the inspector's view, and draining.

use vstd::prelude::*;
use vstd::string::*;
use crate::authority::{authority_doc, authority_to_json};
use crate::commands::request_name;
use crate::control::{request_rejected, request_rejected_json};
use crate::doc::{docs, Doc, Json, Num};
use crate::float::Float;
use crate::handoff::at;
use crate::json::{map_doc, map_json, num_or, texts_doc};
use crate::leases::EGRESS_SOFT_CAP;
use crate::order::{sorted, sorted_texts};
use crate::query::{handoff_intent_to_json, intent_doc};
use crate::sight::sorted_keys;
use crate::state::{emit, worker_has_attr, ServerState, State};
use crate::strmap::{texts, Dup, StrMap};
use crate::topology::{cut_places, floats_doc, floats_json, places};

verus! {

broadcast use {crate::doc::group_json, crate::strmap::group_map};

/// What is measured outside of the broker's state.
pub struct Gauges {
    pub now_ms: u64,
    /// How late the monitor ran.
    pub tick_lag_ms: Json,
    pub lock_max_hold_ms: Json,
    pub lock_max_hold_path: String,
    pub lock_last_hold_ms: Json,
    /// The width of the band whose entities neighbours are shown.
    pub interest_band: Json,
    pub rss_bytes: u64,
}

/// `Gauges` by their views.
#[verifier::ext_equal]
pub ghost struct Readings {
    pub now_ms: u64,
    pub tick_lag_ms: Doc,
    pub lock_max_hold_ms: Doc,
    pub lock_max_hold_path: Seq<char>,
    pub lock_last_hold_ms: Doc,
    pub interest_band: Doc,
    pub rss_bytes: u64,
}

impl View for Gauges {
    type V = Readings;

    open spec fn view(&self) -> Readings {
        Readings {
            now_ms: self.now_ms,
            tick_lag_ms: self.tick_lag_ms@,
            lock_max_hold_ms: self.lock_max_hold_ms@,
            lock_max_hold_path: self.lock_max_hold_path@,
            lock_last_hold_ms: self.lock_last_hold_ms@,
            interest_band: self.interest_band@,
            rss_bytes: self.rss_bytes,
        }
    }
}

/// A number.
pub open spec fn num_doc(x: u64) -> Doc {
    Doc::Num(Num::Pos(x))
}

/// A count.
pub open spec fn count_doc(x: nat) -> Doc {
    Doc::Num(Num::Pos(x as u64))
}

impl State {
    /// In which state the broker is.
    pub open spec fn status(self) -> Seq<char> {
        if self.draining {
            "draining"@
        } else if self.wal.degraded {
            "degraded"@
        } else {
            "ok"@
        }
    }

    /// How long ago the monitor last ran; the longest time there is where it never did.
    pub open spec fn tick_age(self, now_ms: u64) -> u64 {
        if self.monitor_last_tick_ms == 0 {
            u64::MAX
        } else if now_ms >= self.monitor_last_tick_ms {
            (now_ms - self.monitor_last_tick_ms) as u64
        } else {
            0
        }
    }

    /// The members of the broker's health.
    pub open spec fn health(self, g: Readings) -> Map<Seq<char>, Doc> {
        map![
            "status"@ => Doc::Str(self.status()),
            "draining"@ => Doc::Bool(self.draining),
            "wal_degraded"@ => Doc::Bool(self.wal.degraded),
            "entity_count"@ => count_doc(self.entities.dom().len()),
            "ghost_count"@ => count_doc(self.ghosts.dom().len()),
            "worker_count"@ => count_doc(self.workers.dom().len()),
            "mesh_handoffs"@ => num_doc(self.metrics.mesh_handoffs),
            "handoffs"@ => num_doc(self.metrics.handoffs),
            "applies"@ => num_doc(self.metrics.applies),
            "failovers"@ => num_doc(self.metrics.failovers),
            "fenced_stale_handoffs"@ => num_doc(self.metrics.fenced_stale_handoffs),
            "wal_compactions"@ => num_doc(self.metrics.wal_compactions),
            "pending_mesh"@ => count_doc(self.pending_mesh.dom().len()),
            "monitor_last_tick_ms"@ => num_doc(self.monitor_last_tick_ms),
            "monitor_tick_age_ms"@ => num_doc(self.tick_age(g.now_ms)),
            "tick_lag_ms"@ => g.tick_lag_ms,
            "lock_max_hold_ms"@ => g.lock_max_hold_ms,
            "rss_bytes"@ => num_doc(g.rss_bytes),
            "wal_bytes"@ => num_doc(self.wal.bytes),
            "load_level"@ => num_doc(self.load_level as u64),
            "my_region"@ => Doc::Str(self.my_region),
            "mesh_regions"@ => texts_doc(sorted(self.mesh_regions)),
            "boundaries"@ => floats_doc(places(self.boundaries)),
            "t_server"@ => num_doc(g.now_ms)]
    }

    /// The answer to a question about the broker's health.
    pub open spec fn health_frame(self, f: Doc, g: Readings) -> Doc {
        Doc::Obj(
            self.health(g).insert("op"@, Doc::Str("HealthFrame"@)).insert(
                "request_id"@,
                Doc::Str(request_name(f)),
            ),
        )
    }
}

/// The members of the broker's health.
pub fn health_snapshot(s: &ServerState, g: &Gauges) -> (r: StrMap<Json>)
    ensures
        r@ == s@.health(g@),
{
    let status = if s.draining {
        "draining"
    } else if s.wal.degraded {
        "degraded"
    } else {
        "ok"
    };
    let age: u64 = if s.monitor_last_tick_ms == 0 {
        u64::MAX
    } else if g.now_ms >= s.monitor_last_tick_ms {
        g.now_ms - s.monitor_last_tick_ms
    } else {
        0
    };
    let regions = sorted_texts(&s.mesh_regions);
    let at = cut_places(&s.boundaries);
    StrMap::new().with("status", Json::str(status)).with("draining", Json::Bool(s.draining)).with(
        "wal_degraded",
        Json::Bool(s.wal.degraded),
    ).with("entity_count", Json::u64(s.entities.len() as u64)).with(
        "ghost_count",
        Json::u64(s.ghosts.len() as u64),
    ).with("worker_count", Json::u64(s.workers.len() as u64)).with(
        "mesh_handoffs",
        Json::u64(s.metrics.mesh_handoffs),
    ).with("handoffs", Json::u64(s.metrics.handoffs)).with("applies", Json::u64(s.metrics.applies)).with(
        "failovers",
        Json::u64(s.metrics.failovers),
    ).with("fenced_stale_handoffs", Json::u64(s.metrics.fenced_stale_handoffs)).with(
        "wal_compactions",
        Json::u64(s.metrics.wal_compactions),
    ).with("pending_mesh", Json::u64(s.pending_mesh.len() as u64)).with(
        "monitor_last_tick_ms",
        Json::u64(s.monitor_last_tick_ms),
    ).with("monitor_tick_age_ms", Json::u64(age)).with("tick_lag_ms", g.tick_lag_ms.dup()).with(
        "lock_max_hold_ms",
        g.lock_max_hold_ms.dup(),
    ).with("rss_bytes", Json::u64(g.rss_bytes)).with("wal_bytes", Json::u64(s.wal.bytes)).with(
        "load_level",
        Json::u64(s.load_level as u64),
    ).with("my_region", Json::str(s.my_region.as_str())).with("mesh_regions", Json::texts(&regions)).with(
        "boundaries",
        floats_json(&at),
    ).with("t_server", Json::u64(g.now_ms))
}

/// Answers a question about the broker's health. Anybody may ask.
pub fn handle_health(s: &mut ServerState, wid: &str, f: &Json, g: &Gauges)
    ensures
        final(s)@ == old(s)@.emitted(wid@, old(s)@.health_frame(f@, g@)),
{
    let msg = health_snapshot(s, g).with("op", Json::str("HealthFrame")).with(
        "request_id",
        Json::str(f.str_or("request_id", "")),
    ).done();
    emit(s, wid, msg);
}

/// How far a peer is behind.
pub struct Backlog {
    /// The messages that wait for it.
    pub out_queue: u64,
    /// The messages that were dropped.
    pub dropped: u64,
    /// What it may still send.
    pub ingress_tokens: Json,
}

/// A `Backlog` by its views.
#[verifier::ext_equal]
pub ghost struct Lag {
    pub out_queue: u64,
    pub dropped: u64,
    pub ingress_tokens: Doc,
}

impl View for Backlog {
    type V = Lag;

    open spec fn view(&self) -> Lag {
        Lag {
            out_queue: self.out_queue,
            dropped: self.dropped,
            ingress_tokens: self.ingress_tokens@,
        }
    }
}

/// How far a peer is behind; not at all where nothing is known.
pub open spec fn lag_of(m: Map<Seq<char>, Lag>, wid: Seq<char>) -> Lag {
    if m.contains_key(wid) {
        m[wid]
    } else {
        Lag { out_queue: 0, dropped: 0, ingress_tokens: Doc::Null }
    }
}

impl State {
    /// The load that a worker last reported; none is zero.
    pub open spec fn load_doc(self, wid: Seq<char>) -> Doc {
        Doc::Num(Num::Float(num_or(at(self.worker_load, wid), 0)))
    }

    /// A region as the inspector sees it.
    pub open spec fn zone_row(self, region: Seq<char>) -> Doc {
        Doc::Obj(
            map![
                "region"@ => Doc::Str(region),
                "worker"@ => Doc::Str(self.region_worker[region]),
                "load"@ => self.load_doc(self.region_worker[region]),
                "splits"@ => match at(self.splits, region) {
                    Some(v) => floats_doc(v),
                    None => Doc::Null,
                }],
        )
    }

    /// A peer as the inspector sees it.
    pub open spec fn peer_row(self, wid: Seq<char>, lags: Map<Seq<char>, Lag>) -> Doc {
        let w = self.workers[wid];
        let lag = lag_of(lags, wid);
        Doc::Obj(
            map![
                "worker_id"@ => Doc::Str(wid),
                "region"@ => Doc::Str(w.region),
                "view_count"@ => count_doc(w.view.len()),
                "attributes"@ => texts_doc(sorted(w.attributes)),
                "load"@ => self.load_doc(wid),
                "out_queue"@ => num_doc(lag.out_queue),
                "dropped"@ => num_doc(lag.dropped),
                "ingress_tokens"@ => lag.ingress_tokens,
                "ingress_rejected"@ => num_doc(w.ingress_rejected),
                "slow_consumer"@ => Doc::Bool(lag.out_queue > EGRESS_SOFT_CAP)],
        )
    }

    /// An entity as the inspector sees it.
    pub open spec fn seen_entity(self, eid: Seq<char>) -> Doc {
        let e = self.entities[eid];
        let a = map![
            "entity"@ => Doc::Str(eid),
            "region"@ => Doc::Str(e.region),
            "pos"@ => e.pos.doc(),
            "authority"@ => authority_doc(e.authority)];
        let b = match at(e.components, "gen"@) {
            Some(g) => a.insert("gen"@, g),
            None => a,
        };
        let c = match at(e.components, "sim_time"@) {
            Some(t) => b.insert("sim_time"@, t),
            None => b,
        };
        match at(self.pending_handoff_intent, eid) {
            Some(i) => Doc::Obj(c.insert("handoff_intent"@, intent_doc(i))),
            None => Doc::Obj(c),
        }
    }

    /// A mirror as the inspector sees it.
    pub open spec fn seen_mirror(self, eid: Seq<char>) -> Doc {
        let g = self.ghosts[eid];
        Doc::Obj(
            map![
                "entity"@ => Doc::Str(eid),
                "region"@ => Doc::Str(g.owner_region),
                "pos"@ => g.pos.doc(),
                "authority"@ => Doc::Obj(Map::empty()),
                "ghost"@ => Doc::Bool(true),
                "owner_region"@ => Doc::Str(g.owner_region)],
        )
    }

    /// What the inspector sees of the world: entities, then mirrors, as many as were
    /// asked for.
    pub open spec fn seen_rows(self, cap: u64) -> Seq<Doc> {
        let all = sorted(self.entities.dom()).map_values(|k: Seq<char>| self.seen_entity(k))
            + sorted(self.ghosts.dom()).map_values(|k: Seq<char>| self.seen_mirror(k));
        if all.len() <= cap {
            all
        } else {
            all.take(cap as int)
        }
    }

    /// The last rejections, the newest first.
    pub open spec fn recent_rejected(self) -> Seq<Doc> {
        let k = if self.rejected.len() <= 20 {
            self.rejected.len()
        } else {
            20
        };
        Seq::new(k, |i: int| self.rejected[self.rejected.len() - 1 - i])
    }

    /// The inspector's part about the broker itself.
    pub open spec fn broker_doc(self, g: Readings) -> Doc {
        Doc::Obj(
            map![
                "entity_count"@ => count_doc(self.entities.dom().len()),
                "handoffs"@ => num_doc(self.metrics.handoffs),
                "mesh_handoffs"@ => num_doc(self.metrics.mesh_handoffs),
                "applies"@ => num_doc(self.metrics.applies),
                "failovers"@ => num_doc(self.metrics.failovers),
                "boundary"@ => Doc::Num(Num::Float(self.boundary)),
                "boundaries"@ => floats_doc(places(self.boundaries)),
                "lock_max_hold_ms"@ => g.lock_max_hold_ms,
                "lock_max_hold_path"@ => Doc::Str(g.lock_max_hold_path),
                "lock_last_hold_ms"@ => g.lock_last_hold_ms,
                "load_level"@ => num_doc(self.load_level as u64),
                "my_region"@ => Doc::Str(self.my_region),
                "region_lease_epoch"@ => map_doc::<u64>(self.region_lease_epoch),
                "superseded_regions"@ => texts_doc(sorted(self.superseded_regions)),
                "fenced_stale_handoffs"@ => num_doc(self.metrics.fenced_stale_handoffs),
                "ghosts"@ => count_doc(self.ghosts.dom().len()),
                "interest_band"@ => g.interest_band,
                "tick_lag_ms"@ => g.tick_lag_ms,
                "rss_bytes"@ => num_doc(g.rss_bytes),
                "wal_bytes"@ => num_doc(self.wal.bytes),
                "draining"@ => Doc::Bool(self.draining),
                "pending_mesh"@ => count_doc(self.pending_mesh.dom().len())],
        )
    }

    /// What the inspector is sent.
    pub open spec fn inspector_frame(
        self,
        f: Doc,
        g: Readings,
        lags: Map<Seq<char>, Lag>,
    ) -> Doc {
        let cap = num_or(f.get_u64("max_entities"@), 1000);
        Doc::Obj(
            map![
                "op"@ => Doc::Str("InspectorFrame"@),
                "request_id"@ => Doc::Str(request_name(f)),
                "t_server"@ => num_doc(g.now_ms),
                "broker"@ => self.broker_doc(g),
                "zones"@ => Doc::Arr(
                    sorted(self.region_worker.dom()).map_values(|r: Seq<char>| self.zone_row(r)),
                ),
                "workers"@ => Doc::Arr(
                    sorted(self.workers.dom()).map_values(|w: Seq<char>| self.peer_row(w, lags)),
                ),
                "entities"@ => Doc::Arr(self.seen_rows(cap)),
                "entities_capped"@ => Doc::Bool(self.entities.dom().len() > cap),
                "pending"@ => Doc::Obj(
                    map![
                        "mesh"@ => count_doc(self.pending_mesh.dom().len()),
                        "handoff_intent"@ => count_doc(self.pending_handoff_intent.dom().len())],
                ),
                "recent_rejected"@ => Doc::Arr(self.recent_rejected())],
        )
    }
}

fn load_json(s: &ServerState, wid: &str) -> (r: Json)
    ensures
        r@ == s@.load_doc(wid@),
{
    match s.worker_load.get(wid) {
        Some(l) => l.json(),
        None => Float::zero().json(),
    }
}

fn zone_rows(s: &ServerState) -> (r: Json)
    ensures
        r@ == Doc::Arr(
            sorted(s@.region_worker.dom()).map_values(|r: Seq<char>| s@.zone_row(r)),
        ),
{
    let ids = sorted_keys(&s.region_worker);
    let ghost all = texts(ids@);
    let mut rows: Vec<Json> = Vec::new();
    let mut i: usize = 0;
    while i < ids.len()
        invariant
            i <= ids.len(),
            rows.len() == i,
            all == texts(ids@),
            all.to_set() == s@.region_worker.dom(),
            forall|j: int| 0 <= j < i ==> (#[trigger] rows@[j])@ == s@.zone_row(all[j]),
        decreases ids.len() - i,
    {
        let region = ids[i].as_str();
        proof {
            assert(all[i as int] == region@);
            assert(all.to_set().contains(region@));
        }
        let splits = match s.splits.get(region) {
            Some(v) => {
                proof {
                    assert(v@ =~= crate::float::all_bits(v.0@));
                }
                floats_json(&v.0)
            },
            None => Json::Null,
        };
        if let Some(w) = s.region_worker.get(region) {
            rows.push(
                StrMap::new().with("region", Json::str(region)).with("worker", Json::str(w.as_str())).with(
                    "load",
                    load_json(s, w.as_str()),
                ).with("splits", splits).done(),
            );
        }
        i = i + 1;
    }
    proof {
        assert(docs(rows@) =~= all.map_values(|r: Seq<char>| s@.zone_row(r)));
    }
    Json::Arr(rows)
}

fn peer_rows(s: &ServerState, lags: &StrMap<Backlog>) -> (r: Json)
    ensures
        r@ == Doc::Arr(
            sorted(s@.workers.dom()).map_values(|w: Seq<char>| s@.peer_row(w, lags@)),
        ),
{
    let ids = sorted_keys(&s.workers);
    let ghost all = texts(ids@);
    let mut rows: Vec<Json> = Vec::new();
    let mut i: usize = 0;
    while i < ids.len()
        invariant
            i <= ids.len(),
            rows.len() == i,
            all == texts(ids@),
            all.to_set() == s@.workers.dom(),
            forall|j: int| 0 <= j < i ==> (#[trigger] rows@[j])@ == s@.peer_row(all[j], lags@),
        decreases ids.len() - i,
    {
        let wid = ids[i].as_str();
        proof {
            assert(all[i as int] == wid@);
            assert(all.to_set().contains(wid@));
        }
        let (out_queue, dropped, tokens): (u64, u64, Json) = match lags.get(wid) {
            Some(b) => (b.out_queue, b.dropped, b.ingress_tokens.dup()),
            None => (0, 0, Json::Null),
        };
        if let Some(w) = s.workers.get(wid) {
            let attrs = sorted_texts(&w.attributes);
            rows.push(
                StrMap::new().with("worker_id", Json::str(wid)).with(
                    "region",
                    Json::str(w.region.as_str()),
                ).with("view_count", Json::u64(w.view.len() as u64)).with(
                    "attributes",
                    Json::texts(&attrs),
                ).with("load", load_json(s, wid)).with("out_queue", Json::u64(out_queue)).with(
                    "dropped",
                    Json::u64(dropped),
                ).with("ingress_tokens", tokens).with(
                    "ingress_rejected",
                    Json::u64(w.ingress_rejected),
                ).with("slow_consumer", Json::Bool(out_queue > EGRESS_SOFT_CAP)).done(),
            );
        }
        i = i + 1;
    }
    proof {
        assert(docs(rows@) =~= all.map_values(|w: Seq<char>| s@.peer_row(w, lags@)));
    }
    Json::Arr(rows)
}

fn entity_row_json(s: &ServerState, eid: &str) -> (r: Json)
    requires
        s@.entities.contains_key(eid@),
    ensures
        r@ == s@.seen_entity(eid@),
{
    let mut row: StrMap<Json> = StrMap::new();
    if let Some(e) = s.entities.get(eid) {
        row = StrMap::new().with("entity", Json::str(eid)).with("region", Json::str(e.region.as_str())).with(
            "pos",
            e.pos.json(),
        ).with("authority", authority_to_json(&e.authority));
        if let Some(g) = e.components.get("gen") {
            row.insert("gen", g.dup());
        }
        if let Some(t) = e.components.get("sim_time") {
            row.insert("sim_time", t.dup());
        }
    }
    if let Some(i) = s.pending_handoff_intent.get(eid) {
        row.insert("handoff_intent", handoff_intent_to_json(i));
    }
    row.done()
}

fn seen_rows_json(s: &ServerState, cap: u64) -> (r: Vec<Json>)
    ensures
        docs(r@) == s@.seen_rows(cap),
{
    let ids = sorted_keys(&s.entities);
    let gids = sorted_keys(&s.ghosts);
    let ghost all = texts(ids@);
    let ghost mirrors = texts(gids@);
    let ghost first = all.map_values(|k: Seq<char>| s@.seen_entity(k));
    let ghost second = mirrors.map_values(|k: Seq<char>| s@.seen_mirror(k));
    let mut rows: Vec<Json> = Vec::new();
    let mut i: usize = 0;
    while i < ids.len() && (rows.len() as u64) < cap
        invariant
            i <= ids.len(),
            rows.len() == i,
            i <= cap,
            all == texts(ids@),
            all.to_set() == s@.entities.dom(),
            forall|j: int| 0 <= j < i ==> (#[trigger] rows@[j])@ == s@.seen_entity(all[j]),
        decreases ids.len() - i,
    {
        let eid = ids[i].as_str();
        proof {
            assert(all[i as int] == eid@);
            assert(all.to_set().contains(eid@));
        }
        rows.push(entity_row_json(s, eid));
        i = i + 1;
    }
    let mut k: usize = 0;
    let ghost done = i;
    while k < gids.len() && (rows.len() as u64) < cap
        invariant
            k <= gids.len(),
            done <= ids.len(),
            rows.len() == done + k,
            done + k <= cap,
            k > 0 ==> done == ids.len(),
            done < ids.len() ==> done == cap,
            all == texts(ids@),
            mirrors == texts(gids@),
            mirrors.to_set() == s@.ghosts.dom(),
            forall|j: int| 0 <= j < done ==> (#[trigger] rows@[j])@ == s@.seen_entity(all[j]),
            forall|j: int|
                0 <= j < k ==> (#[trigger] rows@[done + j])@ == s@.seen_mirror(mirrors[j]),
        decreases gids.len() - k,
    {
        let eid = gids[k].as_str();
        proof {
            assert(mirrors[k as int] == eid@);
            assert(mirrors.to_set().contains(eid@));
        }
        let ghost was = rows@;
        if let Some(g) = s.ghosts.get(eid) {
            rows.push(
                StrMap::new().with("entity", Json::str(eid)).with(
                    "region",
                    Json::str(g.owner_region.as_str()),
                ).with("pos", g.pos.json()).with("authority", StrMap::new().done()).with(
                    "ghost",
                    Json::Bool(true),
                ).with("owner_region", Json::str(g.owner_region.as_str())).done(),
            );
        }
        k = k + 1;
        proof {
            assert forall|j: int| 0 <= j < k implies (#[trigger] rows@[done + j])@ == s@.seen_mirror(
                mirrors[j],
            ) by {
                if j < k - 1 {
                    assert(rows@[done + j] == was[done + j]);
                }
            }
        }
    }
    proof {
        let both = first + second;
        assert(first.len() == ids.len() && second.len() == gids.len());
        assert(docs(rows@) =~= s@.seen_rows(cap)) by {
            assert forall|j: int| 0 <= j < rows@.len() implies #[trigger] docs(rows@)[j] == both[j] by {
                if j < done {
                    assert(rows@[j]@ == s@.seen_entity(all[j]));
                } else {
                    assert(rows@[done + (j - done)]@ == s@.seen_mirror(mirrors[j - done]));
                }
            }
        }
    }
    rows
}

fn recent_rejected_json(s: &ServerState) -> (r: Vec<Json>)
    ensures
        docs(r@) == s@.recent_rejected(),
{
    let mut rows: Vec<Json> = Vec::new();
    let len: usize = s.rejected.len();
    let k: usize = if len <= 20 {
        len
    } else {
        20
    };
    let mut i: usize = 0;
    while i < k
        invariant
            i <= k <= len,
            len == s.rejected.len(),
            rows.len() == i,
            forall|j: int| 0 <= j < i ==> (#[trigger] rows@[j])@ == s.rejected@[len - 1 - j]@,
        decreases k - i,
    {
        rows.push(s.rejected[len - 1 - i].dup());
        i = i + 1;
    }
    proof {
        assert(docs(rows@) =~= s@.recent_rejected());
    }
    rows
}

fn broker_json(s: &ServerState, g: &Gauges) -> (r: Json)
    ensures
        r@ == s@.broker_doc(g@),
{
    let at = cut_places(&s.boundaries);
    let gone = sorted_texts(&s.superseded_regions);
    StrMap::new().with("entity_count", Json::u64(s.entities.len() as u64)).with(
        "handoffs",
        Json::u64(s.metrics.handoffs),
    ).with("mesh_handoffs", Json::u64(s.metrics.mesh_handoffs)).with(
        "applies",
        Json::u64(s.metrics.applies),
    ).with("failovers", Json::u64(s.metrics.failovers)).with("boundary", s.boundary.json()).with(
        "boundaries",
        floats_json(&at),
    ).with("lock_max_hold_ms", g.lock_max_hold_ms.dup()).with(
        "lock_max_hold_path",
        Json::str(g.lock_max_hold_path.as_str()),
    ).with("lock_last_hold_ms", g.lock_last_hold_ms.dup()).with(
        "load_level",
        Json::u64(s.load_level as u64),
    ).with("my_region", Json::str(s.my_region.as_str())).with(
        "region_lease_epoch",
        map_json(&s.region_lease_epoch),
    ).with("superseded_regions", Json::texts(&gone)).with(
        "fenced_stale_handoffs",
        Json::u64(s.metrics.fenced_stale_handoffs),
    ).with("ghosts", Json::u64(s.ghosts.len() as u64)).with("interest_band", g.interest_band.dup()).with(
        "tick_lag_ms",
        g.tick_lag_ms.dup(),
    ).with("rss_bytes", Json::u64(g.rss_bytes)).with("wal_bytes", Json::u64(s.wal.bytes)).with(
        "draining",
        Json::Bool(s.draining),
    ).with("pending_mesh", Json::u64(s.pending_mesh.len() as u64)).done()
}

/// Answers an inspector. Others are refused.
pub fn handle_inspector_query(
    s: &mut ServerState,
    wid: &str,
    f: &Json,
    g: &Gauges,
    lags: &StrMap<Backlog>,
)
    ensures
        final(s)@ == old(s)@.emitted(
            wid@,
            if old(s)@.has_attr(wid@, "inspector"@) {
                old(s)@.inspector_frame(f@, g@, lags@)
            } else {
                request_rejected(
                    request_name(f@),
                    "InspectorQuery requires the inspector attribute"@,
                )
            },
        ),
{
    let req = f.str_or("request_id", "");
    if !worker_has_attr(s, wid, "inspector") {
        let msg = request_rejected_json(req, "InspectorQuery requires the inspector attribute");
        emit(s, wid, msg);
        return;
    }
    let cap: u64 = f.u64_or("max_entities", 1000);
    let pending = StrMap::new().with("mesh", Json::u64(s.pending_mesh.len() as u64)).with(
        "handoff_intent",
        Json::u64(s.pending_handoff_intent.len() as u64),
    ).done();
    let rows = seen_rows_json(s, cap);
    let rejected = recent_rejected_json(s);
    let msg = StrMap::new().with("op", Json::str("InspectorFrame")).with("request_id", Json::str(req)).with(
        "t_server",
        Json::u64(g.now_ms),
    ).with("broker", broker_json(s, g)).with("zones", zone_rows(s)).with("workers", peer_rows(s, lags)).with(
        "entities",
        Json::Arr(rows),
    ).with("entities_capped", Json::Bool(s.entities.len() as u64 > cap)).with("pending", pending).with(
        "recent_rejected",
        Json::Arr(rejected),
    ).done();
    emit(s, wid, msg);
}

impl State {
    /// Whether a peer may have the broker drained.
    pub open spec fn may_drain(self, wid: Seq<char>) -> bool {
        self.has_attr(wid, "kernel_admin"@) || self.has_attr(wid, "inspector"@) || self.has_attr(
            wid,
            "ops"@,
        )
    }

    /// The state after a request to drain the broker.
    pub open spec fn drain_begun(self, wid: Seq<char>, f: Doc) -> State {
        if self.may_drain(wid) {
            State {
                draining: true,
                drain_exit: match f.get("exit"@) {
                    Some(Doc::Bool(b)) => b,
                    _ => self.drain_exit,
                },
                ..self
            }
        } else {
            self.emitted(
                wid,
                request_rejected(
                    request_name(f),
                    "Drain requires the kernel_admin/inspector/ops attribute"@,
                ),
            )
        }
    }

    /// The answer to a request to drain the broker, once its entities were sent off.
    pub open spec fn drain_ack(self, f: Doc, dispatched: u64) -> Doc {
        Doc::Obj(
            map![
                "op"@ => Doc::Str("DrainAck"@),
                "request_id"@ => Doc::Str(request_name(f)),
                "draining"@ => Doc::Bool(true),
                "dispatched"@ => num_doc(dispatched),
                "remaining_local"@ => count_doc(self.entities.dom().len()),
                "pending_mesh"@ => count_doc(self.pending_mesh.dom().len()),
                "drain_exit"@ => Doc::Bool(self.drain_exit),
                "no_neighbour"@ => Doc::Bool(self.mesh.len() == 0)],
        )
    }

    /// Whether a broker that drains is done: nothing is here, nothing is on its way, and
    /// there is somebody who took it.
    pub open spec fn is_drained(self) -> bool {
        self.draining && self.entities.dom().len() == 0 && self.pending_mesh.dom().len() == 0
            && self.mesh.len() > 0
    }
}

/// Takes a request to drain the broker, and says whether its entities are to be sent
/// off.
pub fn begin_drain(s: &mut ServerState, wid: &str, f: &Json) -> (r: bool)
    ensures
        r == old(s)@.may_drain(wid@),
        final(s)@ == old(s)@.drain_begun(wid@, f@),
{
    if !worker_has_attr(s, wid, "kernel_admin") && !worker_has_attr(s, wid, "inspector")
        && !worker_has_attr(s, wid, "ops") {
        let msg = request_rejected_json(
            f.str_or("request_id", ""),
            "Drain requires the kernel_admin/inspector/ops attribute",
        );
        emit(s, wid, msg);
        return false;
    }
    if let Some(e) = f.get("exit") {
        if let Some(b) = e.as_bool() {
            s.drain_exit = b;
        }
    }
    s.draining = true;
    true
}

/// Answers a request to drain the broker.
pub fn finish_drain(s: &mut ServerState, wid: &str, f: &Json, dispatched: u64)
    ensures
        final(s)@ == old(s)@.emitted(wid@, old(s)@.drain_ack(f@, dispatched)),
{
    let msg = StrMap::new().with("op", Json::str("DrainAck")).with(
        "request_id",
        Json::str(f.str_or("request_id", "")),
    ).with("draining", Json::Bool(true)).with("dispatched", Json::u64(dispatched)).with(
        "remaining_local",
        Json::u64(s.entities.len() as u64),
    ).with("pending_mesh", Json::u64(s.pending_mesh.len() as u64)).with(
        "drain_exit",
        Json::Bool(s.drain_exit),
    ).with("no_neighbour", Json::Bool(s.mesh.len() == 0)).done();
    emit(s, wid, msg);
}

/// Whether a broker that drains is done, and ends.
pub fn drain_is_complete(s: &ServerState) -> (r: bool)
    ensures
        r == (s@.is_drained() && s@.drain_exit),
{
    s.draining && s.entities.len() == 0 && s.pending_mesh.len() == 0 && s.mesh.len() > 0
        && s.drain_exit
}

/// A broker that drains takes no new entities.
pub proof fn law_draining_creates_nothing(s: State, wid: Seq<char>, f: Doc, other: Seq<char>, g: Doc)
    requires
        s.may_drain(wid),
    ensures
        !s.drain_begun(wid, f).creates(other, g),
{
}

}

//! How the broker describes its space: the schema, the partition, and the cut that a
//! snapshot is.

use vstd::prelude::*;
use vstd::string::*;
use vstd::utf8::encode_utf8;
use crate::commands::request_name;
use crate::control::{request_rejected, request_rejected_json};
use crate::doc::{docs, Doc, Json, Num};
use crate::entity::{Ent, Entity};
use crate::float::Float;
use crate::json::text_or;
use crate::order::sorted;
use crate::sight::sorted_keys;
use crate::state::{emit, Parked, ServerState, State, WalStatus};
use crate::strmap::{texts, StrMap};
use crate::text::{decimal, u64_text};
use crate::topology::{cut_places, floats_doc, floats_json, places};

verus! {

broadcast use {crate::doc::group_json, crate::strmap::group_map};

impl State {
    /// The kind and the size of the partition.
    pub open spec fn partition_schema(self) -> Doc {
        match self.grid2d {
            Some(g) => Doc::Obj(
                map![
                    "kind"@ => Doc::Str("grid2d"@),
                    "cols"@ => Doc::Num(Num::Pos(g.cols)),
                    "rows"@ => Doc::Num(Num::Pos(g.rows))],
            ),
            None => Doc::Obj(
                map![
                    "kind"@ => Doc::Str("strip1d"@),
                    "boundary_count"@ => Doc::Num(Num::Pos(self.boundaries.len() as u64))],
            ),
        }
    }

    /// The schema of the space.
    pub open spec fn spatial_schema(self) -> Doc {
        Doc::Obj(
            map![
                "spatial_dim"@ => Doc::Str("D2"@),
                "coordinate_codec"@ => Doc::Str("debug_f64_2"@),
                "partition_schema"@ => self.partition_schema()],
        )
    }

    /// The splits of a region, as a document.
    pub open spec fn split_row(self, region: Seq<char>) -> Doc {
        Doc::Obj(
            map![
                "region"@ => Doc::Str(region),
                "boundaries"@ => floats_doc(self.splits[region])],
        )
    }

    /// The partition in full: enough to route by it.
    pub open spec fn partition_map(self) -> Doc {
        match self.grid2d {
            Some(g) => Doc::Obj(
                map![
                    "version"@ => Doc::Num(Num::Pos(self.zone_topology_rev)),
                    "kind"@ => Doc::Str("grid2d"@),
                    "cols"@ => Doc::Num(Num::Pos(g.cols)),
                    "rows"@ => Doc::Num(Num::Pos(g.rows)),
                    "cell_w"@ => Doc::Num(Num::Float(g.cell_w)),
                    "cell_h"@ => Doc::Num(Num::Float(g.cell_h)),
                    "origin"@ => floats_doc(seq![0u64, 0u64])],
            ),
            None => Doc::Obj(
                map![
                    "version"@ => Doc::Num(Num::Pos(self.zone_topology_rev)),
                    "kind"@ => Doc::Str("strip1d"@),
                    "boundaries"@ => floats_doc(places(self.boundaries)),
                    "splits"@ => Doc::Arr(
                        sorted(self.splits.dom()).map_values(|r: Seq<char>| self.split_row(r)),
                    )],
            ),
        }
    }
}

/// The kind and the size of the partition.
pub fn partition_schema_contract_value(s: &ServerState) -> (r: Json)
    ensures
        r@ == s@.partition_schema(),
{
    match &s.grid2d {
        Some(g) => StrMap::new().with("kind", Json::str("grid2d")).with("cols", Json::u64(g.cols)).with(
            "rows",
            Json::u64(g.rows),
        ).done(),
        None => StrMap::new().with("kind", Json::str("strip1d")).with(
            "boundary_count",
            Json::u64(s.boundaries.len() as u64),
        ).done(),
    }
}

/// The schema of the space.
pub fn spatial_schema_contract(s: &ServerState) -> (r: Json)
    ensures
        r@ == s@.spatial_schema(),
{
    StrMap::new().with("spatial_dim", Json::str("D2")).with(
        "coordinate_codec",
        Json::str("debug_f64_2"),
    ).with("partition_schema", partition_schema_contract_value(s)).done()
}

/// The partition in full.
pub fn partition_map_contract(s: &ServerState) -> (r: Json)
    ensures
        r@ == s@.partition_map(),
{
    if let Some(g) = &s.grid2d {
        let mut origin: Vec<Float> = Vec::new();
        origin.push(Float::zero());
        origin.push(Float::zero());
        proof {
            assert(crate::float::all_bits(origin@) =~= seq![0u64, 0u64]);
        }
        return StrMap::new().with("version", Json::u64(s.zone_topology_rev)).with(
            "kind",
            Json::str("grid2d"),
        ).with("cols", Json::u64(g.cols)).with("rows", Json::u64(g.rows)).with(
            "cell_w",
            g.cell_w.json(),
        ).with("cell_h", g.cell_h.json()).with("origin", floats_json(&origin)).done();
    }
    let ids = sorted_keys(&s.splits);
    let ghost all = texts(ids@);
    let mut rows: Vec<Json> = Vec::new();
    let mut i: usize = 0;
    while i < ids.len()
        invariant
            i <= ids.len(),
            rows.len() == i,
            all == texts(ids@),
            all.to_set() == s@.splits.dom(),
            forall|j: int| 0 <= j < i ==> (#[trigger] rows@[j])@ == s@.split_row(all[j]),
        decreases ids.len() - i,
    {
        let region = ids[i].as_str();
        proof {
            assert(all[i as int] == region@);
            assert(all.to_set().contains(region@));
        }
        if let Some(subs) = s.splits.get(region) {
            proof {
                assert(subs@ =~= crate::float::all_bits(subs.0@));
            }
            rows.push(
                StrMap::new().with("region", Json::str(region)).with(
                    "boundaries",
                    floats_json(&subs.0),
                ).done(),
            );
        }
        i = i + 1;
    }
    proof {
        assert(docs(rows@) =~= all.map_values(|r: Seq<char>| s@.split_row(r)));
    }
    let at = cut_places(&s.boundaries);
    StrMap::new().with("version", Json::u64(s.zone_topology_rev)).with("kind", Json::str("strip1d")).with(
        "boundaries",
        floats_json(&at),
    ).with("splits", Json::Arr(rows)).done()
}

/// A hash continued by some bytes.
pub open spec fn fnv(h: u64, bytes: Seq<u8>) -> u64
    decreases bytes.len(),
{
    if bytes.len() == 0 {
        h
    } else {
        (fnv(h, bytes.drop_last()) ^ (bytes.last() as u64)).wrapping_mul(0x100000001b3)
    }
}

fn fnv_text(h: u64, t: &str) -> (r: u64)
    ensures
        r == fnv(h, encode_utf8(t@)),
{
    let bytes = t.as_bytes();
    let mut acc: u64 = h;
    let mut i: usize = 0;
    proof {
        assert(bytes@.take(0) =~= Seq::empty());
    }
    while i < bytes.len()
        invariant
            i <= bytes.len(),
            acc == fnv(h, bytes@.take(i as int)),
        decreases bytes.len() - i,
    {
        proof {
            assert(bytes@.take(i + 1).drop_last() =~= bytes@.take(i as int));
            assert(bytes@.take(i + 1).last() == bytes@[i as int]);
        }
        acc = (acc ^ (bytes[i] as u64)).wrapping_mul(0x100000001b3);
        i = i + 1;
    }
    proof {
        assert(bytes@.take(i as int) =~= bytes@);
    }
    acc
}

/// A hash continued by an entity: its name, and the epoch and the owner of its
/// position.
pub open spec fn fnv_entity(h: u64, eid: Seq<char>, e: Ent) -> u64 {
    let a = fnv(h, encode_utf8(eid));
    if e.authority.contains_key("pos"@) {
        let ca = e.authority["pos"@];
        let b = a.wrapping_add(ca.epoch);
        match ca.owner {
            Some(o) => fnv(b, encode_utf8(o)),
            None => b,
        }
    } else {
        a
    }
}

/// The hash of who holds what, of the entities with these names.
pub open spec fn authority_hash(m: Map<Seq<char>, Ent>, names: Seq<Seq<char>>) -> u64
    decreases names.len(),
{
    if names.len() == 0 {
        0xcbf29ce484222325
    } else {
        fnv_entity(authority_hash(m, names.drop_last()), names.last(), m[names.last()])
    }
}

/// The hash of who holds what.
pub fn snapshot_authority_hash(entities: &StrMap<Entity>) -> (r: u64)
    ensures
        r == authority_hash(entities@, sorted(entities@.dom())),
{
    let ids = sorted_keys(entities);
    let ghost all = texts(ids@);
    let mut acc: u64 = 0xcbf29ce484222325;
    let mut i: usize = 0;
    proof {
        assert(all.take(0) =~= Seq::empty());
    }
    while i < ids.len()
        invariant
            i <= ids.len(),
            all == texts(ids@),
            all.to_set() == entities@.dom(),
            acc == authority_hash(entities@, all.take(i as int)),
        decreases ids.len() - i,
    {
        let eid = ids[i].as_str();
        proof {
            assert(all.take(i + 1).drop_last() =~= all.take(i as int));
            assert(all.take(i + 1).last() == eid@);
            assert(all[i as int] == eid@);
            assert(all.to_set().contains(eid@));
        }
        acc = fnv_text(acc, eid);
        if let Some(e) = entities.get(eid) {
            if let Some(ca) = e.authority.get("pos") {
                acc = acc.wrapping_add(ca.epoch);
                if let Some(o) = &ca.owner {
                    acc = fnv_text(acc, o.as_str());
                }
            }
        }
        i = i + 1;
    }
    proof {
        assert(all.take(i as int) =~= all);
    }
    acc
}

impl State {
    /// Whether a peer may take a snapshot.
    pub open spec fn may_snapshot(self, wid: Seq<char>) -> bool {
        self.has_attr(wid, "snapshot"@) || self.has_attr(wid, "inspector"@) || self.has_attr(
            wid,
            "kernel_admin"@,
        )
    }
}

/// Whether a peer may take a snapshot; one that may not is told.
pub fn admit_snapshot(s: &mut ServerState, wid: &str, f: &Json) -> (r: bool)
    ensures
        r == old(s)@.may_snapshot(wid@),
        final(s)@ == if old(s)@.may_snapshot(wid@) {
            old(s)@
        } else {
            old(s)@.emitted(
                wid@,
                request_rejected(
                    request_name(f@),
                    "SnapshotMarker requires the snapshot/inspector/kernel_admin attribute"@,
                ),
            )
        },
{
    let ok: bool = match s.workers.get(wid) {
        Some(w) => w.attributes.contains("snapshot") || w.attributes.contains("inspector")
            || w.attributes.contains("kernel_admin"),
        None => false,
    };
    if !ok {
        let msg = request_rejected_json(
            f.str_or("request_id", ""),
            "SnapshotMarker requires the snapshot/inspector/kernel_admin attribute",
        );
        emit(s, wid, msg);
    }
    ok
}

/// The event that marks a snapshot.
pub open spec fn marker_event(f: Doc, now_ms: u64) -> Doc {
    Doc::Obj(
        map![
            "kind"@ => Doc::Str("snapshot_marker"@),
            "snapshot_id"@ => Doc::Str(text_or(f.get_str("snapshot_id"@), ""@)),
            "t"@ => Doc::Num(Num::Pos(now_ms))],
    )
}

/// Plans the snapshot of a broker whose queues were flushed: the marker that goes to
/// the log. With a log that failed there is no snapshot.
pub fn plan_snapshot(s: &mut ServerState, wid: &str, f: &Json, now_ms: u64) -> (r: Option<Json>)
    ensures
        if old(s)@.wal.degraded {
            &&& r is None
            &&& final(s)@ == old(s)@.emitted(
                wid@,
                request_rejected(
                    request_name(f@),
                    "wal_degraded: snapshot cut cannot be made while durable queues are unflushed"@,
                ),
            )
        } else {
            &&& crate::json::opt_json(r) == Some(marker_event(f@, now_ms))
            &&& final(s)@ == old(s)@
        },
{
    if s.wal.degraded {
        let msg = request_rejected_json(
            f.str_or("request_id", ""),
            "wal_degraded: snapshot cut cannot be made while durable queues are unflushed",
        );
        emit(s, wid, msg);
        return None;
    }
    Some(
        StrMap::new().with("kind", Json::str("snapshot_marker")).with(
            "snapshot_id",
            Json::str(f.str_or("snapshot_id", "")),
        ).with("t", Json::u64(now_ms)).done(),
    )
}

/// A departure that nobody confirmed, as a row.
pub open spec fn in_flight_row(eid: Seq<char>, p: Parked) -> Doc {
    Doc::Obj(
        map![
            "entity"@ => Doc::Str(eid),
            "target"@ => Doc::Str(p.target),
            "type"@ => Doc::Str("MeshHandoff"@)],
    )
}

/// What a broker knows of itself beside its state.
pub struct Identity {
    pub broker_id: String,
    /// The version of the registry of components.
    pub component_registry_version: u64,
}

impl State {
    /// What is on its way to neighbours.
    pub open spec fn in_flight(self) -> Doc {
        Doc::Arr(
            sorted(self.pending_mesh.dom()).map_values(
                |k: Seq<char>| in_flight_row(k, self.pending_mesh[k]),
            ),
        )
    }

    /// What a snapshot is: where in the log it lies, and what the world was then.
    pub open spec fn manifest(
        self,
        f: Doc,
        broker_id: Seq<char>,
        registry_version: u64,
        now_ms: u64,
    ) -> Doc {
        Doc::Obj(
            map![
                "op"@ => Doc::Str("SnapshotManifest"@),
                "request_id"@ => Doc::Str(request_name(f)),
                "snapshot_id"@ => Doc::Str(text_or(f.get_str("snapshot_id"@), ""@)),
                "snapshot_manifest_version"@ => Doc::Num(Num::Pos(1)),
                "snapshot_schema_version"@ => Doc::Num(Num::Pos(1)),
                "spatial_schema_version"@ => Doc::Num(Num::Pos(1)),
                "coordinate_codec_version"@ => Doc::Num(Num::Pos(1)),
                "component_registry_version"@ => Doc::Num(Num::Pos(registry_version)),
                "partition_map_version"@ => Doc::Num(Num::Pos(self.zone_topology_rev)),
                "spatial_schema"@ => self.spatial_schema(),
                "partition_map"@ => self.partition_map(),
                "broker_id"@ => Doc::Str(broker_id),
                "wal_offset"@ => Doc::Num(Num::Pos(self.wal.bytes)),
                "entity_count"@ => Doc::Num(Num::Pos(self.entities.dom().len() as u64)),
                "authority_hash"@ => Doc::Str(
                    decimal(authority_hash(self.entities, sorted(self.entities.dom())) as nat),
                ),
                "pending_mesh"@ => Doc::Num(Num::Pos(self.pending_mesh.dom().len() as u64)),
                "in_flight"@ => self.in_flight(),
                "t_server"@ => Doc::Num(Num::Pos(now_ms))],
        )
    }

    /// The state after a snapshot's marker went to the log, or did not. From then on the
    /// log is not rewritten.
    pub open spec fn snapshot_finished(
        self,
        wid: Seq<char>,
        f: Doc,
        written: bool,
        broker_id: Seq<char>,
        registry_version: u64,
        now_ms: u64,
    ) -> State {
        if written {
            (State { wal: WalStatus { snapshot_seen: true, ..self.wal }, ..self }).emitted(
                wid,
                self.manifest(f, broker_id, registry_version, now_ms),
            )
        } else {
            self.emitted(
                wid,
                request_rejected(
                    request_name(f),
                    "wal_persist_failed: snapshot marker not durably recorded"@,
                ),
            )
        }
    }
}

fn in_flight_rows(s: &ServerState) -> (r: Json)
    ensures
        r@ == s@.in_flight(),
{
    let ids = sorted_keys(&s.pending_mesh);
    let ghost all = texts(ids@);
    let mut rows: Vec<Json> = Vec::new();
    let mut i: usize = 0;
    while i < ids.len()
        invariant
            i <= ids.len(),
            rows.len() == i,
            all == texts(ids@),
            all.to_set() == s@.pending_mesh.dom(),
            forall|j: int|
                0 <= j < i ==> (#[trigger] rows@[j])@ == in_flight_row(
                    all[j],
                    s@.pending_mesh[all[j]],
                ),
        decreases ids.len() - i,
    {
        let eid = ids[i].as_str();
        proof {
            assert(all[i as int] == eid@);
            assert(all.to_set().contains(eid@));
        }
        if let Some(p) = s.pending_mesh.get(eid) {
            rows.push(
                StrMap::new().with("entity", Json::str(eid)).with(
                    "target",
                    Json::str(p.target.as_str()),
                ).with("type", Json::str("MeshHandoff")).done(),
            );
        }
        i = i + 1;
    }
    proof {
        assert(docs(rows@) =~= all.map_values(
            |k: Seq<char>| in_flight_row(k, s@.pending_mesh[k]),
        ));
    }
    Json::Arr(rows)
}

/// Answers a request for a snapshot once its marker is on the log, or is not.
pub fn finish_snapshot(
    s: &mut ServerState,
    wid: &str,
    f: &Json,
    written: bool,
    me: &Identity,
    now_ms: u64,
)
    ensures
        final(s)@ == old(s)@.snapshot_finished(
            wid@,
            f@,
            written,
            me.broker_id@,
            me.component_registry_version,
            now_ms,
        ),
{
    if !written {
        let msg = request_rejected_json(
            f.str_or("request_id", ""),
            "wal_persist_failed: snapshot marker not durably recorded",
        );
        emit(s, wid, msg);
        return;
    }
    let hash: u64 = snapshot_authority_hash(&s.entities);
    let msg = StrMap::new().with("op", Json::str("SnapshotManifest")).with(
        "request_id",
        Json::str(f.str_or("request_id", "")),
    ).with("snapshot_id", Json::str(f.str_or("snapshot_id", ""))).with(
        "snapshot_manifest_version",
        Json::u64(1),
    ).with("snapshot_schema_version", Json::u64(1)).with("spatial_schema_version", Json::u64(1)).with(
        "coordinate_codec_version",
        Json::u64(1),
    ).with("component_registry_version", Json::u64(me.component_registry_version)).with(
        "partition_map_version",
        Json::u64(s.zone_topology_rev),
    ).with("spatial_schema", spatial_schema_contract(s)).with("partition_map", partition_map_contract(s)).with(
        "broker_id",
        Json::str(me.broker_id.as_str()),
    ).with("wal_offset", Json::u64(s.wal.bytes)).with(
        "entity_count",
        Json::u64(s.entities.len() as u64),
    ).with("authority_hash", Json::Str(u64_text(hash))).with(
        "pending_mesh",
        Json::u64(s.pending_mesh.len() as u64),
    ).with("in_flight", in_flight_rows(s)).with("t_server", Json::u64(now_ms)).done();
    s.wal.snapshot_seen = true;
    emit(s, wid, msg);
}

/// A snapshot stays valid: once one was taken, the log that it refers to is never
/// rewritten.
pub proof fn law_snapshot_stops_compaction(
    s: State,
    wid: Seq<char>,
    f: Doc,
    broker_id: Seq<char>,
    version: u64,
    now_ms: u64,
)
    ensures
        !s.snapshot_finished(wid, f, true, broker_id, version, now_ms).may_compact(),
{
}

}

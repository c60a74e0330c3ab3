//! Writing the log: what an append or a sync does to the broker, and the rewriting
//! of a log that has grown too long.

use vstd::prelude::*;
use vstd::string::*;
use vstd::utf8::encode_utf8;
use crate::clock::plus;
use crate::control::{reserve_event, reserve_wal_event};
use crate::doc::{docs, json_parse, json_text, max_depth, shallow, Doc, Json, Num};
use crate::entity::{succ, Ent};
use crate::json::or_null;
use crate::lifecycle::{tombstone_event, tombstone_wal_event};
use crate::order::{lemma_sorted_of, sorted, sorted_texts};
use crate::recovery::{
    departure_epoch, ev_entity, later_epoch, lemma_replay_append, settled, store_of, Store,
};
use crate::sight::sorted_keys;
use crate::spawn::{
    is_restorable, law_register_round_trip, lemma_register_fields, rebuilt, register_event,
    register_wal_event,
};
use crate::startup::{recovered_store, resent, resent_frame};
use crate::state::{Metrics, Parked, ServerState, State, WalStatus};
use crate::strmap::{texts, StrMap, StrSet};
use crate::topology::partition_wal_event;
use crate::wal::{
    decoded, envelope_doc, header_doc, is_line, kind_of, law_log_round_trip, log_error, log_events,
    log_tail, wal_v1_envelope_line, wal_v1_header_line,
};

verus! {

broadcast use {crate::doc::group_json, crate::strmap::group_map};

impl WalStatus {
    /// Whether an append is done: where there is a log, the line must be written.
    pub open spec fn append_done(self, written: bool) -> bool {
        !self.fail_inject && (!self.attached || written)
    }

    /// The log after an append of `n` bytes. A failure degrades it.
    pub open spec fn appended(self, n: nat, written: bool) -> WalStatus {
        if !self.append_done(written) {
            WalStatus { degraded: true, ..self }
        } else if self.attached {
            WalStatus { bytes: plus(self.bytes, n as u64), ..self }
        } else {
            self
        }
    }

    /// The log after a sync. A failure degrades it.
    pub open spec fn synced(self, flushed: bool) -> WalStatus {
        if !self.append_done(flushed) {
            WalStatus { degraded: true, ..self }
        } else {
            self
        }
    }

    /// Whether a header has to be written: to a new log.
    pub open spec fn needs_header(self) -> bool {
        self.bytes == 0 && !self.fail_inject && self.attached
    }

    /// Whether the log is due to be rewritten: it is past its size, sound, and no
    /// snapshot refers to its bytes.
    pub open spec fn is_long(self) -> bool {
        &&& self.attached
        &&& !self.degraded
        &&& self.compact_bytes > 0
        &&& self.bytes > self.compact_bytes
        &&& !self.snapshot_seen
    }
}

/// Whether an append goes to a file at all.
pub fn wants_write(s: &ServerState) -> (r: bool)
    ensures
        r == (s@.wal.attached && !s@.wal.fail_inject),
{
    s.wal.attached && !s.wal.fail_inject
}

/// The line of an event, with its line break.
pub fn wal_line(ev: &Json) -> (r: String)
    ensures
        r@ == json_text(envelope_doc(ev@)).push('\n'),
{
    let mut line = wal_v1_envelope_line(ev);
    line.append("\n");
    proof {
        reveal_strlit("\n");
        assert("\n"@ =~= seq!['\n']);
        assert(json_text(envelope_doc(ev@)) + "\n"@ =~= json_text(envelope_doc(ev@)).push('\n'));
    }
    line
}

/// The header line, with its line break.
pub fn wal_header() -> (r: String)
    ensures
        r@ == json_text(header_doc()).push('\n'),
{
    let mut line = wal_v1_header_line();
    line.append("\n");
    proof {
        reveal_strlit("\n");
        assert("\n"@ =~= seq!['\n']);
        assert(json_text(header_doc()) + "\n"@ =~= json_text(header_doc()).push('\n'));
    }
    line
}

/// Records an append of a line, and says whether it is done.
pub fn note_append(s: &mut ServerState, line: &str, written: bool) -> (r: bool)
    ensures
        r == old(s)@.wal.append_done(written),
        final(s)@ == (State {
            wal: old(s)@.wal.appended(encode_utf8(line@).len(), written),
            ..old(s)@
        }),
{
    if s.wal.fail_inject || (s.wal.attached && !written) {
        s.wal.degraded = true;
        return false;
    }
    if s.wal.attached {
        s.wal.bytes = s.wal.bytes.saturating_add(line.as_bytes().len() as u64);
    }
    true
}

/// Records a sync, and says whether it is done.
pub fn note_sync(s: &mut ServerState, flushed: bool) -> (r: bool)
    ensures
        r == old(s)@.wal.append_done(flushed),
        final(s)@ == (State { wal: old(s)@.wal.synced(flushed), ..old(s)@ }),
{
    if s.wal.fail_inject || (s.wal.attached && !flushed) {
        s.wal.degraded = true;
        return false;
    }
    true
}

/// The header that a new log has to start with.
pub fn ensure_wal_header(s: &ServerState) -> (r: Option<String>)
    ensures
        r is Some == s@.wal.needs_header(),
        r is Some ==> (r->0)@ == json_text(header_doc()).push('\n'),
{
    if s.wal.bytes != 0 || s.wal.fail_inject || !s.wal.attached {
        return None;
    }
    Some(wal_header())
}

/// The events of the entities with these names.
pub open spec fn register_events(m: Map<Seq<char>, Ent>, names: Seq<Seq<char>>) -> Seq<Doc> {
    names.map_values(|k: Seq<char>| register_event(k, m[k], m[k].pos_epoch()))
}

/// The events of the deletions of these names.
pub open spec fn tombstone_events(names: Seq<Seq<char>>) -> Seq<Doc> {
    names.map_values(|k: Seq<char>| tombstone_event(k, 0, "wal_compaction"@))
}

/// The event that keeps a departed entity from being taken back.
pub open spec fn fence_event(eid: Seq<char>, epoch: u64) -> Doc {
    Doc::Obj(
        map![
            "kind"@ => Doc::Str("mesh_forwarded_fence"@),
            "entity"@ => Doc::Str(eid),
            "authority_epoch"@ => Doc::Num(Num::Pos(epoch)),
            "writer"@ => Doc::Str("wal_compaction"@)],
    )
}

/// The event of a departure that nobody has confirmed.
pub open spec fn parked_event(eid: Seq<char>, p: Parked) -> Doc {
    Doc::Obj(
        map![
            "kind"@ => Doc::Str("mesh_out"@),
            "entity"@ => Doc::Str(eid),
            "target"@ => Doc::Str(p.target),
            "authority_epoch"@ => or_null(p.frame.get("authority_epoch"@)),
            "authority"@ => or_null(p.frame.get("authority"@)),
            "src_region"@ => or_null(p.frame.get("src_region"@)),
            "lease_epoch"@ => or_null(p.frame.get("lease_epoch"@)),
            "source_durable_gen"@ => or_null(p.frame.get("source_durable_gen"@)),
            "pos"@ => or_null(p.frame.get("pos"@)),
            "vel"@ => or_null(p.frame.get("vel"@)),
            "components"@ => or_null(p.frame.get("components"@))],
    )
}

/// The events of the departures with these names.
pub open spec fn parked_events(m: Map<Seq<char>, Parked>, names: Seq<Seq<char>>) -> Seq<Doc> {
    names.map_values(|k: Seq<char>| parked_event(k, m[k]))
}

/// The event that keeps the mark of reserved numbers; none where none was reserved.
pub open spec fn mark_events(mark: u64) -> Seq<Doc> {
    if mark > 0 {
        seq![reserve_event(0, mark, mark)]
    } else {
        Seq::empty()
    }
}

impl State {
    /// The departed entities that need a fence: those that are not here and were not
    /// deleted.
    pub open spec fn fenced_names(self) -> Set<Seq<char>> {
        self.mesh_forwarded_epoch.dom().difference(self.entities.dom()).difference(
            self.deleted_entities,
        )
    }

    /// The events of the departures of these names.
    pub open spec fn fence_events(self, names: Seq<Seq<char>>) -> Seq<Doc> {
        names.map_values(|k: Seq<char>| fence_event(k, self.mesh_forwarded_epoch[k]))
    }

    /// The events that the log is rewritten to: what departed, what of it nobody has
    /// confirmed, what is, what was deleted, the partition, and the mark of reserved
    /// numbers.
    pub open spec fn compacted(self) -> Seq<Doc> {
        self.fence_events(sorted(self.fenced_names())) + parked_events(
            self.pending_mesh,
            sorted(self.pending_mesh.dom()),
        ) + register_events(self.entities, sorted(self.entities.dom())) + tombstone_events(
            sorted(self.deleted_entities),
        ) + seq![self.partition_event()] + mark_events(self.entity_id_reservations)
    }

    /// The fences that a restart finds in the rewritten log: against what departed and is
    /// neither here nor deleted, under the epoch on record, or that of a departure which
    /// nobody has confirmed where it is higher.
    pub open spec fn kept_fences(self) -> Map<Seq<char>, u64> {
        Map::new(
            |k: Seq<char>|
                (self.mesh_forwarded_epoch.contains_key(k) || self.pending_mesh.contains_key(k))
                    && !self.entities.contains_key(k) && !self.deleted_entities.contains(k),
            |k: Seq<char>|
                if self.pending_mesh.contains_key(k) {
                    later_epoch(
                        self.mesh_forwarded_epoch,
                        k,
                        departure_epoch(parked_event(k, self.pending_mesh[k])),
                    )
                } else {
                    self.mesh_forwarded_epoch[k]
                },
        )
    }

    /// What a restart builds from the rewritten log.
    pub open spec fn kept(self, resend: bool) -> Store {
        Store {
            entities: self.entities.map_values(|e: Ent| settled(rebuilt(e, e.pos_epoch()))),
            tombstones: self.deleted_entities,
            partition: Some(self.partition_event()),
            pending: if resend {
                self.pending_mesh.map_entries(|k: Seq<char>, p: Parked| parked_event(k, p))
            } else {
                Map::empty()
            },
            forwarded: self.kept_fences(),
            id_hwm: self.entity_id_reservations,
        }
    }

    /// Whether every entity can be rebuilt from its `register` event, and none is both
    /// here and deleted.
    pub open spec fn is_rewritable(self) -> bool {
        &&& self.entities.dom().finite()
        &&& self.deleted_entities.finite()
        &&& self.mesh_forwarded_epoch.dom().finite()
        &&& self.pending_mesh.dom().finite()
        &&& self.entities.dom().disjoint(self.deleted_entities)
        &&& forall|k: Seq<char>| #[trigger]
            self.entities.contains_key(k) ==> is_restorable(self.entities[k])
    }

    /// Whether the log may be rewritten now: nothing waits that only the log has.
    pub open spec fn may_compact(self) -> bool {
        &&& self.wal.is_long()
        &&& self.pending_updates.len() == 0
        &&& self.pending_handoffs.len() == 0
        &&& self.pending_failovers.len() == 0
        &&& self.pending_block_migrations.len() == 0
    }
}

/// Whether the log may be rewritten now.
pub fn may_compact_wal(s: &ServerState) -> (r: bool)
    ensures
        r == s@.may_compact(),
{
    s.wal.attached && !s.wal.degraded && s.wal.compact_bytes != 0 && s.wal.bytes
        > s.wal.compact_bytes && !s.wal.snapshot_seen && s.pending_updates.len() == 0
        && s.pending_handoffs.len() == 0 && s.pending_failovers.len() == 0
        && s.pending_block_migrations.len() == 0
}

fn registrations(s: &ServerState) -> (r: Vec<Json>)
    ensures
        docs(r@) == register_events(s@.entities, sorted(s@.entities.dom())),
{
    let ids = sorted_keys(&s.entities);
    let ghost all = texts(ids@);
    let mut out: Vec<Json> = Vec::new();
    let mut i: usize = 0;
    while i < ids.len()
        invariant
            i <= ids.len(),
            out.len() == i,
            all == texts(ids@),
            all.to_set() == s@.entities.dom(),
            forall|j: int|
                0 <= j < i ==> (#[trigger] out@[j])@ == register_event(
                    all[j],
                    s@.entities[all[j]],
                    s@.entities[all[j]].pos_epoch(),
                ),
        decreases ids.len() - i,
    {
        let eid = ids[i].as_str();
        proof {
            assert(all[i as int] == eid@);
            assert(all.to_set().contains(eid@));
        }
        if let Some(e) = s.entities.get(eid) {
            let epoch: u64 = match e.authority.get("pos") {
                Some(ca) => ca.epoch,
                None => 1,
            };
            out.push(register_wal_event(eid, e, epoch));
        }
        i = i + 1;
    }
    proof {
        assert(docs(out@) =~= register_events(s@.entities, all));
    }
    out
}

fn fences(s: &ServerState) -> (r: Vec<Json>)
    ensures
        docs(r@) == s@.fence_events(sorted(s@.fenced_names())),
{
    let mut names = StrSet::new();
    let n: usize = s.mesh_forwarded_epoch.len();
    let ghost order = s.mesh_forwarded_epoch.order();
    let mut i: usize = 0;
    while i < n
        invariant
            i <= n == order.len(),
            order == s.mesh_forwarded_epoch.order(),
            forall|k: Seq<char>|
                #[trigger] names@.contains(k) <==> order.take(i as int).contains(k)
                    && !s@.entities.contains_key(k) && !s@.deleted_entities.contains(k),
        decreases n - i,
    {
        let ghost seen = order.take(i as int);
        let k = s.mesh_forwarded_epoch.key_at(i);
        if !s.entities.contains_key(k) && !s.deleted_entities.contains(k) {
            names.insert(k);
        }
        i = i + 1;
        proof {
            assert(order.take(i as int) =~= seen.push(order[i - 1]));
            assert forall|q: Seq<char>|
                #[trigger] names@.contains(q) <==> order.take(i as int).contains(q)
                    && !s@.entities.contains_key(q) && !s@.deleted_entities.contains(q) by {
                crate::json::lemma_push_contains(seen, order[i - 1], q);
            }
        }
    }
    proof {
        assert(order.take(n as int) =~= order);
        assert forall|k: Seq<char>| order.contains(k) == s@.mesh_forwarded_epoch.contains_key(k) by {
            assert(order.to_set().contains(k) == order.contains(k));
        }
        assert(names@ =~= s@.fenced_names());
    }
    let ids = sorted_texts(&names);
    let ghost all = texts(ids@);
    let mut out: Vec<Json> = Vec::new();
    let mut j: usize = 0;
    while j < ids.len()
        invariant
            j <= ids.len(),
            out.len() == j,
            all == texts(ids@),
            all.to_set() == s@.fenced_names(),
            forall|m: int|
                0 <= m < j ==> (#[trigger] out@[m])@ == fence_event(
                    all[m],
                    s@.mesh_forwarded_epoch[all[m]],
                ),
        decreases ids.len() - j,
    {
        let eid = ids[j].as_str();
        proof {
            assert(all[j as int] == eid@);
            assert(all.to_set().contains(eid@));
        }
        if let Some(epoch) = s.mesh_forwarded_epoch.get(eid) {
            let ev = StrMap::new().with("kind", Json::str("mesh_forwarded_fence")).with(
                "entity",
                Json::str(eid),
            ).with("authority_epoch", Json::u64(*epoch)).with(
                "writer",
                Json::str("wal_compaction"),
            ).done();
            out.push(ev);
        }
        j = j + 1;
    }
    proof {
        assert(docs(out@) =~= s@.fence_events(all));
    }
    out
}

fn parked(s: &ServerState) -> (r: Vec<Json>)
    ensures
        docs(r@) == parked_events(s@.pending_mesh, sorted(s@.pending_mesh.dom())),
{
    let ids = sorted_keys(&s.pending_mesh);
    let ghost all = texts(ids@);
    let mut out: Vec<Json> = Vec::new();
    let mut i: usize = 0;
    while i < ids.len()
        invariant
            i <= ids.len(),
            out.len() == i,
            all == texts(ids@),
            all.to_set() == s@.pending_mesh.dom(),
            forall|j: int|
                0 <= j < i ==> (#[trigger] out@[j])@ == parked_event(
                    all[j],
                    s@.pending_mesh[all[j]],
                ),
        decreases ids.len() - i,
    {
        let eid = ids[i].as_str();
        proof {
            assert(all[i as int] == eid@);
            assert(all.to_set().contains(eid@));
        }
        if let Some(p) = s.pending_mesh.get(eid) {
            let f = &p.frame;
            let ev = StrMap::new().with("kind", Json::str("mesh_out")).with(
                "entity",
                Json::str(eid),
            ).with("target", Json::str(p.target.as_str())).with(
                "authority_epoch",
                f.member("authority_epoch"),
            ).with("authority", f.member("authority")).with("src_region", f.member("src_region")).with(
                "lease_epoch",
                f.member("lease_epoch"),
            ).with("source_durable_gen", f.member("source_durable_gen")).with(
                "pos",
                f.member("pos"),
            ).with("vel", f.member("vel")).with("components", f.member("components")).done();
            out.push(ev);
        }
        i = i + 1;
    }
    proof {
        assert(docs(out@) =~= parked_events(s@.pending_mesh, all));
    }
    out
}

fn tombstones(s: &ServerState) -> (r: Vec<Json>)
    ensures
        docs(r@) == tombstone_events(sorted(s@.deleted_entities)),
{
    let ids = sorted_texts(&s.deleted_entities);
    let ghost all = texts(ids@);
    let mut out: Vec<Json> = Vec::new();
    let mut i: usize = 0;
    while i < ids.len()
        invariant
            i <= ids.len(),
            out.len() == i,
            all == texts(ids@),
            forall|j: int|
                0 <= j < i ==> (#[trigger] out@[j])@ == tombstone_event(
                    all[j],
                    0,
                    "wal_compaction"@,
                ),
        decreases ids.len() - i,
    {
        proof {
            assert(all[i as int] == ids@[i as int]@);
        }
        out.push(tombstone_wal_event(ids[i].as_str(), 0, "wal_compaction"));
        i = i + 1;
    }
    proof {
        assert(docs(out@) =~= tombstone_events(all));
    }
    out
}

fn join(out: &mut Vec<Json>, more: Vec<Json>)
    ensures
        docs(final(out)@) == docs(old(out)@) + docs(more@),
{
    let mut more = more;
    let ghost a = out@;
    let ghost b = more@;
    out.append(&mut more);
    proof {
        assert(docs(out@) =~= docs(a) + docs(b));
    }
}

/// The events that the log is rewritten to.
pub fn compaction_events(s: &ServerState) -> (r: Vec<Json>)
    ensures
        docs(r@) == s@.compacted(),
{
    let mut out = fences(s);
    join(&mut out, parked(s));
    join(&mut out, registrations(s));
    join(&mut out, tombstones(s));
    let ghost most = docs(out@);
    let ev = partition_wal_event(s);
    out.push(ev);
    proof {
        assert(docs(out@) =~= most + seq![ev@]);
    }
    let ghost all = docs(out@);
    let mark: u64 = s.entity_id_reservations;
    if mark > 0 {
        let ev = reserve_wal_event(0, mark, mark);
        out.push(ev);
        proof {
            assert(docs(out@) =~= all + seq![ev@]);
        }
    } else {
        proof {
            assert(all + mark_events(mark) =~= all);
        }
    }
    out
}

proof fn lemma_compacted_kinds(s: State)
    requires
        s.is_rewritable(),
    ensures
        forall|i: int|
            0 <= i < s.compacted().len() ==> kind_of(#[trigger] s.compacted()[i]) != "wal_header"@,
{
    lemma_partition_kind(s);
    lemma_mark_fields(s.entity_id_reservations);
    reveal_strlit("wal_header");
    reveal_strlit("register");
    reveal_strlit("delete_tombstone");
    reveal_strlit("mesh_forwarded_fence");
    reveal_strlit("mesh_out");
    reveal_strlit("partition_config");
    reveal_strlit("reserve_entity_ids");
    assert("wal_header"@.len() == 10 && "register"@.len() == 8 && "delete_tombstone"@.len() == 16
        && "mesh_forwarded_fence"@.len() == 20 && "mesh_out"@.len() == 8
        && "partition_config"@.len() == 16 && "reserve_entity_ids"@.len() == 18);
    let a = s.fence_events(sorted(s.fenced_names()));
    let b = parked_events(s.pending_mesh, sorted(s.pending_mesh.dom()));
    let c = register_events(s.entities, sorted(s.entities.dom()));
    let d = tombstone_events(sorted(s.deleted_entities));
    let e = seq![s.partition_event()];
    let f = mark_events(s.entity_id_reservations);
    let all = s.compacted();
    assert(all == a + b + c + d + e + f);
    assert forall|i: int| 0 <= i < all.len() implies kind_of(#[trigger] all[i])
        != "wal_header"@ by {
        let n1 = a.len() as int;
        let n2 = n1 + b.len();
        let n3 = n2 + c.len();
        let n4 = n3 + d.len();
        if i < n1 {
            let k = sorted(s.fenced_names())[i];
            assert(all[i] == fence_event(k, s.mesh_forwarded_epoch[k]));
            lemma_fence_fields(k, s.mesh_forwarded_epoch[k]);
        } else if i < n2 {
            let k = sorted(s.pending_mesh.dom())[i - n1];
            assert(all[i] == parked_event(k, s.pending_mesh[k]));
            lemma_parked_fields(k, s.pending_mesh[k]);
        } else if i < n3 {
            let k = sorted(s.entities.dom())[i - n2];
            assert(all[i] == register_event(k, s.entities[k], s.entities[k].pos_epoch()));
            lemma_register_fields(k, s.entities[k], s.entities[k].pos_epoch());
        } else if i < n4 {
            let k = sorted(s.deleted_entities)[i - n3];
            assert(all[i] == tombstone_event(k, 0, "wal_compaction"@));
            lemma_tombstone_fields(k);
        } else if i == n4 {
            assert(all[i] == s.partition_event());
        } else {
            assert(all[i] == f[i - n4 - 1]);
        }
    }
}

/// The lines that the log is rewritten to: a header, and a sealed line for each event.
/// Where no event is nested too deep to be read, a restart that reads these lines is not
/// refused, and builds what there is.
pub fn rewritten_log(s: &ServerState) -> (r: Vec<String>)
    ensures
        r.len() == s@.compacted().len() + 1,
        r@[0]@ == json_text(header_doc()),
        forall|i: int|
            0 <= i < s@.compacted().len() ==> (#[trigger] r@[i + 1])@ == json_text(
                envelope_doc(s@.compacted()[i]),
            ),
        (forall|i: int|
            0 <= i < s@.compacted().len() ==> shallow(#[trigger] s@.compacted()[i], max_depth()))
            && s@.is_rewritable() ==> {
            &&& log_error(texts(r@)) is None
            &&& log_events(texts(r@), None) == s@.compacted()
            &&& log_tail(texts(r@)) == 0
            &&& recovered_store(Some(texts(r@)), None, true) == s@.kept(true)
            &&& recovered_store(Some(texts(r@)), None, false) == s@.kept(false)
        },
{
    let evs = compaction_events(s);
    let ghost all = s@.compacted();
    let mut out: Vec<String> = Vec::new();
    out.push(wal_v1_header_line());
    let mut i: usize = 0;
    while i < evs.len()
        invariant
            i <= evs.len(),
            docs(evs@) == all,
            out.len() == i + 1,
            out@[0]@ == json_text(header_doc()),
            json_parse(out@[0]@) == Some(header_doc()),
            is_line(out@[0]@),
            forall|j: int|
                0 <= j < i ==> (#[trigger] out@[j + 1])@ == json_text(envelope_doc(all[j]))
                    && is_line(out@[j + 1]@) && (shallow(all[j], max_depth()) ==> decoded(
                    out@[j + 1]@,
                    true,
                ) == Some(all[j])),
        decreases evs.len() - i,
    {
        proof {
            assert(all[i as int] == evs@[i as int]@);
        }
        let line = wal_v1_envelope_line(&evs[i]);
        let ghost before = out@;
        out.push(line);
        i = i + 1;
        proof {
            assert forall|j: int| 0 <= j < i implies (#[trigger] out@[j + 1])@ == json_text(
                envelope_doc(all[j]),
            ) && is_line(out@[j + 1]@) && (shallow(all[j], max_depth()) ==> decoded(
                out@[j + 1]@,
                true,
            ) == Some(all[j])) by {
                if j < i - 1 {
                    assert(out@[j + 1] == before[j + 1]);
                }
            }
        }
    }
    proof {
        assert(all.len() == evs@.len());
        let lines = texts(out@);
        if s@.is_rewritable() && (forall|i: int|
            0 <= i < all.len() ==> shallow(#[trigger] all[i], max_depth())) {
            lemma_compacted_kinds(s@);
            assert forall|j: int| 0 <= j < all.len() implies is_line(#[trigger] lines[j + 1]) by {
                assert(lines[j + 1] == out@[j + 1]@);
            }
            assert forall|j: int| 0 <= j < all.len() implies decoded(#[trigger] lines[j + 1], true)
                == Some(all[j]) by {
                assert(lines[j + 1] == out@[j + 1]@);
                assert(shallow(all[j], max_depth()));
            }
            law_log_round_trip(lines, all);
            law_compaction_restores(s@, true);
            law_compaction_restores(s@, false);
        }
    }
    out
}

/// What became of a rewritten log.
#[derive(Clone, Copy, Debug, PartialEq, Eq, Structural)]
pub enum Compaction {
    /// It was not written.
    Unwritten,
    /// It was written and did not replace the old one, which could be opened again or
    /// not.
    Unplaced { reopened: bool },
    /// It replaced the old one, has this many bytes, and could be opened or not.
    Placed { bytes: u64, reopened: bool },
}

impl State {
    /// The state after the log was rewritten, or was not.
    pub open spec fn compaction_noted(self, c: Compaction) -> State {
        match c {
            Compaction::Unwritten => State {
                wal: WalStatus { degraded: true, ..self.wal },
                ..self
            },
            Compaction::Unplaced { reopened } => if reopened {
                self
            } else {
                State {
                    wal: WalStatus { degraded: true, attached: false, ..self.wal },
                    ..self
                }
            },
            Compaction::Placed { bytes, reopened } => if reopened {
                State {
                    wal: WalStatus { bytes, ..self.wal },
                    metrics: Metrics {
                        wal_compactions: succ(self.metrics.wal_compactions),
                        ..self.metrics
                    },
                    ..self
                }
            } else {
                State {
                    wal: WalStatus { degraded: true, attached: false, ..self.wal },
                    ..self
                }
            },
        }
    }
}

/// Records what became of a rewritten log.
pub fn note_compaction(s: &mut ServerState, c: Compaction)
    ensures
        final(s)@ == old(s)@.compaction_noted(c),
{
    match c {
        Compaction::Unwritten => {
            s.wal.degraded = true;
        },
        Compaction::Unplaced { reopened } => {
            if !reopened {
                s.wal.degraded = true;
                s.wal.attached = false;
            }
        },
        Compaction::Placed { bytes, reopened } => {
            if reopened {
                s.wal.bytes = bytes;
                s.metrics.wal_compactions = s.metrics.wal_compactions.saturating_add(1);
            } else {
                s.wal.degraded = true;
                s.wal.attached = false;
            }
        },
    }
}

/// A log that failed once stays failed: neither an append nor a sync mends it.
pub proof fn law_degraded_stays(w: WalStatus, n: nat, written: bool)
    requires
        w.degraded,
    ensures
        w.appended(n, written).degraded,
        w.synced(written).degraded,
{
}

/// Entities as a restart rebuilds them.
spec fn all_rebuilt(m: Map<Seq<char>, Ent>) -> Map<Seq<char>, Ent> {
    m.map_values(|e: Ent| rebuilt(e, e.pos_epoch()))
}

proof fn lemma_registrations(t: Store, m: Map<Seq<char>, Ent>, names: Seq<Seq<char>>, resend: bool)
    requires
        t.entities == Map::<Seq<char>, Ent>::empty(),
        t.tombstones == Set::<Seq<char>>::empty(),
        forall|i: int|
            0 <= i < names.len() ==> m.contains_key(#[trigger] names[i]) && is_restorable(
                m[names[i]],
            ),
    ensures
        t.all_replayed(register_events(m, names), resend) == (Store {
            entities: all_rebuilt(m).restrict(names.to_set()),
            forwarded: t.forwarded.remove_keys(names.to_set()),
            ..t
        }),
    decreases names.len(),
{
    let evs = register_events(m, names);
    if names.len() == 0 {
        assert(evs =~= Seq::empty());
        assert(all_rebuilt(m).restrict(names.to_set()) =~= Map::empty());
        assert(t.forwarded.remove_keys(names.to_set()) =~= t.forwarded);
    } else {
        let d = names.drop_last();
        let k = names.last();
        assert forall|i: int| 0 <= i < d.len() implies m.contains_key(#[trigger] d[i])
            && is_restorable(m[d[i]]) by {
            assert(d[i] == names[i]);
        }
        assert(m.contains_key(names[names.len() - 1]) && is_restorable(m[k]));
        lemma_registrations(t, m, d, resend);
        assert(evs.drop_last() =~= register_events(m, d));
        assert(evs.last() == register_event(k, m[k], m[k].pos_epoch()));
        lemma_register_fields(k, m[k], m[k].pos_epoch());
        law_register_round_trip(k, m[k], m[k].pos_epoch());
        assert(names =~= d.push(k));
        assert forall|q: Seq<char>| names.to_set().contains(q) == (d.to_set().contains(q) || q
            == k) by {
            crate::json::lemma_push_contains(d, k, q);
        }
        let r = all_rebuilt(m);
        assert(r.restrict(names.to_set()) =~= r.restrict(d.to_set()).insert(k, r[k]));
        assert(t.forwarded.remove_keys(names.to_set()) =~= t.forwarded.remove_keys(
            d.to_set(),
        ).remove(k));
    }
}

proof fn lemma_tombstones(s: Store, names: Seq<Seq<char>>, resend: bool)
    requires
        forall|i: int| 0 <= i < names.len() ==> !s.entities.contains_key(#[trigger] names[i]),
    ensures
        s.all_replayed(tombstone_events(names), resend) == (Store {
            tombstones: s.tombstones.union(names.to_set()),
            forwarded: s.forwarded.remove_keys(names.to_set()),
            ..s
        }),
    decreases names.len(),
{
    let evs = tombstone_events(names);
    if names.len() == 0 {
        assert(evs =~= Seq::empty());
        assert(s.tombstones.union(names.to_set()) =~= s.tombstones);
        assert(s.forwarded.remove_keys(names.to_set()) =~= s.forwarded);
    } else {
        let d = names.drop_last();
        let k = names.last();
        assert forall|i: int| 0 <= i < d.len() implies !s.entities.contains_key(#[trigger] d[i]) by {
            assert(d[i] == names[i]);
        }
        assert(!s.entities.contains_key(names[names.len() - 1]));
        lemma_tombstones(s, d, resend);
        assert(evs.drop_last() =~= tombstone_events(d));
        let ev = tombstone_event(k, 0, "wal_compaction"@);
        assert(evs.last() == ev);
        lemma_tombstone_fields(k);
        assert(names =~= d.push(k));
        assert forall|q: Seq<char>| names.to_set().contains(q) == (d.to_set().contains(q) || q
            == k) by {
            crate::json::lemma_push_contains(d, k, q);
        }
        assert(s.tombstones.union(names.to_set()) =~= s.tombstones.union(d.to_set()).insert(k));
        assert(s.entities.remove(k) =~= s.entities);
        assert(s.forwarded.remove_keys(names.to_set()) =~= s.forwarded.remove_keys(
            d.to_set(),
        ).remove(k));
    }
}

proof fn lemma_parked_fields(k: Seq<char>, p: Parked)
    ensures
        kind_of(parked_event(k, p)) == "mesh_out"@,
        ev_entity(parked_event(k, p)) == k,
        "mesh_out"@ != "register"@,
        "mesh_out"@ != "delete_tombstone"@,
        "mesh_out"@ != "mesh_forwarded_fence"@,
        "mesh_out"@ != "failover_grant"@,
        "mesh_out"@ != "block_migration"@,
{
    reveal_strlit("kind");
    reveal_strlit("entity");
    reveal_strlit("target");
    reveal_strlit("authority_epoch");
    reveal_strlit("authority");
    reveal_strlit("src_region");
    reveal_strlit("lease_epoch");
    reveal_strlit("source_durable_gen");
    reveal_strlit("pos");
    reveal_strlit("vel");
    reveal_strlit("components");
    assert("kind"@.len() == 4 && "entity"@.len() == 6 && "target"@.len() == 6);
    assert("authority_epoch"@.len() == 15 && "authority"@.len() == 9 && "src_region"@.len() == 10);
    assert("lease_epoch"@.len() == 11 && "source_durable_gen"@.len() == 18);
    assert("pos"@.len() == 3 && "vel"@.len() == 3 && "components"@.len() == 10);
    assert("entity"@[0] != "target"@[0]);
    reveal_strlit("mesh_out");
    reveal_strlit("register");
    reveal_strlit("delete_tombstone");
    reveal_strlit("mesh_forwarded_fence");
    reveal_strlit("failover_grant");
    reveal_strlit("block_migration");
    assert("mesh_out"@.len() == 8 && "register"@.len() == 8 && "delete_tombstone"@.len() == 16
        && "mesh_forwarded_fence"@.len() == 20 && "failover_grant"@.len() == 14
        && "block_migration"@.len() == 15);
    assert("mesh_out"@[0] != "register"@[0]);
}

/// The fences after departures that nobody has confirmed.
spec fn raised(
    forwarded: Map<Seq<char>, u64>,
    m: Map<Seq<char>, Parked>,
    names: Set<Seq<char>>,
) -> Map<Seq<char>, u64> {
    Map::new(
        |k: Seq<char>| forwarded.contains_key(k) || names.contains(k),
        |k: Seq<char>|
            if names.contains(k) {
                later_epoch(forwarded, k, departure_epoch(parked_event(k, m[k])))
            } else {
                forwarded[k]
            },
    )
}

proof fn lemma_parked(t: Store, m: Map<Seq<char>, Parked>, names: Seq<Seq<char>>, resend: bool)
    requires
        names.no_duplicates(),
        t.entities == Map::<Seq<char>, Ent>::empty(),
        t.pending == Map::<Seq<char>, Doc>::empty(),
    ensures
        t.all_replayed(parked_events(m, names), resend) == (Store {
            pending: if resend {
                Map::new(
                    |k: Seq<char>| names.contains(k),
                    |k: Seq<char>| parked_event(k, m[k]),
                )
            } else {
                Map::empty()
            },
            forwarded: raised(t.forwarded, m, names.to_set()),
            ..t
        }),
    decreases names.len(),
{
    let evs = parked_events(m, names);
    if names.len() == 0 {
        assert(evs =~= Seq::empty());
        assert(raised(t.forwarded, m, names.to_set()) =~= t.forwarded);
        assert(Map::new(
            |k: Seq<char>| names.contains(k),
            |k: Seq<char>| parked_event(k, m[k]),
        ) =~= Map::empty());
    } else {
        let d = names.drop_last();
        let k = names.last();
        lemma_parked(t, m, d, resend);
        assert(evs.drop_last() =~= parked_events(m, d));
        let ev = parked_event(k, m[k]);
        assert(evs.last() == ev);
        lemma_parked_fields(k, m[k]);
        assert(names =~= d.push(k));
        assert forall|q: Seq<char>| #[trigger] names.contains(q) == (d.contains(q) || q == k) by {
            crate::json::lemma_push_contains(d, k, q);
        }
        assert forall|q: Seq<char>| names.to_set().contains(q) == (d.to_set().contains(q) || q
            == k) by {}
        assert(!d.contains(k)) by {
            if d.contains(k) {
                let j = choose|j: int| 0 <= j < d.len() && d[j] == k;
                assert(names[j] == names[names.len() - 1]);
            }
        }
        let mid = t.all_replayed(evs.drop_last(), resend);
        assert(mid.entities.remove(k) =~= mid.entities);
        let ep = departure_epoch(ev);
        assert(later_epoch(mid.forwarded, k, ep) == later_epoch(t.forwarded, k, ep));
        assert(raised(t.forwarded, m, names.to_set()) =~= mid.forwarded.insert(
            k,
            later_epoch(t.forwarded, k, ep),
        ));
        if resend {
            assert(Map::new(
                |k: Seq<char>| names.contains(k),
                |k: Seq<char>| parked_event(k, m[k]),
            ) =~= mid.pending.insert(k, ev));
        }
    }
}

proof fn lemma_mark_fields(mark: u64)
    ensures
        kind_of(reserve_event(0, mark, mark)) == "reserve_entity_ids"@,
        reserve_event(0, mark, mark).get_u64("next_id"@) == Some(mark),
{
    reveal_strlit("kind");
    reveal_strlit("first_id");
    reveal_strlit("count");
    reveal_strlit("next_id");
    assert("kind"@.len() == 4 && "first_id"@.len() == 8 && "count"@.len() == 5 && "next_id"@.len()
        == 7);
}

proof fn lemma_tombstone_fields(k: Seq<char>)
    ensures
        ({
            let ev = tombstone_event(k, 0, "wal_compaction"@);
            kind_of(ev) == "delete_tombstone"@ && ev_entity(ev) == k && "delete_tombstone"@
                != "register"@
        }),
{
    crate::recovery::lemma_kinds_differ();
    reveal_strlit("kind");
    reveal_strlit("entity");
    reveal_strlit("version");
    reveal_strlit("writer");
    assert("kind"@.len() == 4);
    assert("entity"@.len() == 6);
    assert("version"@.len() == 7);
    assert("writer"@.len() == 6);
    assert("entity"@[0] != "writer"@[0]);
}

proof fn lemma_fence_fields(k: Seq<char>, epoch: u64)
    ensures
        ({
            let ev = fence_event(k, epoch);
            kind_of(ev) == "mesh_forwarded_fence"@ && ev_entity(ev) == k && ev.get_u64(
                "authority_epoch"@,
            ) == Some(epoch) && "mesh_forwarded_fence"@ != "register"@ && "mesh_forwarded_fence"@
                != "delete_tombstone"@
        }),
{
    crate::recovery::lemma_kinds_differ();
    reveal_strlit("kind");
    reveal_strlit("entity");
    reveal_strlit("authority_epoch");
    reveal_strlit("writer");
    assert("kind"@.len() == 4);
    assert("entity"@.len() == 6);
    assert("authority_epoch"@.len() == 15);
    assert("writer"@.len() == 6);
    assert("entity"@[0] != "writer"@[0]);
}

proof fn lemma_fences(s: State, t: Store, names: Seq<Seq<char>>, resend: bool)
    requires
        names.no_duplicates(),
        t.forwarded == Map::<Seq<char>, u64>::empty(),
        t.pending == Map::<Seq<char>, Doc>::empty(),
        forall|i: int|
            0 <= i < names.len() ==> s.mesh_forwarded_epoch.contains_key(#[trigger] names[i])
                && !t.entities.contains_key(names[i]) && !t.tombstones.contains(names[i]),
    ensures
        t.all_replayed(s.fence_events(names), resend) == (Store {
            forwarded: s.mesh_forwarded_epoch.restrict(names.to_set()),
            ..t
        }),
    decreases names.len(),
{
    let evs = s.fence_events(names);
    if names.len() == 0 {
        assert(evs =~= Seq::empty());
        assert(s.mesh_forwarded_epoch.restrict(names.to_set()) =~= Map::empty());
    } else {
        let d = names.drop_last();
        let k = names.last();
        assert forall|i: int| 0 <= i < d.len() implies s.mesh_forwarded_epoch.contains_key(
            #[trigger] d[i],
        ) && !t.entities.contains_key(d[i]) && !t.tombstones.contains(d[i]) by {
            assert(d[i] == names[i]);
        }
        assert(s.mesh_forwarded_epoch.contains_key(names[names.len() - 1])
            && !t.entities.contains_key(k) && !t.tombstones.contains(k));
        lemma_fences(s, t, d, resend);
        assert(evs.drop_last() =~= s.fence_events(d));
        assert(evs.last() == fence_event(k, s.mesh_forwarded_epoch[k]));
        lemma_fence_fields(k, s.mesh_forwarded_epoch[k]);
        assert(names =~= d.push(k));
        assert(!d.contains(k)) by {
            if d.contains(k) {
                let j = choose|j: int| 0 <= j < d.len() && d[j] == k;
                assert(names[j] == names[names.len() - 1]);
            }
        }
        assert(s.mesh_forwarded_epoch.restrict(names.to_set())
            =~= s.mesh_forwarded_epoch.restrict(d.to_set()).insert(k, s.mesh_forwarded_epoch[k])) by {
            assert forall|q: Seq<char>| names.to_set().contains(q) == (d.to_set().contains(q) || q
                == k) by {
                crate::json::lemma_push_contains(d, k, q);
            }
        }
        assert(t.entities.remove(k) =~= t.entities);
        assert(t.pending.remove(k) =~= t.pending);
    }
}

proof fn lemma_no_dup(q: Seq<Seq<char>>)
    requires
        crate::order::strictly_sorted(q),
    ensures
        q.no_duplicates(),
{
    assert forall|i: int, j: int| 0 <= i < q.len() && 0 <= j < q.len() && i != j implies q[i]
        != q[j] by {
        if i < j {
            crate::order::lemma_lt_irreflexive(q[i], q[j]);
        } else {
            crate::order::lemma_lt_irreflexive(q[j], q[i]);
        }
    }
}

/// Rewriting the log loses nothing: what a restart builds from the rewritten log are the
/// entities as they are, but that a component without an authority on record gets the one
/// that it would start with, and that threshold transactions which are not committed are
/// aborted; what was deleted; the departures that nobody has confirmed; the fences
/// against what departed; the partition; and the mark of reserved numbers.
pub proof fn law_compaction_restores(s: State, resend: bool)
    requires
        s.is_rewritable(),
    ensures
        store_of(s.compacted(), resend) == s.kept(resend),
{
    let m = s.entities;
    let ids = sorted(m.dom());
    let dead = sorted(s.deleted_entities);
    let gone = sorted(s.fenced_names());
    let away = sorted(s.pending_mesh.dom());
    lemma_sorted_of(m.dom());
    lemma_sorted_of(s.deleted_entities);
    lemma_sorted_of(s.fenced_names());
    lemma_sorted_of(s.pending_mesh.dom());
    lemma_no_dup(gone);
    lemma_no_dup(away);
    let a = s.fence_events(gone);
    let b = parked_events(s.pending_mesh, away);
    let c = register_events(m, ids);
    let d = tombstone_events(dead);
    let e = seq![s.partition_event()];
    let f = mark_events(s.entity_id_reservations);
    let t0 = Store::empty();
    assert forall|i: int| 0 <= i < gone.len() implies s.mesh_forwarded_epoch.contains_key(
        #[trigger] gone[i],
    ) && !t0.entities.contains_key(gone[i]) && !t0.tombstones.contains(gone[i]) by {
        assert(gone.to_set().contains(gone[i]));
    }
    lemma_fences(s, t0, gone, resend);
    let t1 = Store { forwarded: s.mesh_forwarded_epoch.restrict(s.fenced_names()), ..t0 };
    assert(t0.all_replayed(a, resend) == t1);
    lemma_parked(t1, s.pending_mesh, away, resend);
    let t2 = t1.all_replayed(b, resend);
    assert forall|i: int| 0 <= i < ids.len() implies m.contains_key(#[trigger] ids[i])
        && is_restorable(m[ids[i]]) by {
        assert(ids.to_set().contains(ids[i]));
    }
    lemma_registrations(t2, m, ids, resend);
    let t3 = t2.all_replayed(c, resend);
    let r = all_rebuilt(m);
    assert(r.restrict(ids.to_set()) =~= r);
    assert(t3.entities == r);
    assert forall|i: int| 0 <= i < dead.len() implies !t3.entities.contains_key(
        #[trigger] dead[i],
    ) by {
        assert(dead.to_set().contains(dead[i]));
        if m.contains_key(dead[i]) {
            assert(m.dom().contains(dead[i]));
        }
    }
    lemma_tombstones(t3, dead, resend);
    let t4 = t3.all_replayed(d, resend);
    assert(t3.tombstones.union(dead.to_set()) =~= s.deleted_entities);
    crate::recovery::lemma_kinds_differ();
    lemma_partition_kind(s);
    lemma_mark_fields(s.entity_id_reservations);
    let t5 = t4.replayed(s.partition_event(), resend);
    assert(e.drop_last() =~= Seq::empty());
    assert(t4.all_replayed(e, resend) == t5) by {
        assert(t4.all_replayed(e.drop_last(), resend) == t4);
    }
    let t6 = t5.all_replayed(f, resend);
    if s.entity_id_reservations > 0 {
        assert(f.drop_last() =~= Seq::empty());
        assert(t5.all_replayed(f.drop_last(), resend) == t5);
    }
    assert(t6 == (Store { id_hwm: s.entity_id_reservations, ..t5 }));
    lemma_replay_append(t0, a, b, resend);
    lemma_replay_append(t0, a + b, c, resend);
    lemma_replay_append(t0, a + b + c, d, resend);
    lemma_replay_append(t0, a + b + c + d, e, resend);
    lemma_replay_append(t0, a + b + c + d + e, f, resend);
    assert(s.compacted() == a + b + c + d + e + f);
    assert forall|k: Seq<char>| away.contains(k) == s.pending_mesh.contains_key(k) by {
        assert(away.to_set().contains(k) == away.contains(k));
    }
    assert(t6.forwarded =~= s.kept_fences());
    assert(t6.pending =~= s.kept(resend).pending);
    assert(t6.settled().entities =~= s.kept(resend).entities);
}

/// What a restart sends again after the log was rewritten is what it would have sent
/// before.
pub proof fn law_parked_is_sent_again(eid: Seq<char>, p: Parked, now_ms: u64)
    requires
        p.frame.get_str("target"@) == Some(p.target),
    ensures
        resent(eid, parked_event(eid, p), now_ms) == resent(eid, p.frame, now_ms),
{
    lemma_parked_fields(eid, p);
    reveal_strlit("kind");
    reveal_strlit("entity");
    reveal_strlit("target");
    reveal_strlit("authority_epoch");
    reveal_strlit("authority");
    reveal_strlit("src_region");
    reveal_strlit("lease_epoch");
    reveal_strlit("source_durable_gen");
    reveal_strlit("pos");
    reveal_strlit("vel");
    reveal_strlit("components");
    assert("kind"@.len() == 4 && "entity"@.len() == 6 && "target"@.len() == 6);
    assert("authority_epoch"@.len() == 15 && "authority"@.len() == 9 && "src_region"@.len() == 10);
    assert("lease_epoch"@.len() == 11 && "source_durable_gen"@.len() == 18);
    assert("pos"@.len() == 3 && "vel"@.len() == 3 && "components"@.len() == 10);
    assert("entity"@[0] != "target"@[0]);
    assert("pos"@[0] != "vel"@[0]);
    assert("src_region"@[0] != "components"@[0]);
    assert(resent_frame(eid, parked_event(eid, p))->Obj_0 =~= resent_frame(eid, p.frame)->Obj_0);
}

proof fn lemma_partition_kind(s: State)
    ensures
        kind_of(s.partition_event()) == "partition_config"@,
{
    reveal_strlit("kind");
    reveal_strlit("version");
    reveal_strlit("boundary");
    reveal_strlit("boundaries");
    reveal_strlit("splits");
    reveal_strlit("mesh_regions");
    assert("kind"@.len() == 4);
    assert("version"@.len() == 7);
    assert("boundary"@.len() == 8);
    assert("boundaries"@.len() == 10);
    assert("splits"@.len() == 6);
    assert("mesh_regions"@.len() == 12);
}

}

//! Handing an entity from one region to another.

use vstd::prelude::*;
use vstd::string::*;
use crate::authority::{
    advance_physics_island_authority, apply_authority_snapshot, authority_doc, authority_to_json,
};
use crate::doc::{Doc, Json, Num};
use crate::entity::{as_opt_str, succ, Ent};
use crate::float::{coordinate_doc, coordinate_json, Point, Vec2};
use crate::grants::{grant_all, revoke_all};
use crate::json::{opt_u64_doc, texts_doc};
use crate::order::sorted;
use crate::sight::{send_full, sorted_keys};
use crate::state::{
    note_rejected, opt_point, views, Hand, Metrics, PendingRemoteHandoff, PreparedHandoff,
    ServerState, State, WalStatus,
};
use crate::strmap::{Dup, texts, StrMap};
use crate::text::{opt_string, str_eq};

verus! {

broadcast use {crate::doc::group_json, crate::strmap::group_map};

impl State {
    /// Whether a region belongs to a neighbour broker, and to no worker here.
    pub open spec fn is_remote(self, region: Seq<char>) -> bool {
        self.mesh_regions.contains(region) && !self.region_worker.contains_key(region)
    }

    /// The position of an entity among the crossings that wait.
    pub open spec fn remote_index(self, eid: Seq<char>, i: int) -> int
        decreases self.pending_remote_handoffs.len() - i,
    {
        if i >= self.pending_remote_handoffs.len() {
            self.pending_remote_handoffs.len() as int
        } else if self.pending_remote_handoffs[i].0 == eid {
            i
        } else {
            self.remote_index(eid, i + 1)
        }
    }

    /// The state after a crossing to a neighbour was queued: one for each entity,
    /// with the latest target.
    pub open spec fn crossing_queued(self, eid: Seq<char>, target: Seq<char>) -> State {
        if self.entities.contains_key(eid) {
            let i = self.remote_index(eid, 0);
            State {
                pending_remote_handoffs: if 0 <= i < self.pending_remote_handoffs.len() {
                    self.pending_remote_handoffs.update(i, (eid, target))
                } else {
                    self.pending_remote_handoffs.push((eid, target))
                },
                ..self
            }
        } else {
            self
        }
    }
}

/// Whether a region belongs to a neighbour broker, and to no worker here.
pub fn is_remote_region(s: &ServerState, region: &str) -> (r: bool)
    ensures
        r == s@.is_remote(region@),
{
    s.mesh_regions.contains(region) && !s.region_worker.contains_key(region)
}

/// Queues a crossing to a neighbour.
pub fn queue_remote_handoff(s: &mut ServerState, eid: &str, target: &str) -> (r: bool)
    ensures
        r == old(s)@.entities.contains_key(eid@),
        final(s)@ == old(s)@.crossing_queued(eid@, target@),
{
    if !s.entities.contains_key(eid) {
        return false;
    }
    let ghost before = s@;
    let mut i: usize = 0;
    while i < s.pending_remote_handoffs.len()
        invariant
            i <= s.pending_remote_handoffs.len(),
            before == old(s)@,
            s@ == before,
            before.entities.contains_key(eid@),
            before.remote_index(eid@, i as int) == before.remote_index(eid@, 0),
        decreases s.pending_remote_handoffs.len() - i,
    {
        assert(before.pending_remote_handoffs[i as int] == s.pending_remote_handoffs@[i as int]@);
        if str_eq(s.pending_remote_handoffs[i].eid.as_str(), eid) {
            s.pending_remote_handoffs.set(
                i,
                PendingRemoteHandoff { eid: eid.to_owned(), target: target.to_owned() },
            );
            proof {
                assert(views(s.pending_remote_handoffs@) =~= before.pending_remote_handoffs.update(
                    i as int,
                    (eid@, target@),
                ));
            }
            return true;
        }
        i = i + 1;
    }
    s.pending_remote_handoffs.push(
        PendingRemoteHandoff { eid: eid.to_owned(), target: target.to_owned() },
    );
    proof {
        assert(views(s.pending_remote_handoffs@) =~= before.pending_remote_handoffs.push(
            (eid@, target@),
        ));
    }
    true
}

/// Whether a transfer of an entity is queued.
pub open spec fn is_queued(hs: Seq<Hand>, eid: Seq<char>) -> bool {
    exists|i: int| 0 <= i < hs.len() && (#[trigger] hs[i]).eid == eid
}

/// An optional value at a key.
pub open spec fn at<V>(m: Map<Seq<char>, V>, k: Seq<char>) -> Option<V> {
    if m.contains_key(k) {
        Some(m[k])
    } else {
        None
    }
}

impl State {
    /// The transfer of an entity to a region: its authority is handed on under a
    /// new epoch, from the holder of the old region to that of the new one.
    pub open spec fn handoff_of(
        self,
        eid: Seq<char>,
        old: Seq<char>,
        new: Seq<char>,
        pos: Option<Vec2>,
        reason: Seq<char>,
    ) -> Hand {
        let e = self.entities[eid];
        let o = at(self.region_worker, old);
        let w = at(self.region_worker, new);
        Hand {
            gen: succ(self.wal.pending_gen),
            eid,
            from: old,
            to: new,
            pos,
            version: succ(e.version),
            authority_epoch: e.next_island_epoch(),
            authority: authority_doc(e.advanced(o, w).authority),
            moved_comps: e.advanced_names(o, w),
            old_wid: o,
            new_wid: w,
            lease_epoch: at(self.region_lease_epoch, old),
            reason,
        }
    }
}

fn handoff_is_queued(s: &ServerState, eid: &str) -> (r: bool)
    ensures
        r == is_queued(s@.pending_handoffs, eid@),
{
    let ghost all = s@.pending_handoffs;
    let mut i: usize = 0;
    while i < s.pending_handoffs.len()
        invariant
            i <= s.pending_handoffs.len(),
            all == views(s.pending_handoffs@),
            forall|j: int| 0 <= j < i ==> (#[trigger] all[j]).eid != eid@,
        decreases s.pending_handoffs.len() - i,
    {
        assert(all[i as int] == s.pending_handoffs@[i as int]@);
        if str_eq(s.pending_handoffs[i].eid.as_str(), eid) {
            return true;
        }
        i = i + 1;
    }
    false
}

/// The string at a key.
pub fn string_at(m: &StrMap<String>, k: &str) -> (r: Option<String>)
    ensures
        opt_string(r) == at(m@, k@),
{
    match m.get(k) {
        Some(v) => Some(v.clone()),
        None => None,
    }
}

/// The number at a key.
pub fn u64_at(m: &StrMap<u64>, k: &str) -> (r: Option<u64>)
    ensures
        r == at(m@, k@),
{
    match m.get(k) {
        Some(v) => Some(*v),
        None => None,
    }
}

/// What becomes of a transfer between regions of this broker.
pub enum HandoffPlan {
    /// One is under way.
    Queued,
    /// There is no such entity.
    Missing,
    /// It is ready for the log.
    Ready(PreparedHandoff),
}

/// Prepares the transfer of an entity between two regions of this broker.
pub fn prepare_local_handoff(
    s: &ServerState,
    eid: &str,
    old: &str,
    new: &str,
    pos_override: &Option<Point>,
    reason: &str,
) -> (r: HandoffPlan)
    ensures
        match r {
            HandoffPlan::Queued => is_queued(s@.pending_handoffs, eid@),
            HandoffPlan::Missing => !is_queued(s@.pending_handoffs, eid@)
                && !s@.entities.contains_key(eid@),
            HandoffPlan::Ready(h) => {
                &&& !is_queued(s@.pending_handoffs, eid@)
                &&& s@.entities.contains_key(eid@)
                &&& h@ == s@.handoff_of(eid@, old@, new@, opt_point(*pos_override), reason@)
            },
        },
{
    if handoff_is_queued(s, eid) {
        return HandoffPlan::Queued;
    }
    let old_wid = string_at(&s.region_worker, old);
    let new_wid = string_at(&s.region_worker, new);
    match s.entities.get(eid) {
        None => HandoffPlan::Missing,
        Some(e) => {
            let mut next = e.dup();
            let (authority_epoch, moved_comps) = advance_physics_island_authority(
                &mut next,
                as_opt_str(&old_wid),
                as_opt_str(&new_wid),
            );
            let pos = match pos_override {
                Some(p) => Some(p.dup()),
                None => None,
            };
            HandoffPlan::Ready(
                PreparedHandoff {
                    gen: s.wal.pending_gen.saturating_add(1),
                    eid: eid.to_owned(),
                    from: old.to_owned(),
                    to: new.to_owned(),
                    pos,
                    version: e.version.saturating_add(1),
                    authority_epoch,
                    authority: authority_to_json(&next.authority),
                    moved_comps,
                    old_wid,
                    new_wid,
                    lease_epoch: u64_at(&s.region_lease_epoch, old),
                    reason: reason.to_owned(),
                },
            )
        },
    }
}

/// The event of a transfer. It tells a position only where the transfer puts the entity
/// somewhere: what was written of the entity stands.
pub open spec fn handoff_event(h: Hand) -> Doc {
    let m = map![
            "kind"@ => Doc::Str("transfer"@),
            "entity"@ => Doc::Str(h.eid),
            "version"@ => Doc::Num(Num::Pos(h.version)),
            "authority_epoch"@ => Doc::Num(Num::Pos(h.authority_epoch)),
            "authority"@ => h.authority,
            "authority_snapshot"@ => h.authority,
            "components"@ => texts_doc(h.moved_comps),
            "from"@ => Doc::Str(h.from),
            "to"@ => Doc::Str(h.to),
            "source"@ => Doc::Str(h.from),
            "target"@ => Doc::Str(h.to),
            "lease_epoch"@ => opt_u64_doc(h.lease_epoch),
            "reason"@ => Doc::Str(h.reason),
            "gen"@ => Doc::Num(Num::Pos(h.gen))];
    match h.pos {
        Some(p) => Doc::Obj(m.insert("x"@, coordinate_doc(p.x)).insert("pos"@, p.doc())),
        None => Doc::Obj(m),
    }
}

/// The event of a transfer.
pub fn prepared_handoff_wal_event(h: &PreparedHandoff) -> (r: Json)
    ensures
        r@ == handoff_event(h@),
{
    let m = StrMap::new().with("kind", Json::str("transfer")).with("entity", Json::str(h.eid.as_str())).with(
        "version",
        Json::u64(h.version),
    ).with("authority_epoch", Json::u64(h.authority_epoch)).with("authority", h.authority.dup()).with(
        "authority_snapshot",
        h.authority.dup(),
    ).with("components", Json::texts(&h.moved_comps)).with("from", Json::str(h.from.as_str())).with(
        "to",
        Json::str(h.to.as_str()),
    ).with("source", Json::str(h.from.as_str())).with("target", Json::str(h.to.as_str())).with(
        "lease_epoch",
        Json::opt_u64(h.lease_epoch),
    ).with("reason", Json::str(h.reason.as_str())).with("gen", Json::u64(h.gen));
    match &h.pos {
        Some(p) => m.with("x", coordinate_json(&p.x)).with("pos", p.json()).done(),
        None => m.done(),
    }
}

impl State {
    /// The state after a transfer went to the log, or did not.
    pub open spec fn handoff_staged(self, h: Hand, written: bool) -> State {
        if written {
            State {
                wal: WalStatus { pending_gen: h.gen, ..self.wal },
                pending_handoffs: self.pending_handoffs.push(h),
                ..self
            }
        } else {
            self
        }
    }

    /// Whether an entity is a part of another.
    pub open spec fn is_part(self, cid: Seq<char>, eid: Seq<char>) -> bool {
        &&& cid != eid
        &&& self.entities.contains_key(cid)
        &&& self.entities[cid].components.contains_key("parent"@)
        &&& self.entities[cid].components["parent"@].as_str() == Some(eid)
    }

    /// The parts of an entity that are not in a region yet.
    pub open spec fn parts_to_move(
        self,
        eid: Seq<char>,
        region: Seq<char>,
        names: Seq<Seq<char>>,
    ) -> Seq<Seq<char>>
        decreases names.len(),
    {
        if names.len() == 0 {
            Seq::empty()
        } else {
            let before = self.parts_to_move(eid, region, names.drop_last());
            let c = names.last();
            if self.is_part(c, eid) && self.entities[c].region != region {
                before.push(c)
            } else {
                before
            }
        }
    }
}

/// Queues a transfer that is on the log. What comes back are the parts of the
/// entity that have to follow into the same region.
pub fn queue_prepared_handoff(s: &mut ServerState, h: PreparedHandoff, written: bool) -> (r: Vec<
    String,
>)
    ensures
        final(s)@ == old(s)@.handoff_staged(h@, written),
        texts(r@) == if written {
            old(s)@.parts_to_move(h@.eid, h@.to, sorted(old(s)@.entities.dom()))
        } else {
            Seq::empty()
        },
{
    let mut out: Vec<String> = Vec::new();
    proof {
        assert(texts(out@) =~= Seq::empty());
    }
    if !written {
        return out;
    }
    let ghost before = s@;
    let ids = sorted_keys(&s.entities);
    let ghost all = texts(ids@);
    let mut i: usize = 0;
    proof {
        assert(all.take(0) =~= Seq::empty());
    }
    while i < ids.len()
        invariant
            i <= ids.len(),
            all == texts(ids@),
            s@ == before,
            texts(out@) == before.parts_to_move(h@.eid, h@.to, all.take(i as int)),
        decreases ids.len() - i,
    {
        let c = ids[i].as_str();
        let ghost went = texts(out@);
        proof {
            assert(all.take(i + 1).drop_last() =~= all.take(i as int));
            assert(all.take(i + 1).last() == c@);
        }
        let moves: bool = !str_eq(c, h.eid.as_str()) && match s.entities.get(c) {
            Some(e) => match e.components.get("parent") {
                Some(p) => match p.as_str() {
                    Some(t) => str_eq(t, h.eid.as_str()) && !str_eq(e.region.as_str(), h.to.as_str()),
                    None => false,
                },
                None => false,
            },
            None => false,
        };
        if moves {
            out.push(ids[i].clone());
            proof {
                assert(texts(out@) =~= went.push(c@));
            }
        }
        i = i + 1;
    }
    proof {
        assert(all.take(i as int) =~= all);
    }
    s.wal.pending_gen = h.gen;
    let ghost queued = views(s.pending_handoffs@);
    s.pending_handoffs.push(h);
    proof {
        assert(views(s.pending_handoffs@) =~= queued.push(h@));
    }
    out
}

/// The entity after a transfer: where it is and how it moves stays as it was written,
/// unless the transfer puts it somewhere.
pub open spec fn moved(e: Ent, h: Hand) -> Ent {
    (Ent {
        pos: match h.pos {
            Some(p) => p,
            None => e.pos,
        },
        region: h.to,
        version: h.version,
        ..e
    }).snapshot_applied(h.authority)
}

/// The line about a transfer that found no entity.
pub open spec fn handoff_lost(h: Hand, reason: Seq<char>) -> Doc {
    Doc::Obj(
        map![
            "entity"@ => Doc::Str(h.eid),
            "from"@ => Doc::Str(h.from),
            "to"@ => Doc::Str(h.to),
            "reason"@ => Doc::Str(reason)],
    )
}

fn handoff_lost_json(h: &PreparedHandoff, reason: &str) -> (r: Json)
    ensures
        r@ == handoff_lost(h@, reason@),
{
    StrMap::new().with("entity", Json::str(h.eid.as_str())).with("from", Json::str(h.from.as_str())).with(
        "to",
        Json::str(h.to.as_str()),
    ).with("reason", Json::str(reason)).done()
}

impl State {
    /// The state after an entity's new owner was shown it and granted components.
    pub open spec fn received(self, wid: Seq<char>, eid: Seq<char>, comps: Seq<Seq<char>>) -> State {
        if self.workers.contains_key(wid) {
            let s = if self.workers[wid].view.contains(eid) {
                self
            } else {
                self.shown(wid, eid)
            };
            s.all_granted(wid, eid, comps)
        } else {
            self
        }
    }

    /// The state after a transfer was applied: the entity has moved, the old owner
    /// has lost it, and the new one has it.
    pub open spec fn handoff_applied(self, h: Hand) -> State {
        if self.entities.contains_key(h.eid) {
            let s = State {
                metrics: Metrics { handoffs: succ(self.metrics.handoffs), ..self.metrics },
                ..self.with_entity(h.eid, moved(self.entities[h.eid], h))
            };
            let s2 = if h.old_wid is Some && s.workers.contains_key(h.old_wid->0) {
                s.all_revoked(h.old_wid->0, h.eid, h.moved_comps)
            } else {
                s
            };
            if h.new_wid is Some {
                s2.received(h.new_wid->0, h.eid, h.moved_comps)
            } else {
                s2
            }
        } else {
            self.noted(
                handoff_lost(
                    h,
                    "prepared handoff target entity missing or deleted before durable apply"@,
                ),
            )
        }
    }

    /// The state after some transfers were applied.
    pub open spec fn handoffs_applied(self, hs: Seq<Hand>) -> State
        decreases hs.len(),
    {
        if hs.len() == 0 {
            self
        } else {
            self.handoffs_applied(hs.drop_last()).handoff_applied(hs.last())
        }
    }

    /// The state after some transfers could not be made durable.
    pub open spec fn handoffs_unsynced(self, hs: Seq<Hand>) -> State
        decreases hs.len(),
    {
        if hs.len() == 0 {
            self
        } else {
            self.handoffs_unsynced(hs.drop_last()).noted(
                handoff_lost(
                    hs.last(),
                    "wal_sync_failed: staged handoff did not cross durable watermark; authority not transferred"@,
                ),
            )
        }
    }

    /// The state after the log was made durable, or not: with success the queued
    /// transfers are applied in order; without it they stay queued.
    pub open spec fn handoffs_synced(self, synced: bool) -> State {
        if self.pending_handoffs.len() == 0 {
            self
        } else if synced {
            (State {
                pending_handoffs: Seq::empty(),
                wal: WalStatus {
                    durable_gen: max_hand_gen(self.pending_handoffs, self.wal.durable_gen),
                    ..self.wal
                },
                ..self
            }).handoffs_applied(self.pending_handoffs)
        } else {
            self.handoffs_unsynced(self.pending_handoffs)
        }
    }
}

/// The highest generation of some transfers, and at least `least`.
pub open spec fn max_hand_gen(hs: Seq<Hand>, least: u64) -> u64
    decreases hs.len(),
{
    if hs.len() == 0 {
        least
    } else {
        let m = max_hand_gen(hs.drop_last(), least);
        if m < hs.last().gen {
            hs.last().gen
        } else {
            m
        }
    }
}

/// Shows an entity to its new owner and grants it components.
pub fn receive(s: &mut ServerState, wid: &str, eid: &str, comps: &Vec<String>)
    ensures
        final(s)@ == old(s)@.received(wid@, eid@, texts(comps@)),
{
    let known: bool = s.workers.contains_key(wid);
    if !known {
        return;
    }
    let seen: bool = match s.workers.get(wid) {
        Some(w) => w.view.contains(eid),
        None => true,
    };
    if !seen {
        send_full(s, wid, eid);
    }
    grant_all(s, wid, eid, comps);
}

/// Applies a transfer that is durable.
pub fn apply_prepared_handoff(s: &mut ServerState, h: &PreparedHandoff)
    ensures
        final(s)@ == old(s)@.handoff_applied(h@),
{
    let eid = h.eid.as_str();
    match s.entities.remove(eid) {
        Some(mut e) => {
            if let Some(p) = &h.pos {
                e.pos = p.dup();
            }
            e.region = h.to.clone();
            e.version = h.version;
            apply_authority_snapshot(&mut e, &h.authority);
            s.entities.insert(eid, e);
        },
        None => {
            note_rejected(
                s,
                handoff_lost_json(
                    h,
                    "prepared handoff target entity missing or deleted before durable apply",
                ),
            );
            return;
        },
    }
    s.metrics.handoffs = s.metrics.handoffs.saturating_add(1);
    if let Some(ow) = &h.old_wid {
        if s.workers.contains_key(ow.as_str()) {
            revoke_all(s, ow.as_str(), eid, &h.moved_comps);
        }
    }
    if let Some(nw) = &h.new_wid {
        receive(s, nw.as_str(), eid, &h.moved_comps);
    }
}

/// Closes the group of queued transfers once the log was made durable, or not.
pub fn flush_pending_handoffs(s: &mut ServerState, synced: bool)
    ensures
        final(s)@ == old(s)@.handoffs_synced(synced),
{
    if s.pending_handoffs.len() == 0 {
        return;
    }
    let ghost before = s@;
    let mut pending: Vec<PreparedHandoff> = Vec::new();
    core::mem::swap(&mut s.pending_handoffs, &mut pending);
    let ghost all = views(pending@);
    let mut i: usize = 0;
    proof {
        assert(all.take(0) =~= Seq::empty());
        assert(views(s.pending_handoffs@) =~= Seq::empty());
    }
    if !synced {
        let ghost emptied = s@;
        while i < pending.len()
            invariant
                i <= pending.len(),
                all == views(pending@),
                s@ == emptied.handoffs_unsynced(all.take(i as int)),
            decreases pending.len() - i,
        {
            proof {
                assert(all.take(i + 1).drop_last() =~= all.take(i as int));
                assert(all.take(i + 1).last() == pending@[i as int]@);
            }
            note_rejected(
                s,
                handoff_lost_json(
                    &pending[i],
                    "wal_sync_failed: staged handoff did not cross durable watermark; authority not transferred",
                ),
            );
            i = i + 1;
        }
        proof {
            assert(all.take(i as int) =~= all);
            lemma_unsynced(before, all);
            lemma_unsynced(emptied, all);
            lemma_unsynced_same(before, emptied, all);
        }
        s.pending_handoffs = pending;
        return;
    }
    let mut top: u64 = s.wal.durable_gen;
    while i < pending.len()
        invariant
            i <= pending.len(),
            all == views(pending@),
            top == max_hand_gen(all.take(i as int), before.wal.durable_gen),
        decreases pending.len() - i,
    {
        proof {
            assert(all.take(i + 1).drop_last() =~= all.take(i as int));
            assert(all.take(i + 1).last() == pending@[i as int]@);
        }
        if top < pending[i].gen {
            top = pending[i].gen;
        }
        i = i + 1;
    }
    proof {
        assert(all.take(i as int) =~= all);
    }
    s.wal.durable_gen = top;
    let ghost ready = s@;
    i = 0;
    while i < pending.len()
        invariant
            i <= pending.len(),
            all == views(pending@),
            s@ == ready.handoffs_applied(all.take(i as int)),
        decreases pending.len() - i,
    {
        proof {
            assert(all.take(i + 1).drop_last() =~= all.take(i as int));
            assert(all.take(i + 1).last() == pending@[i as int]@);
        }
        apply_prepared_handoff(s, &pending[i]);
        i = i + 1;
    }
    proof {
        assert(all.take(i as int) =~= all);
    }
}

proof fn lemma_unsynced(s: State, hs: Seq<Hand>)
    ensures
        s.handoffs_unsynced(hs) == (State { rejected: s.handoffs_unsynced(hs).rejected, ..s }),
    decreases hs.len(),
{
    if hs.len() > 0 {
        lemma_unsynced(s, hs.drop_last());
    }
}

proof fn lemma_unsynced_same(a: State, b: State, hs: Seq<Hand>)
    requires
        a.rejected == b.rejected,
    ensures
        a.handoffs_unsynced(hs).rejected == b.handoffs_unsynced(hs).rejected,
    decreases hs.len(),
{
    if hs.len() > 0 {
        lemma_unsynced_same(a, b, hs.drop_last());
    }
}

/// A transfer that is not durable changes nothing but the record of rejections, and
/// is tried again: the old owner keeps the entity.
pub proof fn law_unsynced_handoff_keeps_owner(s: State)
    ensures
        s.handoffs_synced(false) == (State {
            rejected: s.handoffs_synced(false).rejected,
            ..s
        }),
{
    lemma_unsynced(s, s.pending_handoffs);
}

}

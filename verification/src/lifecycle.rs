//! Creating and deleting entities on a peer's request.

use vstd::prelude::*;
use crate::doc::{docs, Doc, Json, Num};
use crate::entity::{
    authority_epoch_from_value, is_platform_reserved_component, platform_reserved, succ,
    value_epoch, Ent,
};
use crate::float::{Float, Point, Vec2};
use crate::grants::{
    authoritative_entity_owner, reject_stale_authority_epoch_val, reserved_reason, stale_rejected,
    update_rejected, update_rejected_json,
};
use crate::recovery::ev_components;
use crate::sight::hide_from_all;
use crate::spawn::{newborn, prepare_spawn, region_of_spawn, PreparedSpawn};
use crate::state::{emit, views, worker_has_attr, Hand, PreparedHandoff, ServerState, State};
use crate::strmap::{Dup, StrMap};
use crate::text::str_eq;

verus! {

broadcast use {crate::doc::group_json, crate::strmap::group_map};

/// What a peer is told whose request is refused: an answer to the request where it
/// has an identity, and else a rejection.
pub open spec fn request_refused(
    f: Doc,
    response: Seq<char>,
    eid: Seq<char>,
    comp: Seq<char>,
    reason: Seq<char>,
) -> Doc {
    match f.get("request_id"@) {
        Some(req) => Doc::Obj(
            map![
                "op"@ => Doc::Str(response),
                "request_id"@ => req,
                "entity"@ => Doc::Str(eid),
                "success"@ => Doc::Bool(false),
                "reason"@ => Doc::Str(reason)],
        ),
        None => update_rejected(eid, comp, reason),
    }
}

/// Refuses a peer's request.
pub fn refuse_request(
    s: &mut ServerState,
    wid: &str,
    f: &Json,
    response: &str,
    eid: &str,
    comp: &str,
    reason: &str,
)
    ensures
        final(s)@ == old(s)@.emitted(wid@, request_refused(f@, response@, eid@, comp@, reason@)),
{
    match f.get("request_id") {
        Some(req) => {
            let msg = StrMap::new().with("op", Json::str(response)).with("request_id", req.dup()).with(
                "entity",
                Json::str(eid),
            ).with("success", Json::Bool(false)).with("reason", Json::str(reason)).done();
            emit(s, wid, msg);
        },
        None => emit(s, wid, update_rejected_json(eid, comp, reason)),
    }
}

/// The answer to a request about an entity.
pub open spec fn request_answer(req: Doc, response: Seq<char>, eid: Seq<char>, success: bool) -> Doc {
    Doc::Obj(
        map![
            "op"@ => Doc::Str(response),
            "request_id"@ => req,
            "entity"@ => Doc::Str(eid),
            "success"@ => Doc::Bool(success)],
    )
}

impl State {
    /// The state after a request that has an identity was answered.
    pub open spec fn answered(
        self,
        wid: Seq<char>,
        f: Doc,
        response: Seq<char>,
        eid: Seq<char>,
        success: bool,
    ) -> State {
        match f.get("request_id"@) {
            Some(req) => self.emitted(wid, request_answer(req, response, eid, success)),
            None => self,
        }
    }
}

fn answer_request(
    s: &mut ServerState,
    wid: &str,
    f: &Json,
    response: &str,
    eid: &str,
    success: bool,
)
    ensures
        final(s)@ == old(s)@.answered(wid@, f@, response@, eid@, success),
{
    if let Some(req) = f.get("request_id") {
        let msg = StrMap::new().with("op", Json::str(response)).with("request_id", req.dup()).with(
            "entity",
            Json::str(eid),
        ).with("success", Json::Bool(success)).done();
        emit(s, wid, msg);
    }
}

/// The numbers of a list, as floats.
pub open spec fn floats_in(s: Seq<Doc>) -> Seq<u64>
    decreases s.len(),
{
    if s.len() == 0 {
        Seq::empty()
    } else {
        let before = floats_in(s.drop_last());
        match s.last().as_float() {
            Some(b) => before.push(b),
            None => before,
        }
    }
}

/// The point in the plane of a list of coordinates: of three the first and the
/// last, of two both, of one that and zero.
pub open spec fn planar(p: Seq<u64>) -> Vec2 {
    if p.len() >= 3 {
        Vec2 { x: Some(p[0]), y: Some(p[2]) }
    } else if p.len() == 2 {
        Vec2 { x: Some(p[0]), y: Some(p[1]) }
    } else if p.len() == 1 {
        Vec2 { x: Some(p[0]), y: Some(0) }
    } else {
        Vec2::zero()
    }
}

/// The point that a component of a new entity denotes.
pub open spec fn spawn_point(comps: Map<Seq<char>, Doc>, comp: Seq<char>) -> Vec2 {
    if comps.contains_key(comp) {
        match comps[comp] {
            Doc::Arr(s) => planar(floats_in(s)),
            _ => Vec2::zero(),
        }
    } else {
        Vec2::zero()
    }
}

fn read_floats(v: &Vec<Json>) -> (r: Vec<Float>)
    ensures
        views(r@) == floats_in(docs(v@)),
{
    let ghost all = docs(v@);
    let mut out: Vec<Float> = Vec::new();
    let mut i: usize = 0;
    proof {
        assert(all.take(0) =~= Seq::empty());
        assert(views(out@) =~= Seq::<u64>::empty());
    }
    while i < v.len()
        invariant
            i <= v.len(),
            all == docs(v@),
            views(out@) == floats_in(all.take(i as int)),
        decreases v.len() - i,
    {
        let ghost before = views(out@);
        proof {
            assert(all.take(i + 1).drop_last() =~= all.take(i as int));
            assert(all.take(i + 1).last() == v@[i as int]@);
        }
        if let Some(f) = Float::of_json(&v[i]) {
            out.push(f);
            proof {
                assert(views(out@) =~= before.push(f@));
            }
        }
        i = i + 1;
    }
    proof {
        assert(all.take(i as int) =~= all);
    }
    out
}

fn read_spawn_point(comps: &StrMap<Json>, comp: &str) -> (r: Point)
    ensures
        r@ == spawn_point(comps@, comp@),
{
    let v = match comps.get(comp) {
        Some(j) => match j.as_array() {
            Some(v) => v,
            None => return Point { x: Some(Float::zero()), y: Some(Float::zero()) },
        },
        None => return Point { x: Some(Float::zero()), y: Some(Float::zero()) },
    };
    let p = read_floats(v);
    let ghost q = views(p@);
    proof {
        assert(q.len() == p@.len());
    }
    if p.len() >= 3 {
        assert(q[0] == p@[0]@ && q[2] == p@[2]@);
        Point { x: Some(p[0].dup()), y: Some(p[2].dup()) }
    } else if p.len() == 2 {
        assert(q[0] == p@[0]@ && q[1] == p@[1]@);
        Point { x: Some(p[0].dup()), y: Some(p[1].dup()) }
    } else if p.len() == 1 {
        assert(q[0] == p@[0]@);
        Point { x: Some(p[0].dup()), y: Some(Float::zero()) }
    } else {
        Point { x: Some(Float::zero()), y: Some(Float::zero()) }
    }
}

/// The components that a new entity is asked to have, but for its position and
/// velocity.
pub open spec fn asked_components(f: Doc) -> Map<Seq<char>, Doc> {
    ev_components(f).remove("pos"@).remove("vel"@)
}

/// Whether one of the components is kept by the platform.
pub open spec fn asks_reserved(comps: Map<Seq<char>, Doc>) -> bool {
    exists|k: Seq<char>| #[trigger] comps.contains_key(k) && platform_reserved(k)
}

fn has_reserved(comps: &StrMap<Json>) -> (r: bool)
    ensures
        r == asks_reserved(comps@),
{
    let n: usize = comps.len();
    let ghost order = comps.order();
    let mut i: usize = 0;
    while i < n
        invariant
            i <= n == order.len(),
            order == comps.order(),
            forall|j: int| 0 <= j < i ==> !platform_reserved(#[trigger] order[j]),
        decreases n - i,
    {
        let k = comps.key_at(i);
        if is_platform_reserved_component(k) {
            assert(comps@.contains_key(k@) && platform_reserved(k@));
            return true;
        }
        i = i + 1;
    }
    proof {
        assert forall|k: Seq<char>| #[trigger] comps@.contains_key(k) implies !platform_reserved(k) by {
            assert(order.to_set().contains(k));
            let j = choose|j: int| 0 <= j < order.len() && order[j] == k;
            assert(!platform_reserved(order[j]));
        }
    }
    false
}

/// Why a new entity is refused; none where it is not.
pub open spec fn create_refusal(s: State, wid: Seq<char>, f: Doc, eid: Seq<char>) -> Option<
    (Seq<char>, Seq<char>),
> {
    if s.draining {
        Some(("create"@, "draining"@))
    } else if s.deleted_entities.contains(eid) {
        Some(("create"@, "entity tombstoned"@))
    } else if asks_reserved(asked_components(f)) && !s.has_attr(wid, "kernel_admin"@) {
        Some(("kernel"@, reserved_reason()))
    } else {
        None
    }
}

/// The entity that a request asks for.
pub open spec fn asked_entity(s: State, f: Doc, cell: Seq<char>) -> Ent {
    let pos = spawn_point(ev_components(f), "pos"@);
    newborn(
        pos,
        spawn_point(ev_components(f), "vel"@),
        asked_components(f),
        s.region_for(pos.x, f.get_str("region"@), cell),
        None,
        None,
    )
}

/// The position that a request for a new entity asks for.
pub fn read_position(f: &Json) -> (r: Point)
    ensures
        r@ == spawn_point(ev_components(f@), "pos"@),
{
    match f.get("components") {
        Some(c) => match c.as_object() {
            Some(m) => read_spawn_point(m, "pos"),
            None => read_spawn_point(&StrMap::new(), "pos"),
        },
        None => read_spawn_point(&StrMap::new(), "pos"),
    }
}

impl State {
    /// Whether a request for a new entity is accepted, and the entity is new: neither here
    /// nor on its way to a neighbour that has not confirmed it.
    pub open spec fn creates(self, wid: Seq<char>, f: Doc) -> bool {
        &&& f.get_str("entity"@) is Some
        &&& create_refusal(self, wid, f, f.get_str("entity"@)->0) is None
        &&& !self.entities.contains_key(f.get_str("entity"@)->0)
        &&& !self.pending_mesh.contains_key(f.get_str("entity"@)->0)
    }

    /// The state after a request for a new entity that makes none.
    pub open spec fn create_answered(self, wid: Seq<char>, f: Doc) -> State {
        match f.get_str("entity"@) {
            None => self,
            Some(eid) => match create_refusal(self, wid, f, eid) {
                Some((comp, reason)) => self.emitted(
                    wid,
                    request_refused(f, "CreateEntityResponse"@, eid, comp, reason),
                ),
                None => self.answered(wid, f, "CreateEntityResponse"@, eid, false),
            },
        }
    }

    /// The state after a new entity was registered, or was not.
    pub open spec fn create_finished(
        self,
        wid: Seq<char>,
        f: Doc,
        eid: Seq<char>,
        created: bool,
    ) -> State {
        if created {
            self.answered(wid, f, "CreateEntityResponse"@, eid, true)
        } else {
            self.emitted(
                wid,
                request_refused(
                    f,
                    "CreateEntityResponse"@,
                    eid,
                    "create"@,
                    "wal_persist_failed: create not durably persisted"@,
                ),
            )
        }
    }
}

/// Takes a request for a new entity. What comes out goes to the log.
pub fn plan_create(s: &mut ServerState, wid: &str, f: &Json, cell: &str) -> (r: Option<
    PreparedSpawn,
>)
    ensures
        match r {
            Some(p) => {
                &&& old(s)@.creates(wid@, f@)
                &&& final(s)@ == old(s)@
                &&& p.eid@ == f@.get_str("entity"@)->0
                &&& p.entity@ == asked_entity(old(s)@, f@, cell@)
                &&& p.epoch == 1
            },
            None => {
                &&& !old(s)@.creates(wid@, f@)
                &&& final(s)@ == old(s)@.create_answered(wid@, f@)
            },
        },
{
    let eid = match f.get_str("entity") {
        Some(e) => e,
        None => return None,
    };
    if s.draining {
        refuse_request(s, wid, f, "CreateEntityResponse", eid, "create", "draining");
        return None;
    }
    if s.deleted_entities.contains(eid) {
        refuse_request(s, wid, f, "CreateEntityResponse", eid, "create", "entity tombstoned");
        return None;
    }
    let mut comps: StrMap<Json> = match f.get("components") {
        Some(c) => match c.as_object() {
            Some(m) => m.dup(),
            None => StrMap::new(),
        },
        None => StrMap::new(),
    };
    let pos = read_spawn_point(&comps, "pos");
    let vel = read_spawn_point(&comps, "vel");
    comps.remove("pos");
    comps.remove("vel");
    if has_reserved(&comps) && !worker_has_attr(s, wid, "kernel_admin") {
        refuse_request(
            s,
            wid,
            f,
            "CreateEntityResponse",
            eid,
            "kernel",
            "platform-reserved components require the 'kernel_admin' attribute",
        );
        return None;
    }
    if s.entities.contains_key(eid) || s.pending_mesh.contains_key(eid) {
        answer_request(s, wid, f, "CreateEntityResponse", eid, false);
        return None;
    }
    let region = region_of_spawn(s, &pos.x, f.get_str("region"), cell);
    prepare_spawn(s, eid, pos, vel, comps, region.as_str(), None, None)
}

/// Answers a request for a new entity once it is registered, or is not.
pub fn finish_create(s: &mut ServerState, wid: &str, f: &Json, eid: &str, created: bool)
    ensures
        final(s)@ == old(s)@.create_finished(wid@, f@, eid@, created),
{
    if created {
        answer_request(s, wid, f, "CreateEntityResponse", eid, true);
    } else {
        refuse_request(
            s,
            wid,
            f,
            "CreateEntityResponse",
            eid,
            "create",
            "wal_persist_failed: create not durably persisted",
        );
    }
}

/// The event that an entity was deleted.
pub open spec fn tombstone_event(eid: Seq<char>, version: u64, writer: Seq<char>) -> Doc {
    Doc::Obj(
        map![
            "kind"@ => Doc::Str("delete_tombstone"@),
            "entity"@ => Doc::Str(eid),
            "version"@ => Doc::Num(Num::Pos(version)),
            "writer"@ => Doc::Str(writer)],
    )
}

/// The event that an entity was deleted.
pub fn tombstone_wal_event(eid: &str, version: u64, writer: &str) -> (r: Json)
    ensures
        r@ == tombstone_event(eid@, version, writer@),
{
    StrMap::new().with("kind", Json::str("delete_tombstone")).with("entity", Json::str(eid)).with(
        "version",
        Json::u64(version),
    ).with("writer", Json::str(writer)).done()
}

/// The answer to a deletion of what is deleted.
pub open spec fn deleted_already(req: Doc, eid: Seq<char>) -> Doc {
    Doc::Obj(
        map![
            "op"@ => Doc::Str("DeleteEntityResponse"@),
            "request_id"@ => req,
            "entity"@ => Doc::Str(eid),
            "success"@ => Doc::Bool(true),
            "idempotent"@ => Doc::Bool(true)],
    )
}

/// The transfers of other entities.
pub open spec fn without(hs: Seq<Hand>, eid: Seq<char>) -> Seq<Hand>
    decreases hs.len(),
{
    if hs.len() == 0 {
        Seq::empty()
    } else {
        let before = without(hs.drop_last(), eid);
        if hs.last().eid == eid {
            before
        } else {
            before.push(hs.last())
        }
    }
}

impl State {
    /// Whether a request for a deletion is accepted: the entity is here, the peer
    /// acts for it, and under the current epoch.
    pub open spec fn deletes(self, wid: Seq<char>, f: Doc) -> bool {
        match f.get_str("entity"@) {
            None => false,
            Some(eid) => {
                &&& !self.deleted_entities.contains(eid)
                &&& self.entity_refusal(wid, eid) is None
                &&& !self.is_stale(wid, eid, "delete"@, value_epoch(f))
            },
        }
    }

    /// The state after a request for a deletion that deletes nothing.
    pub open spec fn delete_answered(self, wid: Seq<char>, f: Doc) -> State {
        match f.get_str("entity"@) {
            None => self,
            Some(eid) => if self.deleted_entities.contains(eid) {
                match f.get("request_id"@) {
                    Some(req) => self.emitted(wid, deleted_already(req, eid)),
                    None => self,
                }
            } else if self.entity_refusal(wid, eid) is Some {
                self.emitted(
                    wid,
                    request_refused(
                        f,
                        "DeleteEntityResponse"@,
                        eid,
                        "delete"@,
                        self.entity_refusal(wid, eid)->0,
                    ),
                )
            } else {
                self.emitted(
                    wid,
                    stale_rejected(
                        eid,
                        "delete"@,
                        self.claimed_epoch(wid, eid, "delete"@, value_epoch(f))->0,
                        self.entities[eid].epoch("delete"@),
                    ),
                )
            },
        }
    }

    /// The state without an entity that is deleted for good: no transfer of it is
    /// under way, nobody sees it, and it can never come back.
    pub open spec fn buried(self, eid: Seq<char>) -> State {
        let s = State {
            deleted_entities: self.deleted_entities.insert(eid),
            pending_handoffs: without(self.pending_handoffs, eid),
            pending_handoff_intent: self.pending_handoff_intent.remove(eid),
            entities: self.entities.remove(eid),
            ..self
        };
        if self.entities.contains_key(eid) {
            s.hidden_from_all(eid)
        } else {
            s
        }
    }

    /// The state after a deletion went to the log, or did not.
    pub open spec fn delete_finished(
        self,
        wid: Seq<char>,
        f: Doc,
        eid: Seq<char>,
        written: bool,
    ) -> State {
        if written {
            self.buried(eid).answered(
                wid,
                f,
                "DeleteEntityResponse"@,
                eid,
                self.entities.contains_key(eid),
            )
        } else {
            self.emitted(
                wid,
                request_refused(
                    f,
                    "DeleteEntityResponse"@,
                    eid,
                    "delete"@,
                    "wal_persist_failed: tombstone not durable"@,
                ),
            )
        }
    }
}

/// Takes a request for a deletion. What comes out goes to the log.
pub fn plan_delete(s: &mut ServerState, wid: &str, f: &Json) -> (r: Option<Json>)
    ensures
        match r {
            Some(ev) => {
                &&& old(s)@.deletes(wid@, f@)
                &&& final(s)@ == old(s)@
                &&& ev@ == tombstone_event(
                    f@.get_str("entity"@)->0,
                    succ(old(s)@.entities[f@.get_str("entity"@)->0].version),
                    wid@,
                )
            },
            None => {
                &&& !old(s)@.deletes(wid@, f@)
                &&& final(s)@ == old(s)@.delete_answered(wid@, f@)
            },
        },
{
    let eid = match f.get_str("entity") {
        Some(e) => e,
        None => return None,
    };
    if s.deleted_entities.contains(eid) {
        if let Some(req) = f.get("request_id") {
            let msg = StrMap::new().with("op", Json::str("DeleteEntityResponse")).with(
                "request_id",
                req.dup(),
            ).with("entity", Json::str(eid)).with("success", Json::Bool(true)).with(
                "idempotent",
                Json::Bool(true),
            ).done();
            emit(s, wid, msg);
        }
        return None;
    }
    if let Err(reason) = authoritative_entity_owner(s, wid, eid) {
        refuse_request(s, wid, f, "DeleteEntityResponse", eid, "delete", reason.as_str());
        return None;
    }
    if reject_stale_authority_epoch_val(s, wid, eid, "delete", authority_epoch_from_value(f)) {
        return None;
    }
    let version: u64 = match s.entities.get(eid) {
        Some(e) => e.version.saturating_add(1),
        None => 0,
    };
    Some(tombstone_wal_event(eid, version, wid))
}

fn drop_handoffs(s: &mut ServerState, eid: &str)
    ensures
        final(s)@ == (State {
            pending_handoffs: without(old(s)@.pending_handoffs, eid@),
            ..old(s)@
        }),
{
    let mut all: Vec<PreparedHandoff> = Vec::new();
    core::mem::swap(&mut s.pending_handoffs, &mut all);
    let ghost before = views(all@);
    let n: usize = all.len();
    let mut kept: Vec<PreparedHandoff> = Vec::new();
    let mut i: usize = 0;
    proof {
        assert(before.take(0) =~= Seq::empty());
        assert(views(kept@) =~= Seq::<Hand>::empty());
        assert(views(all@) =~= before.skip(0));
    }
    while i < n
        invariant
            i <= n == before.len(),
            views(all@) == before.skip(i as int),
            views(kept@) == without(before.take(i as int), eid@),
        decreases n - i,
    {
        proof {
            assert(views(all@).len() == all@.len());
            assert(before.take(i + 1).drop_last() =~= before.take(i as int));
            assert(before.take(i + 1).last() == before[i as int]);
            assert(views(all@)[0] == before[i as int]);
        }
        let ghost k = views(kept@);
        let ghost was = all@;
        let h = all.remove(0);
        proof {
            assert(h@ == before[i as int]);
            assert(views(all@) =~= before.skip(i + 1)) by {
                assert forall|j: int| 0 <= j < all@.len() implies #[trigger] views(all@)[j]
                    == before.skip(i + 1)[j] by {
                    assert(all@[j] == was[j + 1]);
                    assert(views(was)[j + 1] == before.skip(i as int)[j + 1]);
                }
            }
        }
        if !str_eq(h.eid.as_str(), eid) {
            kept.push(h);
            proof {
                assert(views(kept@) =~= k.push(h@));
            }
        }
        i = i + 1;
    }
    proof {
        assert(before.take(n as int) =~= before);
    }
    s.pending_handoffs = kept;
}

/// Deletes an entity whose tombstone is on the log, and answers the request.
pub fn finish_delete(s: &mut ServerState, wid: &str, f: &Json, eid: &str, written: bool)
    ensures
        final(s)@ == old(s)@.delete_finished(wid@, f@, eid@, written),
{
    if !written {
        refuse_request(
            s,
            wid,
            f,
            "DeleteEntityResponse",
            eid,
            "delete",
            "wal_persist_failed: tombstone not durable",
        );
        return;
    }
    s.deleted_entities.insert(eid);
    drop_handoffs(s, eid);
    s.pending_handoff_intent.remove(eid);
    let removed: bool = s.entities.remove(eid).is_some();
    if removed {
        hide_from_all(s, eid);
    }
    answer_request(s, wid, f, "DeleteEntityResponse", eid, removed);
}

/// A deleted entity is not created again, and no transfer of it is left to be
/// applied.
pub proof fn law_burial_is_final(s: State, eid: Seq<char>, wid: Seq<char>, f: Doc)
    requires
        f.get_str("entity"@) == Some(eid),
    ensures
        s.buried(eid).deleted_entities.contains(eid),
        !s.buried(eid).entities.contains_key(eid),
        !crate::handoff::is_queued(s.buried(eid).pending_handoffs, eid),
        !s.buried(eid).creates(wid, f),
{
    let t = State {
        deleted_entities: s.deleted_entities.insert(eid),
        pending_handoffs: without(s.pending_handoffs, eid),
        pending_handoff_intent: s.pending_handoff_intent.remove(eid),
        entities: s.entities.remove(eid),
        ..s
    };
    crate::adopt::lemma_hidden_world(t, crate::order::sorted(t.workers.dom()), eid);
    lemma_without(s.pending_handoffs, eid);
}

proof fn lemma_without(hs: Seq<Hand>, eid: Seq<char>)
    ensures
        forall|i: int| 0 <= i < without(hs, eid).len() ==> (#[trigger] without(hs, eid)[i]).eid != eid,
    decreases hs.len(),
{
    if hs.len() > 0 {
        lemma_without(hs.drop_last(), eid);
        let a = without(hs.drop_last(), eid);
        assert forall|i: int| 0 <= i < without(hs, eid).len() implies (#[trigger] without(
            hs,
            eid,
        )[i]).eid != eid by {
            if i < a.len() {
                assert(without(hs, eid)[i] == a[i]);
            }
        }
    }
}

}

//! What is in the world, whoever may write it: telling peers and granting components leaves
//! it as it is, and what a flush makes of it is what the log says.

use vstd::prelude::*;
use vstd::string::*;
use crate::adopt::msg_entity;
use crate::dispatch::Job;
use crate::doc::Doc;
use crate::entity::Ent;
use crate::float::{point_of, Vec2};
use crate::handoff::{handoff_event, is_queued, moved};
use crate::recovery::{ent_replayed, Store};
use crate::replay::{lemma_transfer_fields, lemma_write_fields};
use crate::state::{Hand, State, Upd};
use crate::update::{overtaken, update_event};

verus! {

broadcast use {crate::doc::group_json, crate::strmap::group_map};

/// What an entity is, whoever may write it.
#[verifier::ext_equal]
pub ghost struct Body {
    pub pos: Vec2,
    pub vel: Vec2,
    pub region: Seq<char>,
    pub version: u64,
    pub components: Map<Seq<char>, Doc>,
}

impl Ent {
    /// What the entity is, whoever may write it.
    pub open spec fn body(self) -> Body {
        Body {
            pos: self.pos,
            vel: self.vel,
            region: self.region,
            version: self.version,
            components: self.components,
        }
    }
}

/// Entities by what they are.
pub open spec fn bodies(m: Map<Seq<char>, Ent>) -> Map<Seq<char>, Body> {
    m.map_values(|e: Ent| e.body())
}

/// Whether two states have the same world: what the entities are, what was deleted, which
/// transfers are queued, and which departures wait to be confirmed.
pub open spec fn same_world(s: State, t: State) -> bool {
    &&& bodies(t.entities) == bodies(s.entities)
    &&& t.deleted_entities == s.deleted_entities
    &&& t.pending_handoffs == s.pending_handoffs
    &&& t.pending_mesh == s.pending_mesh
}

/// The same world has the same entities.
pub proof fn lemma_same_keys(s: State, t: State)
    requires
        same_world(s, t),
    ensures
        t.entities.dom() == s.entities.dom(),
        forall|k: Seq<char>| #[trigger] t.entities.contains_key(k) == s.entities.contains_key(k),
{
    assert(bodies(t.entities).dom() =~= t.entities.dom());
    assert(bodies(s.entities).dom() =~= s.entities.dom());
}

pub proof fn lemma_granted(s: State, wid: Seq<char>, eid: Seq<char>, comp: Seq<char>)
    ensures
        same_world(s, s.granted(wid, eid, comp)),
        same_world(s, s.revoked(wid, eid, comp)),
{
    assert(bodies(s.granted(wid, eid, comp).entities) =~= bodies(s.entities));
    assert(bodies(s.revoked(wid, eid, comp).entities) =~= bodies(s.entities));
}

pub proof fn lemma_all_granted(s: State, wid: Seq<char>, eid: Seq<char>, comps: Seq<Seq<char>>)
    ensures
        same_world(s, s.all_granted(wid, eid, comps)),
    decreases comps.len(),
{
    if comps.len() > 0 {
        lemma_all_granted(s, wid, eid, comps.drop_last());
        lemma_granted(s.all_granted(wid, eid, comps.drop_last()), wid, eid, comps.last());
    }
}

pub proof fn lemma_all_revoked(s: State, wid: Seq<char>, eid: Seq<char>, comps: Seq<Seq<char>>)
    ensures
        same_world(s, s.all_revoked(wid, eid, comps)),
    decreases comps.len(),
{
    if comps.len() > 0 {
        lemma_all_revoked(s, wid, eid, comps.drop_last());
        lemma_granted(s.all_revoked(wid, eid, comps.drop_last()), wid, eid, comps.last());
    }
}

pub proof fn lemma_components_sent(
    s: State,
    wid: Seq<char>,
    eid: Seq<char>,
    comps: Map<Seq<char>, Doc>,
    names: Seq<Seq<char>>,
)
    ensures
        same_world(s, s.components_sent(wid, eid, comps, names)),
    decreases names.len(),
{
    if names.len() > 0 {
        lemma_components_sent(s, wid, eid, comps, names.drop_last());
    }
}

pub proof fn lemma_shown(s: State, wid: Seq<char>, eid: Seq<char>)
    ensures
        same_world(s, s.shown(wid, eid)),
        same_world(s, s.regionally_granted(wid, eid)),
{
    if s.entities.contains_key(eid) {
        let e = s.entities[eid];
        let a = s.emitted(wid, crate::sight::critical_section(eid, "begin"@)).emitted(
            wid,
            crate::sight::entity_msg("AddEntity"@, eid),
        ).emitted(wid, crate::sight::component_update(eid, "pos"@, e.pos.doc())).emitted(
            wid,
            crate::sight::component_update(eid, "vel"@, e.vel.doc()),
        );
        let names = crate::order::sorted(e.components.dom());
        lemma_components_sent(a, wid, eid, e.components, names);
        let b = a.components_sent(wid, eid, e.components, names).emitted(
            wid,
            crate::sight::critical_section(eid, "end"@),
        ).view_added(wid, eid);
        assert(same_world(s, b));
        lemma_all_granted(b, wid, eid, b.client_grants(wid, eid));
    }
    lemma_all_granted(s, wid, eid, s.regional_grants(wid, eid));
}

pub proof fn lemma_received(s: State, wid: Seq<char>, eid: Seq<char>, comps: Seq<Seq<char>>)
    ensures
        same_world(s, s.received(wid, eid, comps)),
{
    if s.workers.contains_key(wid) {
        lemma_shown(s, wid, eid);
        let t = if s.workers[wid].view.contains(eid) {
            s
        } else {
            s.shown(wid, eid)
        };
        lemma_all_granted(t, wid, eid, comps);
    }
}

/// A write or a transfer that is queued.
pub ghost enum Staged {
    Write(Upd),
    Transfer(Hand),
}

/// The events of what is queued.
pub open spec fn staged_events(q: Seq<Staged>) -> Seq<Doc> {
    q.map_values(
        |x: Staged|
            match x {
                Staged::Write(u) => update_event(u),
                Staged::Transfer(h) => handoff_event(h),
            },
    )
}

/// The writes among what is queued, in order.
pub open spec fn writes_in(q: Seq<Staged>) -> Seq<Upd>
    decreases q.len(),
{
    if q.len() == 0 {
        Seq::empty()
    } else {
        match q.last() {
            Staged::Write(u) => writes_in(q.drop_last()).push(u),
            _ => writes_in(q.drop_last()),
        }
    }
}

/// The transfers among what is queued, in order, each overtaken by the writes that came
/// after it.
pub open spec fn transfers_in(q: Seq<Staged>) -> Seq<Hand>
    decreases q.len(),
{
    if q.len() == 0 {
        Seq::empty()
    } else {
        match q.last() {
            Staged::Transfer(h) => transfers_in(q.drop_last()).push(h),
            Staged::Write(u) => overtaken(transfers_in(q.drop_last()), u),
        }
    }
}

/// What a write makes of a body.
pub open spec fn body_written(b: Body, u: Upd) -> Body {
    let c = Body { version: u.version, ..b };
    if u.comp == "pos"@ {
        Body { pos: point_of(Some(u.value)), ..c }
    } else if u.comp == "vel"@ {
        Body { vel: point_of(Some(u.value)), ..c }
    } else {
        Body { components: b.components.insert(u.comp, u.value), ..c }
    }
}

/// What a transfer makes of a body.
pub open spec fn body_moved(b: Body, h: Hand) -> Body {
    Body {
        pos: match h.pos {
            Some(p) => p,
            None => b.pos,
        },
        region: h.to,
        version: h.version,
        ..b
    }
}

/// The bodies after a write.
pub open spec fn write_on(m: Map<Seq<char>, Body>, u: Upd) -> Map<Seq<char>, Body> {
    if m.contains_key(u.eid) {
        m.insert(u.eid, body_written(m[u.eid], u))
    } else {
        m
    }
}

/// The bodies after a transfer.
pub open spec fn move_on(m: Map<Seq<char>, Body>, h: Hand) -> Map<Seq<char>, Body> {
    if m.contains_key(h.eid) {
        m.insert(h.eid, body_moved(m[h.eid], h))
    } else {
        m
    }
}

/// The bodies after some writes.
pub open spec fn writes_on(m: Map<Seq<char>, Body>, us: Seq<Upd>) -> Map<Seq<char>, Body>
    decreases us.len(),
{
    if us.len() == 0 {
        m
    } else {
        write_on(writes_on(m, us.drop_last()), us.last())
    }
}

/// The bodies after some transfers.
pub open spec fn moves_on(m: Map<Seq<char>, Body>, hs: Seq<Hand>) -> Map<Seq<char>, Body>
    decreases hs.len(),
{
    if hs.len() == 0 {
        m
    } else {
        move_on(moves_on(m, hs.drop_last()), hs.last())
    }
}

/// Whether no transfer puts an entity elsewhere than a write of its position does.
pub open spec fn stands(u: Upd, hs: Seq<Hand>) -> bool {
    u.comp == "pos"@ ==> forall|i: int|
        0 <= i < hs.len() && (#[trigger] hs[i]).eid == u.eid ==> hs[i].pos is None
}

/// Whether a transfer puts its entity nowhere, or at finite coordinates, which have a text
/// in the log.
pub open spec fn is_placed(h: Hand) -> bool {
    match h.pos {
        Some(p) => p.x is Some && p.y is Some,
        None => true,
    }
}

pub proof fn lemma_commute(m: Map<Seq<char>, Body>, hs: Seq<Hand>, u: Upd)
    requires
        stands(u, hs),
    ensures
        write_on(moves_on(m, hs), u) == moves_on(write_on(m, u), overtaken(hs, u)),
    decreases hs.len(),
{
    if hs.len() > 0 {
        let a = moves_on(m, hs.drop_last());
        let h = hs.last();
        let all = overtaken(hs, u);
        let d = hs.drop_last();
        assert(stands(u, d)) by {
            assert forall|i: int|
                u.comp == "pos"@ && 0 <= i < d.len() && (#[trigger] d[i]).eid == u.eid implies d[i].pos
                is None by {
                assert(d[i] == hs[i]);
            }
        }
        assert(hs[hs.len() - 1] == h);
        lemma_commute(m, hs.drop_last(), u);
        assert(all.drop_last() =~= overtaken(hs.drop_last(), u));
        assert(write_on(move_on(a, h), u) =~= move_on(write_on(a, u), all.last()));
    }
}

pub proof fn lemma_writes_live(s: State, us: Seq<Upd>)
    ensures
        bodies(s.writes_applied(us).entities) == writes_on(bodies(s.entities), us),
    decreases us.len(),
{
    if us.len() > 0 {
        let mid = s.writes_applied(us.drop_last());
        let u = us.last();
        lemma_writes_live(s, us.drop_last());
        assert(bodies(mid.write_applied(u).entities) =~= write_on(bodies(mid.entities), u));
    }
}

pub proof fn lemma_moves_live(s: State, hs: Seq<Hand>)
    ensures
        bodies(s.handoffs_applied(hs).entities) == moves_on(bodies(s.entities), hs),
    decreases hs.len(),
{
    if hs.len() > 0 {
        let d = hs.drop_last();
        let h = hs.last();
        lemma_moves_live(s, d);
        let mid = s.handoffs_applied(d);
        lemma_handoff_live(mid, h);
    }
}

pub proof fn lemma_handoff_live(s: State, h: Hand)
    ensures
        bodies(s.handoff_applied(h).entities) == move_on(bodies(s.entities), h),
{
    if s.entities.contains_key(h.eid) {
        let a = State {
            metrics: crate::state::Metrics {
                handoffs: crate::entity::succ(s.metrics.handoffs),
                ..s.metrics
            },
            ..s.with_entity(h.eid, moved(s.entities[h.eid], h))
        };
        assert(bodies(a.entities) =~= move_on(bodies(s.entities), h));
        let b = if h.old_wid is Some && a.workers.contains_key(h.old_wid->0) {
            a.all_revoked(h.old_wid->0, h.eid, h.moved_comps)
        } else {
            a
        };
        if h.old_wid is Some {
            lemma_all_revoked(a, h.old_wid->0, h.eid, h.moved_comps);
        }
        if h.new_wid is Some {
            lemma_received(b, h.new_wid->0, h.eid, h.moved_comps);
        }
    } else {
        assert(bodies(s.entities) =~= move_on(bodies(s.entities), h));
    }
}

pub proof fn lemma_replay_on(st: Store, x: Staged, resend: bool)
    requires
        st.entities.dom().disjoint(st.tombstones),
        x matches Staged::Transfer(h) ==> is_placed(h),
    ensures
        ({
            let ev = match x {
                Staged::Write(u) => update_event(u),
                Staged::Transfer(h) => handoff_event(h),
            };
            let t = st.replayed(ev, resend);
            &&& bodies(t.entities) == match x {
                Staged::Write(u) => write_on(bodies(st.entities), u),
                Staged::Transfer(h) => move_on(bodies(st.entities), h),
            }
            &&& t == (Store { entities: t.entities, ..st })
            &&& t.entities.dom() == st.entities.dom()
        }),
{
    match x {
        Staged::Write(u) => {
            lemma_write_fields(u);
            let ev = update_event(u);
            let t = st.replayed(ev, resend);
            assert(t == st.entity_set(u.eid, ent_replayed(st.entities[u.eid], "write"@, ev)));
            if st.entities.contains_key(u.eid) {
                assert(st.entities.dom().contains(u.eid));
                assert(!st.tombstones.contains(u.eid));
            }
            assert(bodies(t.entities) =~= write_on(bodies(st.entities), u));
            assert(t.entities.dom() =~= st.entities.dom());
        },
        Staged::Transfer(h) => {
            lemma_transfer_fields(h);
            let ev = handoff_event(h);
            let t = st.replayed(ev, resend);
            assert(t == st.entity_set(h.eid, ent_replayed(st.entities[h.eid], "transfer"@, ev)));
            crate::replay::law_transfer_replays(st.entities[h.eid], h);
            if st.entities.contains_key(h.eid) {
                assert(st.entities.dom().contains(h.eid));
                assert(!st.tombstones.contains(h.eid));
            }
            assert(bodies(t.entities) =~= move_on(bodies(st.entities), h));
            assert(t.entities.dom() =~= st.entities.dom());
        },
    }
}

proof fn lemma_replay_queue(st: Store, q: Seq<Staged>, resend: bool)
    requires
        st.entities.dom().disjoint(st.tombstones),
        forall|i: int| 0 <= i < q.len() ==> stays(#[trigger] q[i]),
    ensures
        ({
            let t = st.all_replayed(staged_events(q), resend);
            &&& bodies(t.entities) == moves_on(
                writes_on(bodies(st.entities), writes_in(q)),
                transfers_in(q),
            )
            &&& t == (Store { entities: t.entities, ..st })
            &&& t.entities.dom() == st.entities.dom()
        }),
    decreases q.len(),
{
    let evs = staged_events(q);
    if q.len() > 0 {
        let d = q.drop_last();
        assert forall|i: int| 0 <= i < d.len() implies stays(#[trigger] d[i]) by {
            assert(d[i] == q[i]);
        }
        assert(stays(q[q.len() - 1]));
        lemma_replay_queue(st, d, resend);
        assert(evs.drop_last() =~= staged_events(d));
        let mid = st.all_replayed(evs.drop_last(), resend);
        lemma_replay_on(mid, q.last(), resend);
        match q.last() {
            Staged::Write(u) => {
                lemma_transfers_stay(d);
                lemma_commute(
                    writes_on(bodies(st.entities), writes_in(d)),
                    transfers_in(d),
                    u,
                );
                assert(writes_in(q).drop_last() =~= writes_in(d));
            },
            Staged::Transfer(h) => {
                assert(transfers_in(q).drop_last() =~= transfers_in(d));
            },
        }
    }
}

/// Whether what is queued is a write, or a transfer that leaves its entity where it is.
pub open spec fn stays(x: Staged) -> bool {
    match x {
        Staged::Write(_) => true,
        Staged::Transfer(h) => h.pos is None,
    }
}

/// What a flush makes of the world is what the log says: writes and transfers, queued in
/// whatever order, give the same entities when the writes are applied and then the
/// transfers, as a flush does, and when a restart replays their events in the order in
/// which they were queued.
pub proof fn law_flush_is_what_the_log_says(s: State, st: Store, q: Seq<Staged>, resend: bool)
    requires
        bodies(st.entities) == bodies(s.entities),
        st.entities.dom().disjoint(st.tombstones),
        forall|i: int| 0 <= i < q.len() ==> stays(#[trigger] q[i]),
    ensures
        ({
            let live = s.writes_applied(writes_in(q)).handoffs_applied(transfers_in(q));
            let back = st.all_replayed(staged_events(q), resend);
            &&& bodies(back.entities) == bodies(live.entities)
            &&& back == (Store { entities: back.entities, ..st })
        }),
{
    lemma_replay_queue(st, q, resend);
    lemma_writes_live(s, writes_in(q));
    lemma_transfers_stay(q);
    lemma_moves_live(s.writes_applied(writes_in(q)), transfers_in(q));
}

proof fn lemma_transfers_stay(q: Seq<Staged>)
    requires
        forall|i: int| 0 <= i < q.len() ==> stays(#[trigger] q[i]),
    ensures
        forall|i: int| 0 <= i < transfers_in(q).len() ==> (#[trigger] transfers_in(q)[i]).pos is None,
    decreases q.len(),
{
    if q.len() > 0 {
        let d = q.drop_last();
        assert forall|i: int| 0 <= i < d.len() implies stays(#[trigger] d[i]) by {
            assert(d[i] == q[i]);
        }
        assert(stays(q[q.len() - 1]));
        lemma_transfers_stay(d);
        let hs = transfers_in(q);
        assert forall|i: int| 0 <= i < hs.len() implies (#[trigger] hs[i]).pos is None by {
            if i < transfers_in(d).len() {
                assert(transfers_in(d)[i].pos is None);
            }
        }
    }
}

proof fn lemma_moves_keep_pos(m: Map<Seq<char>, Body>, hs: Seq<Hand>, eid: Seq<char>)
    requires
        m.contains_key(eid),
        forall|i: int| 0 <= i < hs.len() ==> (#[trigger] hs[i]).pos is None,
    ensures
        moves_on(m, hs).contains_key(eid),
        moves_on(m, hs)[eid].pos == m[eid].pos,
        moves_on(m, hs)[eid].vel == m[eid].vel,
        moves_on(m, hs)[eid].components == m[eid].components,
    decreases hs.len(),
{
    if hs.len() > 0 {
        let d = hs.drop_last();
        assert forall|i: int| 0 <= i < d.len() implies (#[trigger] d[i]).pos is None by {
            assert(d[i] == hs[i]);
        }
        assert(hs[hs.len() - 1].pos is None);
        lemma_moves_keep_pos(m, d, eid);
    }
}

proof fn lemma_writes_keep_pos(m: Map<Seq<char>, Body>, us: Seq<Upd>, i: int)
    requires
        0 <= i < us.len(),
        m.contains_key(us[i].eid),
        us[i].comp == "pos"@,
        forall|j: int|
            i < j < us.len() ==> !((#[trigger] us[j]).eid == us[i].eid && us[j].comp == "pos"@),
    ensures
        writes_on(m, us).contains_key(us[i].eid),
        writes_on(m, us)[us[i].eid].pos == point_of(Some(us[i].value)),
    decreases us.len(),
{
    let d = us.drop_last();
    lemma_writes_dom(m, d);
    if i < d.len() {
        assert(d[i] == us[i]);
        assert forall|j: int| i < j < d.len() implies !((#[trigger] d[j]).eid == d[i].eid
            && d[j].comp == "pos"@) by {
            assert(d[j] == us[j]);
        }
        lemma_writes_keep_pos(m, d, i);
        assert(us[us.len() - 1] == us.last());
    }
}

proof fn lemma_writes_dom(m: Map<Seq<char>, Body>, us: Seq<Upd>)
    ensures
        writes_on(m, us).dom() == m.dom(),
    decreases us.len(),
{
    if us.len() > 0 {
        lemma_writes_dom(m, us.drop_last());
        assert(writes_on(m, us).dom() =~= m.dom());
    }
}

/// No write is lost in a transfer: after a flush an entity is where the last accepted
/// write of the group put it, whatever transfers were queued before or between.
pub proof fn law_last_move_stands(s: State, us: Seq<Upd>, hs: Seq<Hand>, i: int)
    requires
        0 <= i < us.len(),
        s.entities.contains_key(us[i].eid),
        us[i].comp == "pos"@,
        forall|j: int|
            i < j < us.len() ==> !((#[trigger] us[j]).eid == us[i].eid && us[j].comp == "pos"@),
        forall|j: int| 0 <= j < hs.len() ==> (#[trigger] hs[j]).pos is None,
    ensures
        ({
            let t = s.writes_applied(us).handoffs_applied(hs);
            &&& t.entities.contains_key(us[i].eid)
            &&& t.entities[us[i].eid].pos == point_of(Some(us[i].value))
        }),
{
    let m = bodies(s.entities);
    let t = s.writes_applied(us).handoffs_applied(hs);
    lemma_writes_live(s, us);
    lemma_moves_live(s.writes_applied(us), hs);
    lemma_writes_keep_pos(m, us, i);
    lemma_moves_keep_pos(writes_on(m, us), hs, us[i].eid);
    assert(bodies(t.entities).contains_key(us[i].eid));
}

/// What is claimed of an entity.
pub ghost enum Claim {
    /// It is deleted, and no transfer of it is queued.
    Deleted,
    /// It is not both here and on its way to a neighbour.
    OnePlace,
}

/// Whether a claim holds of an entity.
pub open spec fn holds(c: Claim, s: State, eid: Seq<char>) -> bool {
    match c {
        Claim::Deleted => {
            &&& s.deleted_entities.contains(eid)
            &&& !s.entities.contains_key(eid)
            &&& !is_queued(s.pending_handoffs, eid)
        },
        Claim::OnePlace => !(s.entities.contains_key(eid) && s.pending_mesh.contains_key(eid)),
    }
}

/// Whether a task may touch a claim: of a deleted entity, one that brings it or queues a
/// transfer of it; of an entity in one place, one that brings it.
pub open spec fn stirs(c: Claim, j: Job, eid: Seq<char>) -> bool {
    match j {
        Job::Create { spawn, .. } => spawn.0 == eid,
        Job::Adopted { spawn, .. } => spawn.0 == eid,
        Job::Fold { h, .. } => c is Deleted && h.eid == eid,
        Job::Handoff { h } => c is Deleted && h.eid == eid,
        Job::Adopt { f, .. } => c is OnePlace && msg_entity(f) == eid,
        _ => false,
    }
}

/// Whether a task does no harm to a claim when it is taken up: one that brings an entity
/// finds it on its way to nobody.
pub open spec fn is_safe(c: Claim, s: State, j: Job, eid: Seq<char>) -> bool {
    !stirs(c, j, eid) || (c is OnePlace && !s.pending_mesh.contains_key(eid))
}

/// Whether none of some tasks may touch a claim.
pub open spec fn quiet(c: Claim, jobs: Seq<Job>, eid: Seq<char>) -> bool {
    forall|i: int| 0 <= i < jobs.len() ==> !stirs(c, #[trigger] jobs[i], eid)
}

/// Whether a claim holds, and the tasks that are left do no harm to it: at most the one that
/// is taken up next may touch it.
pub open spec fn is_kept(c: Claim, s: State, jobs: Seq<Job>, eid: Seq<char>) -> bool {
    &&& holds(c, s, eid)
    &&& quiet(c, jobs, eid) || (jobs.len() > 0 && quiet(c, jobs.drop_last(), eid) && is_safe(
        c,
        s,
        jobs.last(),
        eid,
    ))
}

pub broadcast proof fn lemma_more_jobs(c: Claim, jobs: Seq<Job>, j: Job, eid: Seq<char>)
    ensures
        #[trigger] quiet(c, jobs.push(j), eid) == (quiet(c, jobs, eid) && !stirs(c, j, eid)),
{
    let more = jobs.push(j);
    if quiet(c, more, eid) {
        assert(!stirs(c, more[jobs.len() as int], eid));
        assert forall|i: int| 0 <= i < jobs.len() implies !stirs(c, #[trigger] jobs[i], eid) by {
            assert(more[i] == jobs[i]);
        }
    }
}

pub broadcast proof fn lemma_next_job(c: Claim, s: State, jobs: Seq<Job>, j: Job, eid: Seq<char>)
    requires
        holds(c, s, eid),
        quiet(c, jobs, eid),
        is_safe(c, s, j, eid),
    ensures
        #[trigger] is_kept(c, s, jobs.push(j), eid),
{
    assert(jobs.push(j).drop_last() =~= jobs);
}

pub broadcast proof fn lemma_same_claim(c: Claim, s: State, t: State, eid: Seq<char>)
    requires
        #[trigger] same_world(s, t),
        #[trigger] holds(c, s, eid),
    ensures
        holds(c, t, eid),
{
    lemma_same_keys(s, t);
}

pub broadcast group group_claims {
    lemma_more_jobs,
    lemma_next_job,
    lemma_same_claim,
}

}

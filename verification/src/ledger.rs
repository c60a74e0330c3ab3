//! The log says what the world will be: from what is queued to what is applied, every step
//! keeps to it, so that a cut between two groups replays to the world as it is.

use vstd::prelude::*;
use vstd::string::*;
use crate::adopt::lemma_hidden_world;
use crate::components::{
    add_event, change_event, named_comp, named_entity, reassigned, remove_event, removed_msg,
    Change,
};
use crate::dispatch::{Around, Job, Reply};
use crate::doc::Doc;
use crate::entity::{succ, Ent};
use crate::failover::{failover_event, grant_doc, grants_doc, migration_event, regranted};
use crate::float::law_point_round_trip;
use crate::grants::component_key;
use crate::handoff::handoff_event;
use crate::json::or_null;
use crate::lifecycle::{tombstone_event, without};
use crate::order::sorted;
use crate::recovery::{ent_replayed, ev_entity, registered, Store};
use crate::replay::{
    law_added_component_replays, law_authority_change_replays, law_deletion_replays,
    law_departure_replays, law_escalation_replays, law_grant_replays, law_removed_component_replays,
    law_threshold_step_replays, law_timeout_replays, lemma_departure_fields, lemma_event_keys,
    lemma_first_kinds, lemma_late_kinds,
};
use crate::spawn::{lemma_register_fields, register_event};
use crate::state::{Failover, Grant, Hand, Migration, State, Upd};
use crate::threshold::{phases, step_event, step_notice, stepped, timeout_event, Tx};
use crate::update::{arbitrated, escalation_event, escalation_notice, update_event};
use crate::wal::kind_of;
use crate::world::{
    bodies, is_placed, lemma_all_revoked, lemma_commute, lemma_granted, lemma_moves_live,
    lemma_received, lemma_replay_on, move_on, moves_on, same_world, stands, write_on, writes_on,
    Body, Staged,
};

verus! {

broadcast use {crate::doc::group_json, crate::strmap::group_map};

/// The bodies after a grant.
pub open spec fn mark_on(m: Map<Seq<char>, Body>, g: Grant) -> Map<Seq<char>, Body> {
    if m.contains_key(g.eid) {
        m.insert(g.eid, Body { version: g.version, ..m[g.eid] })
    } else {
        m
    }
}

/// The bodies after some grants.
pub open spec fn marks_on(m: Map<Seq<char>, Body>, gs: Seq<Grant>) -> Map<Seq<char>, Body>
    decreases gs.len(),
{
    if gs.len() == 0 {
        m
    } else {
        mark_on(marks_on(m, gs.drop_last()), gs.last())
    }
}

/// The grants of some failovers.
pub open spec fn failover_grants(fs: Seq<Failover>) -> Seq<Grant>
    decreases fs.len(),
{
    if fs.len() == 0 {
        Seq::empty()
    } else {
        failover_grants(fs.drop_last()) + fs.last().grants
    }
}

/// The grants of some migrations.
pub open spec fn migration_grants(ms: Seq<Migration>) -> Seq<Grant>
    decreases ms.len(),
{
    if ms.len() == 0 {
        Seq::empty()
    } else {
        migration_grants(ms.drop_last()) + ms.last().grants
    }
}

/// The writes that a task is about to apply.
pub open spec fn carried(j: Job) -> Seq<Upd> {
    match j {
        Job::Publish { updates, next } => if next <= updates.len() {
            updates.skip(next as int)
        } else {
            Seq::empty()
        },
        _ => Seq::empty(),
    }
}

/// The writes that some tasks are about to apply, those of the latest task first.
pub open spec fn in_flight(jobs: Seq<Job>) -> Seq<Upd>
    decreases jobs.len(),
{
    if jobs.len() == 0 {
        Seq::empty()
    } else {
        carried(jobs.last()) + in_flight(jobs.drop_last())
    }
}

/// The entities that some tasks are about to let go.
pub open spec fn leaving(jobs: Seq<Job>) -> Set<Seq<char>>
    decreases jobs.len(),
{
    if jobs.len() == 0 {
        Set::empty()
    } else {
        match jobs.last() {
            Job::Left { d } => leaving(jobs.drop_last()).insert(d.eid),
            _ => leaving(jobs.drop_last()),
        }
    }
}

/// The grants that are queued.
pub open spec fn queued_grants(s: State) -> Seq<Grant> {
    failover_grants(s.pending_failovers) + migration_grants(s.pending_block_migrations)
}

impl State {
    /// Whether something is queued that the log has and the world does not.
    pub open spec fn has_staged(self) -> bool {
        self.pending_updates.len() > 0 || self.pending_handoffs.len() > 0
            || self.pending_failovers.len() > 0 || self.pending_block_migrations.len() > 0
    }

    /// What the entities will be once all that is queued is applied.
    pub open spec fn future(self, jobs: Seq<Job>) -> Map<Seq<char>, Body> {
        marks_on(
            moves_on(
                writes_on(bodies(self.entities), in_flight(jobs) + self.pending_updates),
                self.pending_handoffs,
            ),
            queued_grants(self),
        ).remove_keys(leaving(jobs))
    }
}

/// Whether the log says what the world will be.
pub open spec fn agrees(s: State, jobs: Seq<Job>, st: Store) -> bool {
    &&& bodies(st.entities) == s.future(jobs)
    &&& st.entities.dom().disjoint(st.tombstones)
}

proof fn lemma_jobs(jobs: Seq<Job>, j: Job)
    ensures
        in_flight(jobs.push(j)) == carried(j) + in_flight(jobs),
        leaving(jobs.push(j)) == match j {
            Job::Left { d } => leaving(jobs).insert(d.eid),
            _ => leaving(jobs),
        },
{
    assert(jobs.push(j).drop_last() =~= jobs);
}

/// A task that carries nothing changes nothing of what will be.
pub proof fn lemma_idle(jobs: Seq<Job>, j: Job)
    requires
        !(j is Publish) && !(j is Left),
    ensures
        in_flight(jobs.push(j)) == in_flight(jobs),
        leaving(jobs.push(j)) == leaving(jobs),
{
    lemma_jobs(jobs, j);
    assert(carried(j) + in_flight(jobs) =~= in_flight(jobs));
}

/// Whether none of some grants is of an entity.
pub open spec fn spares(gs: Seq<Grant>, eid: Seq<char>) -> bool {
    forall|i: int| 0 <= i < gs.len() ==> (#[trigger] gs[i]).eid != eid
}

proof fn lemma_spares(gs: Seq<Grant>, eid: Seq<char>)
    requires
        gs.len() > 0,
        spares(gs, eid),
    ensures
        spares(gs.drop_last(), eid),
        gs.last().eid != eid,
{
    let d = gs.drop_last();
    assert forall|i: int| 0 <= i < d.len() implies (#[trigger] d[i]).eid != eid by {
        assert(d[i] == gs[i]);
    }
    assert(gs[gs.len() - 1].eid != eid);
}

proof fn lemma_marks_write(m: Map<Seq<char>, Body>, gs: Seq<Grant>, u: Upd)
    requires
        spares(gs, u.eid),
    ensures
        marks_on(write_on(m, u), gs) == write_on(marks_on(m, gs), u),
    decreases gs.len(),
{
    if gs.len() > 0 {
        lemma_spares(gs, u.eid);
        lemma_marks_write(m, gs.drop_last(), u);
        let x = marks_on(m, gs.drop_last());
        assert(mark_on(write_on(x, u), gs.last()) =~= write_on(mark_on(x, gs.last()), u));
    }
}

proof fn lemma_marks_move(m: Map<Seq<char>, Body>, gs: Seq<Grant>, h: Hand)
    requires
        spares(gs, h.eid),
    ensures
        marks_on(move_on(m, h), gs) == move_on(marks_on(m, gs), h),
    decreases gs.len(),
{
    if gs.len() > 0 {
        lemma_spares(gs, h.eid);
        lemma_marks_move(m, gs.drop_last(), h);
        let x = marks_on(m, gs.drop_last());
        assert(mark_on(move_on(x, h), gs.last()) =~= move_on(mark_on(x, gs.last()), h));
    }
}

proof fn lemma_marks_mark(m: Map<Seq<char>, Body>, gs: Seq<Grant>, g: Grant)
    requires
        spares(gs, g.eid),
    ensures
        marks_on(mark_on(m, g), gs) == mark_on(marks_on(m, gs), g),
    decreases gs.len(),
{
    if gs.len() > 0 {
        lemma_spares(gs, g.eid);
        lemma_marks_mark(m, gs.drop_last(), g);
        let x = marks_on(m, gs.drop_last());
        assert(mark_on(mark_on(x, g), gs.last()) =~= mark_on(mark_on(x, gs.last()), g));
    }
}

/// Whether no two grants of two lists are of one entity.
pub open spec fn are_apart(a: Seq<Grant>, b: Seq<Grant>) -> bool {
    forall|i: int| 0 <= i < a.len() ==> spares(b, (#[trigger] a[i]).eid)
}

proof fn lemma_marks_marks(m: Map<Seq<char>, Body>, a: Seq<Grant>, b: Seq<Grant>)
    requires
        are_apart(a, b),
    ensures
        marks_on(marks_on(m, a), b) == marks_on(marks_on(m, b), a),
    decreases a.len(),
{
    if a.len() > 0 {
        let d = a.drop_last();
        assert forall|i: int| 0 <= i < d.len() implies spares(b, (#[trigger] d[i]).eid) by {
            assert(d[i] == a[i]);
        }
        assert(spares(b, a[a.len() - 1].eid));
        lemma_marks_marks(m, d, b);
        lemma_marks_mark(marks_on(m, d), b, a.last());
    }
}

proof fn lemma_marks_join(m: Map<Seq<char>, Body>, a: Seq<Grant>, b: Seq<Grant>)
    ensures
        marks_on(m, a + b) == marks_on(marks_on(m, a), b),
    decreases b.len(),
{
    if b.len() == 0 {
        assert(a + b =~= a);
    } else {
        lemma_marks_join(m, a, b.drop_last());
        assert((a + b).drop_last() =~= a + b.drop_last());
        assert((a + b).last() == b.last());
    }
}

proof fn lemma_writes_cons(m: Map<Seq<char>, Body>, u: Upd, us: Seq<Upd>)
    ensures
        writes_on(m, seq![u] + us) == writes_on(write_on(m, u), us),
    decreases us.len(),
{
    let all = seq![u] + us;
    if us.len() == 0 {
        assert(all.drop_last() =~= Seq::empty());
        assert(writes_on(m, all.drop_last()) == m);
    } else {
        lemma_writes_cons(m, u, us.drop_last());
        assert(all.drop_last() =~= seq![u] + us.drop_last());
        assert(all.last() == us.last());
    }
}

proof fn lemma_remove_writes(m: Map<Seq<char>, Body>, k: Seq<char>, us: Seq<Upd>)
    ensures
        writes_on(m.remove(k), us) == writes_on(m, us).remove(k),
    decreases us.len(),
{
    if us.len() > 0 {
        lemma_remove_writes(m, k, us.drop_last());
        let x = writes_on(m, us.drop_last());
        assert(write_on(x.remove(k), us.last()) =~= write_on(x, us.last()).remove(k));
    }
}

proof fn lemma_remove_moves(m: Map<Seq<char>, Body>, k: Seq<char>, hs: Seq<Hand>)
    ensures
        moves_on(m.remove(k), hs) == moves_on(m, hs).remove(k),
    decreases hs.len(),
{
    if hs.len() > 0 {
        lemma_remove_moves(m, k, hs.drop_last());
        let x = moves_on(m, hs.drop_last());
        assert(move_on(x.remove(k), hs.last()) =~= move_on(x, hs.last()).remove(k));
    }
}

proof fn lemma_remove_marks(m: Map<Seq<char>, Body>, k: Seq<char>, gs: Seq<Grant>)
    ensures
        marks_on(m.remove(k), gs) == marks_on(m, gs).remove(k),
    decreases gs.len(),
{
    if gs.len() > 0 {
        lemma_remove_marks(m, k, gs.drop_last());
        let x = marks_on(m, gs.drop_last());
        assert(mark_on(x.remove(k), gs.last()) =~= mark_on(x, gs.last()).remove(k));
    }
}

proof fn lemma_grants_live(s: State, gs: Seq<Grant>, old: Option<Seq<char>>, new: Seq<char>)
    ensures
        bodies(s.grants_applied(gs, old, new).entities) == marks_on(bodies(s.entities), gs),
    decreases gs.len(),
{
    if gs.len() > 0 {
        lemma_grants_live(s, gs.drop_last(), old, new);
        let t = s.grants_applied(gs.drop_last(), old, new);
        let g = gs.last();
        if t.entities.contains_key(g.eid) {
            let a = t.with_entity(g.eid, regranted(t.entities[g.eid], g));
            assert(bodies(a.entities) =~= mark_on(bodies(t.entities), g));
            let b = match old {
                Some(o) => a.all_revoked(o, g.eid, g.moved_comps),
                None => a,
            };
            if old is Some {
                lemma_all_revoked(a, old->0, g.eid, g.moved_comps);
            }
            lemma_received(b, new, g.eid, g.moved_comps);
        } else {
            assert(bodies(t.entities) =~= mark_on(bodies(t.entities), g));
        }
    }
}

/// Whether two states have queued the same.
pub open spec fn same_queues(s: State, t: State) -> bool {
    &&& t.pending_updates == s.pending_updates
    &&& t.pending_handoffs == s.pending_handoffs
    &&& t.pending_failovers == s.pending_failovers
    &&& t.pending_block_migrations == s.pending_block_migrations
}

proof fn lemma_revoked_queues(s: State, wid: Seq<char>, eid: Seq<char>, comps: Seq<Seq<char>>)
    ensures
        same_queues(s, s.all_revoked(wid, eid, comps)),
        same_queues(s, s.all_granted(wid, eid, comps)),
    decreases comps.len(),
{
    if comps.len() > 0 {
        lemma_revoked_queues(s, wid, eid, comps.drop_last());
    }
}

proof fn lemma_sent_queues(
    s: State,
    wid: Seq<char>,
    eid: Seq<char>,
    comps: Map<Seq<char>, Doc>,
    names: Seq<Seq<char>>,
)
    ensures
        same_queues(s, s.components_sent(wid, eid, comps, names)),
    decreases names.len(),
{
    if names.len() > 0 {
        lemma_sent_queues(s, wid, eid, comps, names.drop_last());
    }
}

proof fn lemma_shown_queues(s: State, wid: Seq<char>, eid: Seq<char>)
    ensures
        same_queues(s, s.shown(wid, eid)),
{
    if s.entities.contains_key(eid) {
        let e = s.entities[eid];
        let a = s.emitted(wid, crate::sight::critical_section(eid, "begin"@)).emitted(
            wid,
            crate::sight::entity_msg("AddEntity"@, eid),
        ).emitted(wid, crate::sight::component_update(eid, "pos"@, e.pos.doc())).emitted(
            wid,
            crate::sight::component_update(eid, "vel"@, e.vel.doc()),
        );
        let names = sorted(e.components.dom());
        lemma_sent_queues(a, wid, eid, e.components, names);
        let b = a.components_sent(wid, eid, e.components, names).emitted(
            wid,
            crate::sight::critical_section(eid, "end"@),
        ).view_added(wid, eid);
        lemma_revoked_queues(b, wid, eid, b.client_grants(wid, eid));
    }
}

proof fn lemma_received_queues(s: State, wid: Seq<char>, eid: Seq<char>, comps: Seq<Seq<char>>)
    ensures
        same_queues(s, s.received(wid, eid, comps)),
{
    if s.workers.contains_key(wid) {
        lemma_shown_queues(s, wid, eid);
        let t = if s.workers[wid].view.contains(eid) {
            s
        } else {
            s.shown(wid, eid)
        };
        lemma_revoked_queues(t, wid, eid, comps);
    }
}

proof fn lemma_grants_queues(s: State, gs: Seq<Grant>, old: Option<Seq<char>>, new: Seq<char>)
    ensures
        same_queues(s, s.grants_applied(gs, old, new)),
    decreases gs.len(),
{
    if gs.len() > 0 {
        lemma_grants_queues(s, gs.drop_last(), old, new);
        let t = s.grants_applied(gs.drop_last(), old, new);
        let g = gs.last();
        if t.entities.contains_key(g.eid) {
            let a = t.with_entity(g.eid, regranted(t.entities[g.eid], g));
            let b = match old {
                Some(o) => a.all_revoked(o, g.eid, g.moved_comps),
                None => a,
            };
            if old is Some {
                lemma_revoked_queues(a, old->0, g.eid, g.moved_comps);
            }
            lemma_received_queues(b, new, g.eid, g.moved_comps);
        }
    }
}

pub proof fn lemma_handoffs_queues(s: State, hs: Seq<Hand>)
    ensures
        same_queues(s, s.handoffs_applied(hs)),
    decreases hs.len(),
{
    if hs.len() > 0 {
        lemma_handoffs_queues(s, hs.drop_last());
        let t = s.handoffs_applied(hs.drop_last());
        let h = hs.last();
        if t.entities.contains_key(h.eid) {
            let a = State {
                metrics: crate::state::Metrics {
                    handoffs: crate::entity::succ(t.metrics.handoffs),
                    ..t.metrics
                },
                ..t.with_entity(h.eid, crate::handoff::moved(t.entities[h.eid], h))
            };
            let b = if h.old_wid is Some && a.workers.contains_key(h.old_wid->0) {
                a.all_revoked(h.old_wid->0, h.eid, h.moved_comps)
            } else {
                a
            };
            if h.old_wid is Some {
                lemma_revoked_queues(a, h.old_wid->0, h.eid, h.moved_comps);
            }
            if h.new_wid is Some {
                lemma_received_queues(b, h.new_wid->0, h.eid, h.moved_comps);
            }
        }
    }
}

pub proof fn lemma_failovers_live(s: State, fs: Seq<Failover>)
    ensures
        bodies(s.failovers_applied(fs).entities) == marks_on(
            bodies(s.entities),
            failover_grants(fs),
        ),
        same_queues(s, s.failovers_applied(fs)),
    decreases fs.len(),
{
    if fs.len() > 0 {
        lemma_failovers_live(s, fs.drop_last());
        let t = s.failovers_applied(fs.drop_last());
        let f = fs.last();
        let a = (State {
            region_worker: t.region_worker.insert(f.region, f.new_wid),
            region_expires: t.region_expires.insert(f.region, f.until_ms),
            metrics: crate::state::Metrics {
                failovers: crate::entity::succ(t.metrics.failovers),
                ..t.metrics
            },
            ..t
        }).peer_moved(f.new_wid, f.region);
        lemma_grants_live(a, f.grants, None, f.new_wid);
        lemma_grants_queues(a, f.grants, None, f.new_wid);
        lemma_marks_join(bodies(s.entities), failover_grants(fs.drop_last()), f.grants);
    }
}

pub proof fn lemma_migrations_live(s: State, ms: Seq<Migration>)
    ensures
        bodies(s.migrations_applied(ms).entities) == marks_on(
            bodies(s.entities),
            migration_grants(ms),
        ),
        same_queues(s, s.migrations_applied(ms)),
    decreases ms.len(),
{
    if ms.len() > 0 {
        lemma_migrations_live(s, ms.drop_last());
        let t = s.migrations_applied(ms.drop_last());
        let m = ms.last();
        let a = (State {
            region_worker: t.region_worker.insert(m.block, m.new_wid),
            ..t
        }).peer_moved(m.new_wid, m.block);
        lemma_grants_live(a, m.grants, Some(m.old_wid), m.new_wid);
        lemma_grants_queues(a, m.grants, Some(m.old_wid), m.new_wid);
        lemma_marks_join(bodies(s.entities), migration_grants(ms.drop_last()), m.grants);
    }
}

/// The event that a task waits for; none where it waits for none.
pub open spec fn awaited(j: Job) -> Option<Doc> {
    match j {
        Job::Write { update } => Some(update_event(update)),
        Job::Handoff { h } => Some(handoff_event(h)),
        Job::Fold { h, .. } => Some(handoff_event(h)),
        Job::Leaving { d } => Some(d.event),
        _ => None,
    }
}

/// What the log says once a task has what it waits for.
pub open spec fn told(st: Store, j: Job) -> Store {
    match awaited(j) {
        Some(ev) => st.replayed(ev, true),
        None => st,
    }
}

/// Whether a task is one of those that queue and apply writes and transfers.
pub open spec fn is_group_work(j: Job) -> bool {
    j is Write || j is Flush || j is WritesSynced || j is Publish || j is Zone || j is Handoff
        || j is Parts || j is Show || j is Spread || j is SyncHandoffs || j is HandoffsSynced
        || j is SyncFailovers || j is FailoversSynced || j is SyncMigrations
        || j is MigrationsSynced || j is Crossings || j is Cross || j is CrossAt || j is Leaving
        || j is Left || j is Fold || j is FoldEnd
}

/// Whether a task that applies what is queued is in its turn: a flush applies writes, then
/// transfers, then failovers, then migrations.
pub open spec fn is_in_turn(s: State, jobs: Seq<Job>) -> bool {
    let j = jobs.last();
    let below = in_flight(jobs.drop_last());
    &&& j is WritesSynced ==> below.len() == 0
    &&& j is HandoffsSynced || j is FailoversSynced || j is MigrationsSynced ==> below.len() == 0
        && s.pending_updates.len() == 0
    &&& j is FailoversSynced || j is MigrationsSynced ==> s.pending_handoffs.len() == 0
    &&& j is MigrationsSynced ==> s.pending_failovers.len() == 0
}

/// Whether a write or a transfer that a task is to queue can be: no grant of its entity is
/// queued, which would be applied after it though the log has it first, and neither is a
/// transfer that puts elsewhere what a write moves.
pub open spec fn is_in_order(s: State, j: Job) -> bool {
    match j {
        Job::Write { update } => spares(queued_grants(s), update.eid) && stands(
            update,
            s.pending_handoffs,
        ),
        Job::Handoff { h } => spares(queued_grants(s), h.eid) && is_placed(h),
        Job::Fold { h, .. } => spares(queued_grants(s), h.eid) && is_placed(h),
        _ => true,
    }
}

/// Whether a task needs the log.
pub open spec fn needs_log(j: Job) -> bool {
    awaited(j) is Some || j is WritesSynced || j is HandoffsSynced || j is FailoversSynced
        || j is MigrationsSynced || j is Left
}

proof fn lemma_transfer_staged(s: State, jobs: Seq<Job>, st: Store, h: Hand)
    requires
        agrees(s, jobs, st),
        spares(queued_grants(s), h.eid),
        is_placed(h),
    ensures
        agrees(s.handoff_staged(h, true), jobs, st.replayed(handoff_event(h), true)),
{
    lemma_replay_on(st, Staged::Transfer(h), true);
    let x = writes_on(bodies(s.entities), in_flight(jobs) + s.pending_updates);
    let hs = s.pending_handoffs;
    let gs = queued_grants(s);
    let ks = leaving(jobs);
    assert(hs.push(h).drop_last() =~= hs);
    let y = moves_on(x, hs);
    lemma_marks_move(y, gs, h);
    let z = marks_on(y, gs);
    assert(move_on(z, h).remove_keys(ks) =~= move_on(z.remove_keys(ks), h));
}

proof fn lemma_staging(s: State, jobs: Seq<Job>, st: Store, env: Around)
    requires
        jobs.len() > 0,
        agrees(s, jobs, st),
        jobs.last() is Write || jobs.last() is Handoff || jobs.last() is Fold,
        is_in_order(s, jobs.last()),
    ensures
        ({
            let t = s.stepped(jobs, Reply::Went(true), env);
            agrees(t.0, t.1, told(st, jobs.last()))
        }),
{
    reveal(State::on_write);
    reveal(State::on_handoff);
    reveal(State::on_fold);
    let rest = jobs.drop_last();
    let j = jobs.last();
    assert(jobs =~= rest.push(j));
    lemma_jobs(rest, j);
    assert(carried(j) + in_flight(rest) =~= in_flight(rest));
    let t = s.stepped(jobs, Reply::Went(true), env);
    let base = bodies(s.entities);
    let us = in_flight(rest) + s.pending_updates;
    let gs = queued_grants(s);
    let ks = leaving(rest);
    match j {
        Job::Write { update } => {
            let u = update;
            lemma_replay_on(st, Staged::Write(u), true);
            assert(in_flight(rest) + s.pending_updates.push(u) =~= us.push(u));
            assert(us.push(u).drop_last() =~= us);
            let x = writes_on(base, us);
            lemma_commute(x, s.pending_handoffs, u);
            let y = moves_on(x, s.pending_handoffs);
            lemma_marks_write(y, gs, u);
            let z = marks_on(y, gs);
            assert(write_on(z, u).remove_keys(ks) =~= write_on(z.remove_keys(ks), u));
        },
        Job::Handoff { h } => {
            lemma_transfer_staged(s, rest, st, h);
            let parts = Job::Parts {
                parts: s.parts_to_move(h.eid, h.to, sorted(s.entities.dom())),
                to: h.to,
            };
            lemma_idle(rest, parts);
        },
        Job::Fold { wid, h } => {
            lemma_transfer_staged(s, rest, st, h);
            let parts = Job::Parts {
                parts: s.parts_to_move(h.eid, h.to, sorted(s.entities.dom())),
                to: h.to,
            };
            let b = rest.push(Job::FoldEnd { eid: h.eid });
            let c = b.push(Job::Crossings);
            lemma_idle(rest, Job::FoldEnd { eid: h.eid });
            lemma_idle(b, Job::Crossings);
            lemma_idle(c, Job::SyncHandoffs);
            lemma_idle(c.push(Job::SyncHandoffs), parts);
        },
        _ => {},
    }
}

pub proof fn lemma_told_queues(
    s: State,
    sights: Seq<crate::publish::Glance>,
    eid: Seq<char>,
    comp: Seq<char>,
    v: Doc,
)
    ensures
        same_world(s, s.propagated(sights, eid, comp, v)),
        same_queues(s, s.propagated(sights, eid, comp, v)),
    decreases sights.len(),
{
    if sights.len() > 0 {
        lemma_told_queues(s, sights.drop_last(), eid, comp, v);
        let t = s.propagated(sights.drop_last(), eid, comp, v);
        crate::world::lemma_shown(t, sights.last().wid, eid);
        lemma_shown_queues(t, sights.last().wid, eid);
    }
}

proof fn lemma_writing(s: State, jobs: Seq<Job>, st: Store, a: Reply, env: Around)
    requires
        jobs.len() > 0,
        agrees(s, jobs, st),
        jobs.last() is Flush || jobs.last() is WritesSynced || jobs.last() is Publish
            || jobs.last() is Zone || jobs.last() is Parts || jobs.last() is Show
            || jobs.last() is Spread || jobs.last() is FoldEnd,
        jobs.last() is WritesSynced ==> a.went() && in_flight(jobs.drop_last()).len() == 0,
    ensures
        ({
            let t = s.stepped(jobs, a, env);
            agrees(t.0, t.1, st)
        }),
{
    reveal(State::on_flush);
    reveal(State::on_writes_synced);
    reveal(State::on_publish);
    reveal(State::on_zone);
    reveal(State::on_parts);
    reveal(State::on_show);
    reveal(State::on_spread);
    reveal(State::on_fold_end);
    let rest = jobs.drop_last();
    let j = jobs.last();
    assert(jobs =~= rest.push(j));
    lemma_jobs(rest, j);
    let t = s.stepped(jobs, a, env);
    let e = Seq::<Upd>::empty();
    match j {
        Job::Flush => {
            lemma_idle(rest, j);
            lemma_after(rest);
            lemma_idle(rest, Job::WritesSynced);
        },
        Job::WritesSynced => {
            lemma_idle(rest, j);
            lemma_after(rest);
            let p = Job::Publish { updates: s.pending_updates, next: 0 };
            let below = rest.push(Job::Crossings).push(Job::SyncMigrations).push(
                Job::SyncFailovers,
            ).push(Job::SyncHandoffs);
            lemma_jobs(below, p);
            assert(s.pending_updates.skip(0) =~= s.pending_updates);
            assert(in_flight(rest) =~= e);
            assert(in_flight(rest) + s.pending_updates =~= s.pending_updates);
            assert((s.pending_updates + in_flight(below)) + e =~= s.pending_updates);
        },
        Job::Publish { updates, next } => {
            lemma_published(s, rest, updates, next, st, env);
        },
        Job::Zone { eid, comp, value } => {
            lemma_idle(rest, j);
            let show = Job::Show { eid, comp, value };
            lemma_idle(rest, show);
            match s.zone_target(eid, comp, a.cell()) {
                Some(to) => {
                    let z = s.zoned(eid, comp, a.cell());
                    lemma_move(z, rest.push(show), eid, s.entities[eid].region, to);
                },
                None => {},
            }
        },
        Job::Parts { parts, to } => {
            lemma_idle(rest, j);
            let (left, next) = s.next_part_of(parts, to);
            let more = Job::Parts { parts: left, to };
            lemma_idle(rest, more);
            if next is Some {
                lemma_jobs(rest.push(more), Job::Handoff { h: next->0 });
                assert(e + in_flight(rest) =~= in_flight(rest));
            }
        },
        Job::Show { eid, comp, value } => {
            lemma_idle(rest, j);
            lemma_idle(rest, Job::Spread { eid, comp, value });
        },
        Job::FoldEnd { eid } => {
            lemma_idle(rest, j);
            lemma_idle(
                rest,
                Job::Show { eid, comp: "pos"@, value: s.entities[eid].pos.doc() },
            );
        },
        Job::Spread { eid, comp, value } => {
            lemma_idle(rest, j);
            lemma_told_queues(s, a.seen(), eid, comp, value);
        },
        _ => {},
    }
}

proof fn lemma_after(rest: Seq<Job>)
    ensures
        ({
            let after = rest.push(Job::Crossings).push(Job::SyncMigrations).push(
                Job::SyncFailovers,
            ).push(Job::SyncHandoffs);
            &&& in_flight(after) == in_flight(rest)
            &&& leaving(after) == leaving(rest)
        }),
{
    let a = rest.push(Job::Crossings);
    let b = a.push(Job::SyncMigrations);
    let c = b.push(Job::SyncFailovers);
    lemma_idle(rest, Job::Crossings);
    lemma_idle(a, Job::SyncMigrations);
    lemma_idle(b, Job::SyncFailovers);
    lemma_idle(c, Job::SyncHandoffs);
}

pub proof fn lemma_move(s: State, more: Seq<Job>, eid: Seq<char>, from: Seq<char>, to: Seq<char>)
    ensures
        ({
            let t = s.move_step(more, eid, from, to);
            &&& t.0.entities == s.entities
            &&& same_queues(s, t.0)
            &&& in_flight(t.1) == in_flight(more)
            &&& leaving(t.1) == leaving(more)
        }),
{
    match s.begun(eid, from, to, None) {
        crate::moves::Begun::Log(h) => {
            lemma_jobs(more, Job::Handoff { h });
            assert(carried(Job::Handoff { h }) + in_flight(more) =~= in_flight(more));
        },
        _ => {},
    }
}

proof fn lemma_published(
    s: State,
    rest: Seq<Job>,
    updates: Seq<Upd>,
    next: nat,
    st: Store,
    env: Around,
)
    requires
        agrees(s, rest.push(Job::Publish { updates, next }), st),
    ensures
        ({
            let t = s.on_publish(rest, updates, next, env);
            agrees(t.0, t.1, st)
        }),
{
    reveal(State::on_publish);
    let j = Job::Publish { updates, next };
    lemma_jobs(rest, j);
    if next >= updates.len() {
        assert(carried(j) =~= Seq::empty());
        assert(carried(j) + in_flight(rest) =~= in_flight(rest));
    } else {
        let u = updates[next as int];
        let more = Job::Publish { updates, next: next + 1 };
        let zone = Job::Zone { eid: u.eid, comp: u.comp, value: u.value };
        lemma_jobs(rest, more);
        lemma_idle(rest.push(more), zone);
        let tail = carried(more) + in_flight(rest) + s.pending_updates;
        assert(carried(j) + in_flight(rest) + s.pending_updates =~= seq![u] + tail);
        lemma_writes_cons(bodies(s.entities), u, tail);
        let t = s.on_publish(rest, updates, next, env);
        assert(bodies(t.0.entities) =~= write_on(bodies(s.entities), u));
    }
}

proof fn lemma_applying(s: State, jobs: Seq<Job>, st: Store, a: Reply, env: Around)
    requires
        jobs.len() > 0,
        agrees(s, jobs, st),
        jobs.last() is SyncHandoffs || jobs.last() is HandoffsSynced
            || jobs.last() is SyncFailovers || jobs.last() is FailoversSynced
            || jobs.last() is SyncMigrations || jobs.last() is MigrationsSynced,
        needs_log(jobs.last()) ==> a.went(),
        is_in_turn(s, jobs),
    ensures
        ({
            let t = s.stepped(jobs, a, env);
            agrees(t.0, t.1, st)
        }),
{
    reveal(State::on_sync_handoffs);
    reveal(State::on_handoffs_synced);
    reveal(State::on_sync_failovers);
    reveal(State::on_failovers_synced);
    reveal(State::on_sync_migrations);
    reveal(State::on_migrations_synced);
    let rest = jobs.drop_last();
    let j = jobs.last();
    assert(jobs =~= rest.push(j));
    lemma_idle(rest, j);
    lemma_idle(rest, Job::HandoffsSynced);
    lemma_idle(rest, Job::FailoversSynced);
    lemma_idle(rest, Job::MigrationsSynced);
    let base = bodies(s.entities);
    let us = in_flight(rest) + s.pending_updates;
    let hs = s.pending_handoffs;
    let fs = failover_grants(s.pending_failovers);
    let ms = migration_grants(s.pending_block_migrations);
    let x = moves_on(writes_on(base, us), hs);
    let none = Seq::<Grant>::empty();
    match j {
        Job::HandoffsSynced => {
            let b = State {
                pending_handoffs: Seq::empty(),
                wal: crate::state::WalStatus {
                    durable_gen: crate::handoff::max_hand_gen(hs, s.wal.durable_gen),
                    ..s.wal
                },
                ..s
            };
            lemma_moves_live(b, hs);
            lemma_handoffs_queues(b, hs);
            assert(us =~= Seq::empty());
        },
        Job::FailoversSynced => {
            let b = State {
                wal: crate::state::WalStatus {
                    durable_gen: crate::failover::max_failover_gen(
                        s.pending_failovers,
                        s.wal.durable_gen,
                    ),
                    ..s.wal
                },
                pending_failovers: Seq::empty(),
                ..s
            };
            lemma_failovers_live(b, s.pending_failovers);
            assert(us =~= Seq::empty());
            lemma_marks_join(x, fs, ms);
            assert(none + ms =~= ms);
        },
        Job::MigrationsSynced => {
            let b = State {
                wal: crate::state::WalStatus {
                    durable_gen: crate::failover::max_migration_gen(
                        s.pending_block_migrations,
                        s.wal.durable_gen,
                    ),
                    ..s.wal
                },
                pending_block_migrations: Seq::empty(),
                ..s
            };
            lemma_migrations_live(b, s.pending_block_migrations);
            assert(us =~= Seq::empty());
            assert(fs + ms =~= ms);
            assert(fs + none =~= none);
        },
        _ => {},
    }
}

proof fn lemma_going(s: State, jobs: Seq<Job>, st: Store, a: Reply, env: Around)
    requires
        jobs.len() > 0,
        agrees(s, jobs, st),
        jobs.last() is Crossings || jobs.last() is Cross || jobs.last() is CrossAt
            || jobs.last() is Leaving || jobs.last() is Left,
        needs_log(jobs.last()) ==> a.went(),
        jobs.last() matches Job::Leaving { d } ==> d == s.departure_of(d.eid, d.target),
    ensures
        ({
            let t = s.stepped(jobs, a, env);
            agrees(t.0, t.1, told(st, jobs.last()))
        }),
{
    reveal(State::on_crossings);
    reveal(State::on_cross);
    reveal(State::on_cross_at);
    reveal(State::on_leaving);
    reveal(State::on_left);
    let rest = jobs.drop_last();
    let j = jobs.last();
    assert(jobs =~= rest.push(j));
    lemma_jobs(rest, j);
    let t = s.stepped(jobs, a, env);
    let base = bodies(s.entities);
    let us = in_flight(rest) + s.pending_updates;
    let hs = s.pending_handoffs;
    let gs = queued_grants(s);
    let x = marks_on(moves_on(writes_on(base, us), hs), gs);
    let ks = leaving(rest);
    match j {
        Job::Crossings => {
            lemma_idle(rest, j);
            lemma_idle(rest, Job::Cross { list: s.pending_remote_handoffs, next: 0 });
        },
        Job::Cross { list, next } => {
            lemma_idle(rest, j);
            lemma_idle(rest, Job::CrossAt { list, next });
        },
        Job::CrossAt { list, next } => {
            lemma_idle(rest, j);
            let more = Job::Cross { list, next: next + 1 };
            lemma_idle(rest, more);
            if next < list.len() {
                let (eid, target) = list[next as int];
                lemma_idle(
                    rest.push(more),
                    Job::Leaving { d: s.departure_of(eid, target) },
                );
            }
        },
        Job::Leaving { d } => {
            lemma_idle(rest, j);
            lemma_jobs(rest, Job::Left { d });
            assert(carried(Job::Left { d }) + in_flight(rest) =~= in_flight(rest));
            law_departure_replays(s, st, d.eid, d.target);
            lemma_departure_fields(d, s);
            let k = told(st, j);
            assert(bodies(k.entities) =~= bodies(st.entities).remove(d.eid));
            assert(x.remove_keys(ks.insert(d.eid)) =~= x.remove_keys(ks).remove(d.eid));
        },
        Job::Left { d } => {
            assert(carried(j) + in_flight(rest) =~= in_flight(rest));
            lemma_left(s, d, env.gauges.now_ms);
            lemma_remove_writes(base, d.eid, us);
            lemma_remove_moves(writes_on(base, us), d.eid, hs);
            lemma_remove_marks(moves_on(writes_on(base, us), hs), d.eid, gs);
            assert(x.remove_keys(ks.insert(d.eid)) =~= x.remove(d.eid).remove_keys(ks));
        },
        _ => {},
    }
}

pub proof fn lemma_left(s: State, d: crate::mesh::Leave, now_ms: u64)
    ensures
        bodies(s.departed(d, now_ms).entities) == bodies(s.entities).remove(d.eid),
        same_queues(s, s.departed(d, now_ms)),
{
    let b = State {
        wal: crate::state::WalStatus {
            durable_gen: if s.wal.durable_gen < d.gen {
                d.gen
            } else {
                s.wal.durable_gen
            },
            ..s.wal
        },
        mesh_forwarded_epoch: s.mesh_forwarded_epoch.insert(
            d.eid,
            crate::recovery::later_epoch(s.mesh_forwarded_epoch, d.eid, d.authority_epoch),
        ),
        pending_mesh: s.pending_mesh.insert(
            d.eid,
            crate::state::Parked { frame: d.handoff, sent_ms: now_ms, target: d.target },
        ),
        entities: s.entities.remove(d.eid),
        outbox: s.outbox.push(
            crate::state::Sent::Mesh { region: d.target, msg: d.handoff },
        ),
        metrics: crate::state::Metrics {
            mesh_handoffs: crate::entity::succ(s.metrics.mesh_handoffs),
            ..s.metrics
        },
        ..s
    };
    lemma_hidden_world(b, sorted(b.workers.dom()), d.eid);
    assert(bodies(b.entities) =~= bodies(s.entities).remove(d.eid));
}

/// Every step that queues or applies writes, transfers, grants and departures keeps to the
/// log: where the log said before it what the world will be, it does so after it, with the
/// event that the step waited for. (A write or a transfer of an entity that a queued grant
/// also speaks of is not among them: the grant is applied last, though the log has it first.
/// Neither is a fold before which writes are queued: it is applied at once.)
pub proof fn law_group_work_keeps_to_the_log(
    s: State,
    jobs: Seq<Job>,
    st: Store,
    a: Reply,
    env: Around,
)
    requires
        jobs.len() > 0,
        agrees(s, jobs, st),
        is_group_work(jobs.last()),
        needs_log(jobs.last()) ==> a.went(),
        is_in_turn(s, jobs),
        is_in_order(s, jobs.last()),
        jobs.last() matches Job::Leaving { d } ==> d == s.departure_of(d.eid, d.target),
    ensures
        ({
            let t = s.stepped(jobs, a, env);
            agrees(t.0, t.1, told(st, jobs.last()))
        }),
{
    let j = jobs.last();
    if j is Write || j is Handoff || j is Fold {
        assert(a == Reply::Went(true));
        lemma_staging(s, jobs, st, env);
    } else if j is Flush || j is WritesSynced || j is Publish || j is Zone || j is Parts || j is Show
        || j is Spread || j is FoldEnd {
        lemma_writing(s, jobs, st, a, env);
    } else if j is Crossings || j is Cross || j is CrossAt || j is Leaving || j is Left {
        lemma_going(s, jobs, st, a, env);
    } else {
        lemma_applying(s, jobs, st, a, env);
    }
}

/// A cut replays to the world as it is: where the log says what the world will be, and
/// nothing is queued and nothing is under way, as after the flush of a snapshot, it says
/// what the world is.
pub proof fn law_cut_replays_to_the_world(s: State, jobs: Seq<Job>, st: Store)
    requires
        agrees(s, jobs, st),
        !s.has_staged(),
        in_flight(jobs).len() == 0,
        leaving(jobs) == Set::<Seq<char>>::empty(),
    ensures
        bodies(st.entities) == bodies(s.entities),
{
    assert(in_flight(jobs) + s.pending_updates =~= Seq::empty());
    assert(failover_grants(s.pending_failovers) + migration_grants(s.pending_block_migrations)
        =~= Seq::empty());
    assert(bodies(s.entities).remove_keys(leaving(jobs)) =~= bodies(s.entities));
}

/// Whether nothing that is queued is of an entity.
pub open spec fn is_untouched(s: State, jobs: Seq<Job>, eid: Seq<char>) -> bool {
    let us = in_flight(jobs) + s.pending_updates;
    let gs = queued_grants(s);
    &&& forall|i: int| 0 <= i < us.len() ==> (#[trigger] us[i]).eid != eid
    &&& forall|i: int|
        0 <= i < s.pending_handoffs.len() ==> (#[trigger] s.pending_handoffs[i]).eid != eid
    &&& forall|i: int| 0 <= i < gs.len() ==> (#[trigger] gs[i]).eid != eid
    &&& !leaving(jobs).contains(eid)
}

proof fn lemma_insert_writes(m: Map<Seq<char>, Body>, k: Seq<char>, b: Body, us: Seq<Upd>)
    requires
        forall|i: int| 0 <= i < us.len() ==> (#[trigger] us[i]).eid != k,
    ensures
        writes_on(m.insert(k, b), us) == writes_on(m, us).insert(k, b),
    decreases us.len(),
{
    if us.len() > 0 {
        let d = us.drop_last();
        assert forall|i: int| 0 <= i < d.len() implies (#[trigger] d[i]).eid != k by {
            assert(d[i] == us[i]);
        }
        assert(us[us.len() - 1].eid != k);
        lemma_insert_writes(m, k, b, d);
        let x = writes_on(m, d);
        assert(write_on(x.insert(k, b), us.last()) =~= write_on(x, us.last()).insert(k, b));
    }
}

proof fn lemma_insert_moves(m: Map<Seq<char>, Body>, k: Seq<char>, b: Body, hs: Seq<Hand>)
    requires
        forall|i: int| 0 <= i < hs.len() ==> (#[trigger] hs[i]).eid != k,
    ensures
        moves_on(m.insert(k, b), hs) == moves_on(m, hs).insert(k, b),
    decreases hs.len(),
{
    if hs.len() > 0 {
        let d = hs.drop_last();
        assert forall|i: int| 0 <= i < d.len() implies (#[trigger] d[i]).eid != k by {
            assert(d[i] == hs[i]);
        }
        assert(hs[hs.len() - 1].eid != k);
        lemma_insert_moves(m, k, b, d);
        let x = moves_on(m, d);
        assert(move_on(x.insert(k, b), hs.last()) =~= move_on(x, hs.last()).insert(k, b));
    }
}

proof fn lemma_insert_marks(m: Map<Seq<char>, Body>, k: Seq<char>, b: Body, gs: Seq<Grant>)
    requires
        forall|i: int| 0 <= i < gs.len() ==> (#[trigger] gs[i]).eid != k,
    ensures
        marks_on(m.insert(k, b), gs) == marks_on(m, gs).insert(k, b),
    decreases gs.len(),
{
    if gs.len() > 0 {
        let d = gs.drop_last();
        assert forall|i: int| 0 <= i < d.len() implies (#[trigger] d[i]).eid != k by {
            assert(d[i] == gs[i]);
        }
        assert(gs[gs.len() - 1].eid != k);
        lemma_insert_marks(m, k, b, d);
        let x = marks_on(m, d);
        assert(mark_on(x.insert(k, b), gs.last()) =~= mark_on(x, gs.last()).insert(k, b));
    }
}

proof fn lemma_without_moves(m: Map<Seq<char>, Body>, k: Seq<char>, hs: Seq<Hand>)
    ensures
        moves_on(m.remove(k), without(hs, k)) == moves_on(m, hs).remove(k),
    decreases hs.len(),
{
    if hs.len() > 0 {
        lemma_without_moves(m, k, hs.drop_last());
        let x = moves_on(m, hs.drop_last());
        let h = hs.last();
        if h.eid == k {
            assert(move_on(x, h).remove(k) =~= x.remove(k));
        } else {
            assert(without(hs, k).drop_last() =~= without(hs.drop_last(), k));
            assert(move_on(x, h).remove(k) =~= move_on(x.remove(k), h));
        }
    }
}

proof fn lemma_announced_queues(
    s: State,
    names: Seq<Seq<char>>,
    eid: Seq<char>,
    near: Set<Seq<char>>,
)
    ensures
        same_world(s, s.announced(names, eid, near)),
        same_queues(s, s.announced(names, eid, near)),
    decreases names.len(),
{
    if names.len() > 0 {
        lemma_announced_queues(s, names.drop_last(), eid, near);
        let t = s.announced(names.drop_last(), eid, near);
        let wid = names.last();
        let u = t.shown(wid, eid);
        crate::world::lemma_shown(t, wid, eid);
        crate::world::lemma_shown(u, wid, eid);
        lemma_shown_queues(t, wid, eid);
        lemma_revoked_queues(u, wid, eid, u.regional_grants(wid, eid));
    }
}

/// An entity that comes, from a request or from a neighbour, comes to the log as it comes to
/// the world. (Nothing is queued of an entity that is not here, and a coordinate that is no
/// finite number has no text in the log.)
pub proof fn law_arrival_keeps_to_the_log(
    s: State,
    jobs: Seq<Job>,
    st: Store,
    spawn: (Seq<char>, u64, Ent),
    near: Set<Seq<char>>,
)
    requires
        agrees(s, jobs, st),
        is_untouched(s, jobs, spawn.0),
        !st.tombstones.contains(spawn.0),
        spawn.2.pos.x is Some && spawn.2.pos.y is Some,
        spawn.2.vel.x is Some && spawn.2.vel.y is Some,
    ensures
        agrees(
            s.spawned(spawn.0, spawn.2, true, near),
            jobs,
            st.replayed(register_event(spawn.0, spawn.2, spawn.1), true),
        ),
{
    let (k, epoch, e) = spawn;
    let ev = register_event(k, e, epoch);
    lemma_register_fields(k, e, epoch);
    law_point_round_trip(e.pos);
    law_point_round_trip(e.vel);
    lemma_first_kinds();
    let b = e.body();
    let t = st.replayed(ev, true);
    assert(registered(ev).body() =~= b);
    assert(bodies(t.entities) =~= bodies(st.entities).insert(k, b));
    let a = (State { mesh_forwarded_epoch: s.mesh_forwarded_epoch.remove(k), ..s }).with_entity(
        k,
        e,
    );
    lemma_announced_queues(a, sorted(s.workers.dom()), k, near);
    let base = bodies(s.entities);
    assert(bodies(a.entities) =~= base.insert(k, b));
    let us = in_flight(jobs) + s.pending_updates;
    let hs = s.pending_handoffs;
    let gs = queued_grants(s);
    lemma_insert_writes(base, k, b, us);
    lemma_insert_moves(writes_on(base, us), k, b, hs);
    lemma_insert_marks(moves_on(writes_on(base, us), hs), k, b, gs);
    let x = marks_on(moves_on(writes_on(base, us), hs), gs);
    assert(x.insert(k, b).remove_keys(leaving(jobs)) =~= x.remove_keys(leaving(jobs)).insert(
        k,
        b,
    ));
}

/// An entity that is deleted goes from the log as it goes from the world, with the transfers
/// that were queued of it.
pub proof fn law_deletion_keeps_to_the_log(
    s: State,
    jobs: Seq<Job>,
    st: Store,
    eid: Seq<char>,
    version: u64,
    writer: Seq<char>,
)
    requires
        agrees(s, jobs, st),
    ensures
        agrees(
            s.buried(eid),
            jobs,
            st.replayed(tombstone_event(eid, version, writer), true),
        ),
{
    law_deletion_replays(st, eid, version, writer, true);
    let t = st.replayed(tombstone_event(eid, version, writer), true);
    assert(bodies(t.entities) =~= bodies(st.entities).remove(eid));
    let a = State {
        deleted_entities: s.deleted_entities.insert(eid),
        pending_handoffs: without(s.pending_handoffs, eid),
        pending_handoff_intent: s.pending_handoff_intent.remove(eid),
        entities: s.entities.remove(eid),
        ..s
    };
    lemma_hidden_world(a, sorted(a.workers.dom()), eid);
    let base = bodies(s.entities);
    assert(bodies(a.entities) =~= base.remove(eid));
    let us = in_flight(jobs) + s.pending_updates;
    let hs = s.pending_handoffs;
    let gs = queued_grants(s);
    lemma_remove_writes(base, eid, us);
    lemma_without_moves(writes_on(base, us), eid, hs);
    lemma_remove_marks(moves_on(writes_on(base, us), hs), eid, gs);
    let x = marks_on(moves_on(writes_on(base, us), hs), gs);
    assert(x.remove(eid).remove_keys(leaving(jobs)) =~= x.remove_keys(leaving(jobs)).remove(eid));
}

proof fn lemma_grants_said(st: Store, gs: Seq<Grant>)
    requires
        st.entities.dom().disjoint(st.tombstones),
    ensures
        ({
            let t = st.all_granted(gs.map_values(|g: Grant| grant_doc(g)));
            &&& bodies(t.entities) == marks_on(bodies(st.entities), gs)
            &&& t.tombstones == st.tombstones
            &&& t.entities.dom() == st.entities.dom()
        }),
    decreases gs.len(),
{
    let docs = gs.map_values(|g: Grant| grant_doc(g));
    if gs.len() > 0 {
        let d = gs.drop_last();
        let g = gs.last();
        lemma_grants_said(st, d);
        assert(docs.drop_last() =~= d.map_values(|g: Grant| grant_doc(g)));
        assert(docs.last() == grant_doc(g));
        let mid = st.all_granted(docs.drop_last());
        law_grant_replays(mid.entities[g.eid], g);
        if mid.entities.contains_key(g.eid) {
            assert(st.entities.dom().contains(g.eid));
            assert(!st.tombstones.contains(g.eid));
        }
        let t = st.all_granted(docs);
        assert(bodies(t.entities) =~= mark_on(bodies(mid.entities), g));
        assert(t.entities.dom() =~= st.entities.dom());
    }
}

/// A failover or a migration that is queued is on the log as it will be applied. (A failover
/// of an entity that a queued migration also speaks of is not among them: failovers are
/// applied first.)
pub proof fn law_grants_keep_to_the_log(
    s: State,
    jobs: Seq<Job>,
    st: Store,
    f: Failover,
    m: Migration,
)
    requires
        agrees(s, jobs, st),
        are_apart(f.grants, migration_grants(s.pending_block_migrations)),
    ensures
        agrees(s.failover_staged(f, true), jobs, st.replayed(failover_event(f), true)),
        agrees(s.migration_staged(m, true), jobs, st.replayed(migration_event(m), true)),
{
    lemma_event_keys();
    lemma_first_kinds();
    reveal_strlit("region");
    reveal_strlit("block");
    reveal_strlit("old_owner");
    reveal_strlit("new_owner");
    reveal_strlit("grants");
    assert("region"@.len() == 6 && "block"@.len() == 5 && "old_owner"@.len() == 9
        && "new_owner"@.len() == 9 && "grants"@.len() == 6);
    assert("region"@[0] == 'r' && "region"@[2] == 'g' && "reason"@[2] == 'a' && "grants"@[0] == 'g')
        by {
        reveal_strlit("reason");
    }
    let x = moves_on(
        writes_on(bodies(s.entities), in_flight(jobs) + s.pending_updates),
        s.pending_handoffs,
    );
    let a = failover_grants(s.pending_failovers);
    let b = migration_grants(s.pending_block_migrations);
    let ks = leaving(jobs);
    let y = marks_on(x, a + b);
    // failover
    let ev = failover_event(f);
    assert(ev.get_str("kind"@) == Some("failover_grant"@));
    assert(ev.get("grants"@) == Some(grants_doc(f.grants)));
    lemma_grants_said(st, f.grants);
    assert(s.pending_failovers.push(f).drop_last() =~= s.pending_failovers);
    lemma_marks_join(x, a, b);
    lemma_marks_join(x, a + f.grants, b);
    lemma_marks_join(x, a, f.grants);
    lemma_marks_marks(marks_on(x, a), f.grants, b);
    lemma_marks_keys(y, f.grants, ks);
    // migration
    let ev2 = migration_event(m);
    assert(ev2.get_str("kind"@) == Some("block_migration"@));
    assert(ev2.get("grants"@) == Some(grants_doc(m.grants)));
    lemma_grants_said(st, m.grants);
    assert(s.pending_block_migrations.push(m).drop_last() =~= s.pending_block_migrations);
    lemma_marks_join(x, a, b + m.grants);
    lemma_marks_join(marks_on(x, a), b, m.grants);
    lemma_marks_keys(y, m.grants, ks);
}

proof fn lemma_marks_keys(m: Map<Seq<char>, Body>, gs: Seq<Grant>, ks: Set<Seq<char>>)
    ensures
        marks_on(m.remove_keys(ks), gs) == marks_on(m, gs).remove_keys(ks),
    decreases gs.len(),
{
    if gs.len() > 0 {
        lemma_marks_keys(m, gs.drop_last(), ks);
        let x = marks_on(m, gs.drop_last());
        assert(mark_on(x.remove_keys(ks), gs.last()) =~= mark_on(x, gs.last()).remove_keys(ks));
    }
}

/// Whether nothing is queued and nothing is under way.
pub open spec fn is_settled(s: State, jobs: Seq<Job>) -> bool {
    &&& !s.has_staged()
    &&& in_flight(jobs).len() == 0
    &&& leaving(jobs) == Set::<Seq<char>>::empty()
}

pub proof fn lemma_viewers_queues(s: State, names: Seq<Seq<char>>, eid: Seq<char>, msg: Doc)
    ensures
        same_world(s, s.told_viewers(names, eid, msg)),
        same_queues(s, s.told_viewers(names, eid, msg)),
    decreases names.len(),
{
    if names.len() > 0 {
        lemma_viewers_queues(s, names.drop_last(), eid, msg);
    }
}

proof fn lemma_entity_events(st: Store, ev: Doc, k: Seq<char>, kind: Seq<char>)
    requires
        kind_of(ev) == kind,
        ev_entity(ev) == k,
        kind == "component_add"@ || kind == "component_remove"@ || kind == "component_authority"@,
    ensures
        st.replayed(ev, true) == st.entity_set(k, ent_replayed(st.entities[k], kind, ev)),
{
    lemma_late_kinds();
    lemma_first_kinds();
    reveal_strlit("delete_tombstone");
    reveal_strlit("partition_config");
    assert("delete_tombstone"@[0] == 'd' && "partition_config"@[0] == 'p');
}

/// What the log says of an entity of which nothing is queued is what it is.
proof fn lemma_untouched(s: State, jobs: Seq<Job>, st: Store, k: Seq<char>)
    requires
        agrees(s, jobs, st),
        is_untouched(s, jobs, k),
        s.entities.contains_key(k),
    ensures
        st.entities.contains_key(k),
        !st.tombstones.contains(k),
        st.entities[k].body() == s.entities[k].body(),
{
    let base = bodies(s.entities);
    let b = s.entities[k].body();
    let us = in_flight(jobs) + s.pending_updates;
    let hs = s.pending_handoffs;
    let gs = queued_grants(s);
    assert(base.insert(k, b) =~= base);
    lemma_insert_writes(base, k, b, us);
    lemma_insert_moves(writes_on(base, us), k, b, hs);
    lemma_insert_marks(moves_on(writes_on(base, us), hs), k, b, gs);
    assert(s.future(jobs).contains_key(k) && s.future(jobs)[k] == b);
    assert(bodies(st.entities).contains_key(k));
    assert(bodies(st.entities)[k] == st.entities[k].body());
    assert(st.entities.dom().contains(k));
}

/// An entity of which nothing is queued may change, where it does so on the log too.
proof fn lemma_changed(s: State, jobs: Seq<Job>, st: Store, k: Seq<char>, e: Ent, o: Ent)
    requires
        agrees(s, jobs, st),
        is_untouched(s, jobs, k),
        s.entities.contains_key(k),
        e.body() == o.body(),
    ensures
        agrees(s.with_entity(k, e), jobs, st.entity_set(k, o)),
{
    lemma_untouched(s, jobs, st, k);
    let base = bodies(s.entities);
    let b = e.body();
    let us = in_flight(jobs) + s.pending_updates;
    let hs = s.pending_handoffs;
    let gs = queued_grants(s);
    let ks = leaving(jobs);
    lemma_insert_writes(base, k, b, us);
    lemma_insert_moves(writes_on(base, us), k, b, hs);
    lemma_insert_marks(moves_on(writes_on(base, us), hs), k, b, gs);
    assert(bodies(s.entities.insert(k, e)) =~= base.insert(k, b));
    assert(bodies(st.entities.insert(k, o)) =~= bodies(st.entities).insert(k, b));
    let x = marks_on(moves_on(writes_on(base, us), hs), gs);
    assert(x.insert(k, b).remove_keys(ks) =~= x.remove_keys(ks).insert(k, b));
    assert(st.entities.insert(k, o).dom() =~= st.entities.dom());
}

/// To tell peers, and to grant components, changes nothing of what will be.
proof fn lemma_told(s: State, t: State, jobs: Seq<Job>, st: Store)
    requires
        agrees(s, jobs, st),
        same_world(s, t),
        same_queues(s, t),
    ensures
        agrees(t, jobs, st),
{
}

/// A component that comes does so on the log as it does in the world. (Nothing is
/// queued of the entity: such a change is made at once, before what is queued.)
pub proof fn law_added_component_keeps_to_the_log(
    s: State,
    jobs: Seq<Job>,
    st: Store,
    wid: Seq<char>,
    f: Doc,
)
    requires
        agrees(s, jobs, st),
        is_untouched(s, jobs, named_entity(f)),
        s.entities.contains_key(named_entity(f)),
    ensures
        agrees(
            s.component_added(wid, f, true),
            jobs,
            st.replayed(add_event(f, succ(s.entities[named_entity(f)].version), wid), true),
        ),
{
    let k = named_entity(f);
    let comp = named_comp(f);
    lemma_untouched(s, jobs, st, k);
    let e = s.entities[k];
    let o = st.entities[k];
    let v = or_null(f.get("value"@));
    let ev = add_event(f, succ(e.version), wid);
    assert(o.version == e.version);
    law_added_component_replays(o, f, wid);
    lemma_entity_events(st, ev, k, "component_add"@);
    let e2 = Ent {
        version: succ(e.version),
        ..(Ent { components: e.components.insert(comp, v), ..e }).ensured(comp)
    };
    lemma_changed(s, jobs, st, k, e2, ent_replayed(o, "component_add"@, ev));
    let a = s.with_entity(k, e2);
    let msg = Doc::Obj(
        map![
            "op"@ => Doc::Str("AddComponent"@),
            "entity"@ => Doc::Str(k),
            "comp"@ => Doc::Str(comp),
            "value"@ => v],
    );
    lemma_viewers_queues(a, sorted(a.workers.dom()), k, msg);
    lemma_told(a, s.component_added(wid, f, true), jobs, st.replayed(ev, true));
}

/// A component that goes does so on the log as it does in the world. (Nothing is
/// queued of the entity: such a change is made at once, before what is queued.)
pub proof fn law_removed_component_keeps_to_the_log(
    s: State,
    jobs: Seq<Job>,
    st: Store,
    wid: Seq<char>,
    f: Doc,
)
    requires
        agrees(s, jobs, st),
        is_untouched(s, jobs, named_entity(f)),
        s.entities.contains_key(named_entity(f)),
    ensures
        agrees(
            s.component_removed(wid, f, true),
            jobs,
            st.replayed(remove_event(f, succ(s.entities[named_entity(f)].version), wid), true),
        ),
{
    let k = named_entity(f);
    let comp = named_comp(f);
    lemma_untouched(s, jobs, st, k);
    let e = s.entities[k];
    let o = st.entities[k];
    let ev = remove_event(f, succ(e.version), wid);
    assert(o.version == e.version);
    law_removed_component_replays(o, f, wid);
    lemma_entity_events(st, ev, k, "component_remove"@);
    let e2 = Ent { components: e.components.remove(comp), version: succ(e.version), ..e };
    lemma_changed(s, jobs, st, k, e2, ent_replayed(o, "component_remove"@, ev));
    let a = s.with_entity(k, e2);
    lemma_viewers_queues(a, sorted(a.workers.dom()), k, removed_msg(k, comp));
    lemma_told(a, s.component_removed(wid, f, true), jobs, st.replayed(ev, true));
}

/// A component that changes hands leaves the world as the log says. (Nothing is
/// queued of the entity: such a change is made at once, before what is queued.)
pub proof fn law_authority_change_keeps_to_the_log(
    s: State,
    jobs: Seq<Job>,
    st: Store,
    wid: Seq<char>,
    f: Doc,
    c: Change,
)
    requires
        agrees(s, jobs, st),
        is_untouched(s, jobs, c.eid),
        s.entities.contains_key(c.eid),
    ensures
        agrees(s.change_finished(wid, f, c, true), jobs, st.replayed(change_event(c, wid), true)),
{
    lemma_untouched(s, jobs, st, c.eid);
    let o = st.entities[c.eid];
    let ev = change_event(c, wid);
    law_authority_change_replays(o, c, wid);
    lemma_entity_events(st, ev, c.eid, "component_authority"@);
    let e2 = reassigned(s.entities[c.eid], c);
    lemma_changed(s, jobs, st, c.eid, e2, ent_replayed(o, "component_authority"@, ev));
    let a = s.with_entity(c.eid, e2);
    lemma_granted(a, c.old_owner->0, c.eid, c.comp);
    let b = if c.old_owner is Some && c.old_owner != c.owner && a.workers.contains_key(
        c.old_owner->0,
    ) {
        a.revoked(c.old_owner->0, c.eid, c.comp)
    } else {
        a
    };
    lemma_granted(b, c.owner->0, c.eid, c.comp);
    lemma_told(a, s.change_finished(wid, f, c, true), jobs, st.replayed(ev, true));
}

/// A component that is put under the server's arbitration leaves the world as the log says.
/// (Nothing is queued of the entity: such a change is made at once, before what is queued.)
pub proof fn law_escalation_keeps_to_the_log(
    s: State,
    jobs: Seq<Job>,
    st: Store,
    eid: Seq<char>,
    comp: Seq<char>,
    owner: Option<Seq<char>>,
    reason: Seq<char>,
)
    requires
        agrees(s, jobs, st),
        is_untouched(s, jobs, eid),
        s.entities.contains_key(eid),
    ensures
        ({
            let e = arbitrated(s.entities[eid], comp, owner);
            let ev = escalation_event(eid, comp, owner, reason, e);
            let t = s.escalated(eid, comp, owner, reason);
            &&& t.log_queue == s.log_queue.push(ev)
            &&& agrees(t, jobs, st.replayed(ev, true))
        }),
{
    lemma_untouched(s, jobs, st, eid);
    let old = s.entities[eid].recorded(comp).owner;
    let o = st.entities[eid];
    let e = arbitrated(s.entities[eid], comp, owner);
    let ev = escalation_event(eid, comp, owner, reason, e);
    law_escalation_replays(s.entities[eid], o, eid, comp, owner, reason);
    lemma_entity_events(st, ev, eid, "component_authority"@);
    lemma_changed(s, jobs, st, eid, e, ent_replayed(o, "component_authority"@, ev));
    let a = s.with_entity(eid, e).logged(ev);
    let b = if old is Some && owner != old {
        a.epoch_dropped(old->0, component_key(eid, comp)).emitted(
            old->0,
            escalation_notice(eid, comp, e.authority[comp].epoch, reason),
        )
    } else {
        a
    };
    if owner is Some {
        lemma_granted(b, owner->0, eid, comp);
    }
    lemma_told(
        s.with_entity(eid, e),
        s.escalated(eid, comp, owner, reason),
        jobs,
        st.replayed(ev, true),
    );
}

/// A step of a threshold transaction is on the log as it is in the world. (Nothing is
/// queued of the entity: such a change is made at once, before what is queued.)
pub proof fn law_threshold_keeps_to_the_log(
    s: State,
    jobs: Seq<Job>,
    st: Store,
    wid: Seq<char>,
    f: Doc,
    tx: Tx,
)
    requires
        agrees(s, jobs, st),
        is_untouched(s, jobs, tx.eid),
        tx.is_valid(),
        s.entities.contains_key(tx.eid),
    ensures
        agrees(
            s.step_finished(wid, f, s.step_of(tx), true),
            jobs,
            st.replayed(step_event(s.step_of(tx), wid), true),
        ),
{
    let p = s.step_of(tx);
    let k = tx.eid;
    lemma_untouched(s, jobs, st, k);
    let o = st.entities[k];
    let ev = step_event(p, wid);
    let n = tx.on(s.entities[k]);
    let m = if tx.is_commit() {
        n.advanced(
            s.holder(k),
            match tx.target() {
                Some(t) => crate::handoff::at(s.region_worker, t),
                None => None,
            },
        ).authority
    } else {
        n.authority
    };
    law_threshold_step_replays(o, p, m, wid);
    lemma_step_kind(st, ev, k, tx.phase);
    let e2 = stepped(s.entities[k], p);
    lemma_changed(s, jobs, st, k, e2, ent_replayed(o, "threshold_"@ + tx.phase, ev));
    let a = s.with_entity(k, e2);
    lemma_hands_queues(a, k, p.old_region, p.new_region, p.moved_comps);
    let b = if tx.is_commit() && p.old_region != p.new_region {
        a.changed_hands(k, p.old_region, p.new_region, p.moved_comps)
    } else {
        a
    };
    lemma_viewers_queues(b, sorted(b.workers.dom()), k, step_notice(p));
    lemma_told(a, s.step_finished(wid, f, p, true), jobs, st.replayed(ev, true));
}

/// A transaction that timed out is aborted on the log as it is in the world. (Nothing is
/// queued of the entity: it is aborted at once, before what is queued.)
pub proof fn law_timeout_keeps_to_the_log(s: State, jobs: Seq<Job>, st: Store, eid: Seq<char>)
    requires
        agrees(s, jobs, st),
        is_untouched(s, jobs, eid),
        s.entities.contains_key(eid),
        s.entities[eid].components.contains_key("threshold.tx"@),
    ensures
        agrees(
            s.timeout_finished(eid, true),
            jobs,
            st.replayed(timeout_event(eid, s.entities[eid]), true),
        ),
{
    lemma_untouched(s, jobs, st, eid);
    let e = s.entities[eid];
    let o = st.entities[eid];
    let ev = timeout_event(eid, e);
    law_timeout_replays(o, e, eid);
    reveal_strlit("threshold_");
    reveal_strlit("abort");
    reveal_strlit("threshold_abort");
    assert("threshold_"@ + "abort"@ =~= "threshold_abort"@);
    lemma_step_kind(st, ev, eid, "abort"@);
    let e2 = Ent {
        components: e.components.remove("threshold.tx"@),
        version: succ(e.version),
        ..e
    };
    lemma_changed(s, jobs, st, eid, e2, ent_replayed(o, "threshold_abort"@, ev));
    let a = s.with_entity(eid, e2);
    lemma_viewers_queues(a, sorted(a.workers.dom()), eid, removed_msg(eid, "threshold.tx"@));
    lemma_told(a, s.timeout_finished(eid, true), jobs, st.replayed(ev, true));
}

proof fn lemma_hands_queues(
    s: State,
    k: Seq<char>,
    from: Seq<char>,
    to: Seq<char>,
    comps: Seq<Seq<char>>,
)
    ensures
        same_world(s, s.changed_hands(k, from, to, comps)),
        same_queues(s, s.changed_hands(k, from, to, comps)),
{
    let old = crate::handoff::at(s.region_worker, from);
    let new = crate::handoff::at(s.region_worker, to);
    let t = if old is Some && s.workers.contains_key(old->0) {
        s.all_revoked(old->0, k, comps)
    } else {
        s
    };
    if old is Some {
        lemma_all_revoked(s, old->0, k, comps);
        lemma_revoked_queues(s, old->0, k, comps);
    }
    if new is Some {
        lemma_received(t, new->0, k, comps);
        lemma_received_queues(t, new->0, k, comps);
    }
}

proof fn lemma_step_kind(st: Store, ev: Doc, k: Seq<char>, phase: Seq<char>)
    requires
        phases().contains(phase),
        kind_of(ev) == "threshold_"@ + phase,
        ev_entity(ev) == k,
    ensures
        st.replayed(ev, true) == st.entity_set(
            k,
            ent_replayed(st.entities[k], "threshold_"@ + phase, ev),
        ),
{
    lemma_first_kinds();
    reveal_strlit("threshold_");
    reveal_strlit("register");
    reveal_strlit("delete_tombstone");
    reveal_strlit("mesh_forwarded_fence");
    reveal_strlit("failover_grant");
    reveal_strlit("block_migration");
    reveal_strlit("mesh_out");
    reveal_strlit("mesh_acked");
    reveal_strlit("partition_config");
    reveal_strlit("reserve_entity_ids");
    let kind = "threshold_"@ + phase;
    assert(kind[0] == 't');
    assert("register"@[0] == 'r' && "delete_tombstone"@[0] == 'd' && "mesh_forwarded_fence"@[0]
        == 'm' && "failover_grant"@[0] == 'f' && "block_migration"@[0] == 'b' && "mesh_out"@[0]
        == 'm' && "mesh_acked"@[0] == 'm' && "partition_config"@[0] == 'p'
        && "reserve_entity_ids"@[0] == 'r');
}

}

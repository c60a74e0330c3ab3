//! Rounds of work: what holds of one peer, transfer or failover holds of every one in a list,
//! and one task hands on to the next.

use vstd::prelude::*;
use vstd::string::*;
use crate::adopt::{msg_entity, Gate};
use crate::attention::{
    law_hidden, law_values_reach_those_who_see, lemma_all_names, lemma_prefix, lemma_sent_on,
    lemma_shown_tells, was_sent,
};
use crate::components::removed_msg;
use crate::dispatch::{Around, Job, Reply, Setting, Want};
use crate::doc::Doc;
use crate::entity::{succ, Ent};
use crate::journal::Compaction;
use crate::mesh::ack_event;
use crate::order::sorted;
use crate::policy::op_of;
use crate::publish::Glance;
use crate::schema::in_flight_row;
use crate::sight::component_update;
use crate::state::{Failover, Metrics, Migration, Sent, State, WalStatus};
use crate::world::{bodies, lemma_same_keys, same_world};

verus! {

broadcast use {crate::doc::group_json, crate::strmap::group_map};

proof fn lemma_told_prefix(s: State, g: Glance, eid: Seq<char>, comp: Seq<char>, value: Doc)
    ensures
        s.outbox.is_prefix_of(s.told(g, eid, comp, value).outbox),
        s.told(g, eid, comp, value).workers.dom() == s.workers.dom(),
{
    let t = s.told(g, eid, comp, value);
    if s.workers.contains_key(g.wid) && s.entities.contains_key(eid) {
        let w = s.workers[g.wid];
        let sees = w.sees(s.entities[eid], g.near);
        let had = w.view.contains(eid);
        if sees && !had {
            lemma_shown_tells(s, g.wid, eid);
        } else if !sees && had {
            law_hidden(s, g.wid, eid);
        } else {
            assert(t.workers.dom() =~= s.workers.dom());
        }
    }
}

/// A value that was written reaches everybody who is looked at: each of them has the entity
/// in view afterwards where it sees it and not where it does not, and each that had it and
/// gets it in full is sent the value. Nobody else's view changes.
pub proof fn law_values_reach_everybody(
    s: State,
    sights: Seq<Glance>,
    eid: Seq<char>,
    comp: Seq<char>,
    value: Doc,
)
    requires
        s.entities.contains_key(eid),
        forall|i: int, j: int|
            0 <= i < j < sights.len() ==> (#[trigger] sights[i]).wid != (#[trigger] sights[j]).wid,
        forall|i: int|
            0 <= i < sights.len() ==> s.workers.contains_key((#[trigger] sights[i]).wid),
    ensures
        ({
            let t = s.propagated(sights, eid, comp, value);
            &&& same_world(s, t)
            &&& s.outbox.is_prefix_of(t.outbox)
            &&& t.workers.dom() == s.workers.dom()
            &&& forall|i: int|
                0 <= i < sights.len() ==> {
                    let g = #[trigger] sights[i];
                    let w = s.workers[g.wid];
                    let sees = w.sees(s.entities[eid], g.near);
                    let full = w.aoi_center is None || w.full_radius is None || g.full;
                    &&& t.workers[g.wid].view == if sees {
                        w.view.insert(eid)
                    } else {
                        w.view.remove(eid)
                    }
                    &&& sees && w.view.contains(eid) && full ==> was_sent(
                        s,
                        t,
                        g.wid,
                        component_update(eid, comp, value),
                    )
                }
            &&& forall|v: Seq<char>|
                (forall|i: int| 0 <= i < sights.len() ==> (#[trigger] sights[i]).wid != v)
                    ==> #[trigger] t.workers[v] == s.workers[v]
        }),
    decreases sights.len(),
{
    let t = s.propagated(sights, eid, comp, value);
    if sights.len() > 0 {
        let d = sights.drop_last();
        let l = sights.last();
        assert forall|i: int, j: int| 0 <= i < j < d.len() implies (#[trigger] d[i]).wid != (
        #[trigger] d[j]).wid by {
            assert(d[i] == sights[i] && d[j] == sights[j]);
        }
        assert forall|i: int| 0 <= i < d.len() implies s.workers.contains_key(
            (#[trigger] d[i]).wid,
        ) by {
            assert(d[i] == sights[i]);
        }
        law_values_reach_everybody(s, d, eid, comp, value);
        let p = s.propagated(d, eid, comp, value);
        assert(sights[sights.len() - 1] == l);
        assert forall|i: int| 0 <= i < d.len() implies (#[trigger] d[i]).wid != l.wid by {
            assert(d[i] == sights[i]);
            assert(sights[i].wid != sights[sights.len() - 1].wid);
        }
        assert(p.workers[l.wid] == s.workers[l.wid]);
        assert(p.workers.dom().contains(l.wid));
        lemma_same_keys(s, p);
        assert(bodies(s.entities).contains_key(eid));
        assert(bodies(p.entities).contains_key(eid));
        assert(bodies(s.entities)[eid] == s.entities[eid].body());
        assert(bodies(p.entities)[eid] == p.entities[eid].body());
        law_values_reach_those_who_see(p, l, eid, comp, value);
        lemma_told_prefix(p, l, eid, comp, value);
        lemma_prefix(s.outbox, p.outbox, t.outbox);
        let msg = component_update(eid, comp, value);
        assert forall|i: int| 0 <= i < sights.len() implies {
            let g = #[trigger] sights[i];
            let w = s.workers[g.wid];
            let sees = w.sees(s.entities[eid], g.near);
            let full = w.aoi_center is None || w.full_radius is None || g.full;
            &&& t.workers[g.wid].view == if sees {
                w.view.insert(eid)
            } else {
                w.view.remove(eid)
            }
            &&& sees && w.view.contains(eid) && full ==> was_sent(s, t, g.wid, msg)
        } by {
            if i < d.len() {
                assert(d[i] == sights[i]);
                assert(t.workers[d[i].wid] == p.workers[d[i].wid]);
                let g = sights[i];
                let w = s.workers[g.wid];
                if w.sees(s.entities[eid], g.near) && w.view.contains(eid) && (w.aoi_center is None
                    || w.full_radius is None || g.full) {
                    lemma_sent_on(s, p, t, g.wid, msg);
                }
            } else {
                let w = s.workers[l.wid];
                if w.sees(s.entities[eid], l.near) && w.view.contains(eid) && (w.aoi_center is None
                    || w.full_radius is None || l.full) {
                    assert(t.outbox[p.outbox.len() as int] == (Sent::Peer { wid: l.wid, msg }));
                    assert(was_sent(p, t, l.wid, msg));
                    lemma_sent_on(s, p, t, l.wid, msg);
                }
            }
        }
        assert forall|v: Seq<char>|
            (forall|i: int| 0 <= i < sights.len() ==> (#[trigger] sights[i]).wid != v) implies
            #[trigger] t.workers[v] == s.workers[v] by {
            assert(sights[sights.len() - 1].wid != v);
            assert forall|i: int| 0 <= i < d.len() implies (#[trigger] d[i]).wid != v by {
                assert(d[i] == sights[i]);
            }
            assert(p.workers[v] == s.workers[v]);
        }
    }
}

/// A mirror reaches every peer: each has it in view afterwards where it sees it, and not
/// where it does not.
pub proof fn law_mirrors_reach_everybody(
    s: State,
    names: Seq<Seq<char>>,
    eid: Seq<char>,
    near: Set<Seq<char>>,
    first: bool,
)
    requires
        s.ghosts.contains_key(eid),
        names.no_duplicates(),
        forall|i: int| 0 <= i < names.len() ==> s.workers.contains_key(#[trigger] names[i]),
    ensures
        ({
            let t = s.mirror_spread(names, eid, near, first);
            let g = s.ghosts[eid];
            &&& t.entities == s.entities && t.ghosts == s.ghosts
            &&& t.workers.dom() == s.workers.dom()
            &&& forall|w: Seq<char>| #[trigger]
                s.workers.contains_key(w) ==> t.workers[w].view == if !names.contains(w) {
                    s.workers[w].view
                } else if s.workers[w].interested(g.pos, near.contains(w))
                    && crate::entity::may_read(s.workers[w].attributes, g.components) {
                    s.workers[w].view.insert(eid)
                } else {
                    s.workers[w].view.remove(eid)
                }
            &&& forall|w: Seq<char>| #[trigger]
                s.workers.contains_key(w) ==> t.workers[w] == (crate::state::Peer {
                    view: t.workers[w].view,
                    ..s.workers[w]
                })
        }),
    decreases names.len(),
{
    let t = s.mirror_spread(names, eid, near, first);
    if names.len() > 0 {
        let d = names.drop_last();
        let l = names.last();
        crate::succession::lemma_last_is_new(names);
        assert forall|i: int| 0 <= i < d.len() implies s.workers.contains_key(#[trigger] d[i]) by {
            assert(d[i] == names[i]);
        }
        assert(s.workers.contains_key(names[names.len() - 1]));
        law_mirrors_reach_everybody(s, d, eid, near, first);
        let p = s.mirror_spread(d, eid, near, first);
        assert(p.workers.dom().contains(l));
        crate::works::law_mirrors_reach_those_who_see(p, l, eid, near.contains(l), first);
        assert(t.workers.dom() =~= s.workers.dom());
    } else {
        assert(forall|w: Seq<char>| !names.contains(w));
    }
}

/// Every failover of a round is made: a region goes to the standby of its last one.
pub proof fn law_every_failover_is_made(s: State, fs: Seq<Failover>, i: int)
    requires
        0 <= i < fs.len(),
        forall|j: int| i < j < fs.len() ==> (#[trigger] fs[j]).region != fs[i].region,
    ensures
        ({
            let t = s.failovers_applied(fs);
            &&& t.region_worker.contains_key(fs[i].region)
            &&& t.region_worker[fs[i].region] == fs[i].new_wid
            &&& t.region_expires[fs[i].region] == fs[i].until_ms
        }),
    decreases fs.len(),
{
    let d = fs.drop_last();
    let f = fs.last();
    let p = s.failovers_applied(d);
    let a = (State {
        region_worker: p.region_worker.insert(f.region, f.new_wid),
        region_expires: p.region_expires.insert(f.region, f.until_ms),
        metrics: Metrics { failovers: succ(p.metrics.failovers), ..p.metrics },
        ..p
    }).peer_moved(f.new_wid, f.region);
    lemma_grants_keep_regions(a, f.grants, None, f.new_wid);
    if i < d.len() {
        assert(d[i] == fs[i]);
        assert forall|j: int| i < j < d.len() implies (#[trigger] d[j]).region != d[i].region by {
            assert(d[j] == fs[j]);
        }
        law_every_failover_is_made(s, d, i);
        assert(fs[fs.len() - 1].region != fs[i].region);
    }
}

/// Every migration of a round is made.
pub proof fn law_every_migration_is_made(s: State, ms: Seq<Migration>, i: int)
    requires
        0 <= i < ms.len(),
        forall|j: int| i < j < ms.len() ==> (#[trigger] ms[j]).block != ms[i].block,
    ensures
        ({
            let t = s.migrations_applied(ms);
            t.region_worker.contains_key(ms[i].block) && t.region_worker[ms[i].block]
                == ms[i].new_wid
        }),
    decreases ms.len(),
{
    let d = ms.drop_last();
    let m = ms.last();
    let p = s.migrations_applied(d);
    let a = (State { region_worker: p.region_worker.insert(m.block, m.new_wid), ..p }).peer_moved(
        m.new_wid,
        m.block,
    );
    lemma_grants_keep_regions(a, m.grants, Some(m.old_wid), m.new_wid);
    if i < d.len() {
        assert(d[i] == ms[i]);
        assert forall|j: int| i < j < d.len() implies (#[trigger] d[j]).block != d[i].block by {
            assert(d[j] == ms[j]);
        }
        law_every_migration_is_made(s, d, i);
        assert(ms[ms.len() - 1].block != ms[i].block);
    }
}

proof fn lemma_grants_keep_regions(
    s: State,
    gs: Seq<crate::state::Grant>,
    old: Option<Seq<char>>,
    new: Seq<char>,
)
    ensures
        s.grants_applied(gs, old, new).region_worker == s.region_worker,
        s.grants_applied(gs, old, new).region_expires == s.region_expires,
    decreases gs.len(),
{
    if gs.len() > 0 {
        let d = gs.drop_last();
        let g = gs.last();
        lemma_grants_keep_regions(s, d, old, new);
        let p = s.grants_applied(d, old, new);
        if p.entities.contains_key(g.eid) {
            let a = p.with_entity(g.eid, crate::failover::regranted(p.entities[g.eid], g));
            let b = match old {
                Some(o) => a.all_revoked(o, g.eid, g.moved_comps),
                None => a,
            };
            if old is Some {
                crate::succession::lemma_revokes_lose(a, old->0, g.eid, g.moved_comps);
            }
            crate::succession::lemma_received_given(b, new, g.eid, g.moved_comps);
        }
    }
}

/// A flag that is set is on record, and everybody is told; a load that a worker reports is on
/// record under its name.
pub proof fn law_flags_and_loads_are_kept(s: State, wid: Seq<char>, f: Doc, flag: Seq<char>, v: Doc)
    requires
        s.workers.dom().finite(),
        f.get_str("flag"@) == Some(flag),
        f.get("value"@) == Some(v),
    ensures
        ({
            let t = s.flagged(f);
            let msg = Doc::Obj(
                map![
                    "op"@ => Doc::Str("FlagUpdate"@),
                    "flag"@ => Doc::Str(flag),
                    "value"@ => v],
            );
            &&& t.flags == s.flags.insert(flag, v)
            &&& t.entities == s.entities
            &&& forall|w: Seq<char>| #[trigger] was_sent(s, t, w, msg) == s.workers.contains_key(w)
            &&& s.load_noted(wid, f).worker_load.contains_key(wid)
            &&& forall|d: Doc|
                f.get("load"@) == Some(d) && #[trigger] d.as_float() is Some ==> s.load_noted(
                    wid,
                    f,
                ).worker_load == s.worker_load.insert(wid, d.as_float()->0)
        }),
{
    let a = State { flags: s.flags.insert(flag, v), ..s };
    let msg = crate::control::flag_msg(flag, v);
    let names = sorted(s.workers.dom());
    lemma_all_names(s.workers.dom());
    crate::signals::lemma_told_each(a, names, msg);
    let t = s.flagged(f);
    assert forall|w: Seq<char>| #[trigger] was_sent(s, t, w, msg) == s.workers.contains_key(w) by {
        assert(was_sent(s, t, w, msg) == was_sent(a, t, w, msg));
        assert(names.contains(w) == s.workers.contains_key(w));
    }
}

/// An arrival that may be taken is placed next; one whose own departure is still out has that
/// confirmed on the log first; and one that may not be taken leads to nothing.
pub proof fn law_arrivals_are_taken_up(
    s: State,
    jobs: Seq<Job>,
    wid: Seq<char>,
    f: Doc,
    sc: Setting,
    env: Around,
)
    requires
        op_of(f) == "MeshHandoff"@,
        !s.wal.degraded,
    ensures
        ({
            let t = s.dispatched(jobs, wid, f, sc, env);
            let go = Job::Adopt { wid, f, cell: sc.cell, near: sc.near };
            let u = t.0.stepped(t.1, Reply::Went(true), env);
            let v = t.0.stepped(t.1, Reply::Went(false), env);
            &&& t.0 == s.gated(wid, f)
            &&& s.gate(f) == Gate::Stop ==> t.1 == jobs
            &&& s.gate(f) == Gate::Go ==> t.1 == jobs.push(go)
            &&& s.gate(f) == Gate::AckFirst ==> {
                &&& t.2 == Want::Commit(ack_event(msg_entity(f)))
                &&& u.1 == jobs.push(go)
                &&& u.0.pending_mesh == t.0.pending_mesh.remove(msg_entity(f))
                &&& v.1 == jobs
                &&& v.0.pending_mesh == t.0.pending_mesh
            }
        }),
{
    crate::requests::lemma_names();
    reveal(State::hear_arrival);
    reveal(State::on_ack_first);
    let w = Job::AckFirst { wid, f, cell: sc.cell, near: sc.near };
    assert(jobs.push(w).drop_last() =~= jobs);
}

/// A request to drain has every entity sent off, and is answered once they are.
pub proof fn law_drains_send_everything_off(
    s: State,
    jobs: Seq<Job>,
    wid: Seq<char>,
    f: Doc,
    sc: Setting,
    env: Around,
)
    requires
        op_of(f) == "Drain"@,
    ensures
        ({
            let t = s.dispatched(jobs, wid, f, sc, env);
            let may = s.has_attr(wid, "kernel_admin"@) || s.has_attr(wid, "inspector"@) || s.has_attr(
                wid,
                "ops"@,
            );
            &&& may ==> t.0.draining && t.0.entities == s.entities && t.1 == jobs.push(
                Job::DrainEnd { wid, f, dispatched: s.drain_list().len() as u64 },
            ).push(Job::Depart { list: s.drain_list(), next: 0 })
            &&& !may ==> t.1 == jobs && t.0.draining == s.draining && t.0.entities == s.entities
        }),
{
    crate::requests::lemma_names();
    reveal(State::hear_drain);
    let t = s.drain_begun(wid, f);
    assert forall|k: Seq<char>| t.drain_target(k) == s.drain_target(k) by {}
    assert(t.drain_list() =~= s.drain_list());
}

/// One task hands on to the next: who sees an entity is asked before they are told; what
/// waited to cross is taken up as a whole; and a transfer that is queued has its parts
/// follow.
pub proof fn law_tasks_hand_on(
    s: State,
    jobs: Seq<Job>,
    eid: Seq<char>,
    comp: Seq<char>,
    value: Doc,
    h: crate::state::Hand,
    a: Reply,
    env: Around,
)
    ensures
        ({
            let t = s.stepped(jobs.push(Job::Show { eid, comp, value }), a, env);
            let u = s.stepped(jobs.push(Job::Spread { eid, comp, value }), a, env);
            let v = s.stepped(jobs.push(Job::Crossings), a, env);
            let w = s.stepped(jobs.push(Job::Handoff { h }), Reply::Went(true), env);
            let x = s.stepped(jobs.push(Job::Handoff { h }), Reply::Went(false), env);
            &&& t.0 == s && t.1 == jobs.push(Job::Spread { eid, comp, value }) && t.2
                == (Want::Sights { eid, comp, value })
            &&& u.0 == s.propagated(a.seen(), eid, comp, value) && u.1 == jobs
            &&& v.0 == (State { pending_remote_handoffs: Seq::empty(), ..s }) && v.1 == jobs.push(
                Job::Cross { list: s.pending_remote_handoffs, next: 0 },
            )
            &&& w.0.pending_handoffs == s.pending_handoffs.push(h) && w.0.entities == s.entities
                && w.1 == jobs.push(
                Job::Parts {
                    parts: s.parts_to_move(h.eid, h.to, sorted(s.entities.dom())),
                    to: h.to,
                },
            )
            &&& x.0 == s && x.1 == jobs
        }),
{
    reveal(State::on_show);
    reveal(State::on_spread);
    reveal(State::on_crossings);
    reveal(State::on_handoff);
    assert(jobs.push(Job::Show { eid, comp, value }).drop_last() =~= jobs);
    assert(jobs.push(Job::Spread { eid, comp, value }).drop_last() =~= jobs);
    assert(jobs.push(Job::Crossings).drop_last() =~= jobs);
    assert(jobs.push(Job::Handoff { h }).drop_last() =~= jobs);
}

/// The parts of an assembly follow until none is left that has to; a fold is shown to those
/// who see it once it is applied; and what is queued after a fold is synced.
pub proof fn law_assemblies_follow(
    s: State,
    jobs: Seq<Job>,
    parts: Seq<Seq<char>>,
    to: Seq<char>,
    wid: Seq<char>,
    h: crate::state::Hand,
    a: Reply,
    env: Around,
)
    ensures
        ({
            let t = s.stepped(jobs.push(Job::Parts { parts, to }), a, env);
            let (left, next) = s.next_part_of(parts, to);
            let u = s.stepped(jobs.push(Job::Fold { wid, h }), Reply::Went(true), env);
            let v = s.stepped(jobs.push(Job::FoldEnd { eid: h.eid }), a, env);
            &&& t.0 == s
            &&& next is None ==> t.1 == jobs
            &&& next is Some ==> t.1 == jobs.push(Job::Parts { parts: left, to }).push(
                Job::Handoff { h: next->0 },
            ) && t.2 == Want::Append(crate::handoff::handoff_event(next->0))
            &&& u.0.pending_handoffs == s.pending_handoffs.push(h)
            &&& u.1 == jobs.push(Job::FoldEnd { eid: h.eid }).push(Job::Crossings).push(
                Job::SyncHandoffs,
            ).push(
                Job::Parts {
                    parts: s.parts_to_move(h.eid, h.to, sorted(s.entities.dom())),
                    to: h.to,
                },
            )
            &&& v.0 == s
            &&& s.entities.contains_key(h.eid) ==> v.1 == jobs.push(
                Job::Show { eid: h.eid, comp: "pos"@, value: s.entities[h.eid].pos.doc() },
            )
        }),
{
    reveal(State::on_parts);
    reveal(State::on_fold);
    reveal(State::on_fold_end);
    assert(jobs.push(Job::Parts { parts, to }).drop_last() =~= jobs);
    assert(jobs.push(Job::Fold { wid, h }).drop_last() =~= jobs);
    assert(jobs.push(Job::FoldEnd { eid: h.eid }).drop_last() =~= jobs);
}

/// An abort for want of time is told: everybody who has the entity in view learns that the
/// transaction is off; and where the log does not take it, it stays on.
pub proof fn law_aborts_are_told(s: State, eid: Seq<char>)
    requires
        s.workers.dom().finite(),
        s.entities.contains_key(eid),
        s.entities[eid].components.contains_key("threshold.tx"@),
    ensures
        ({
            let t = s.timeout_finished(eid, true);
            let msg = removed_msg(eid, "threshold.tx"@);
            &&& t.entities[eid].components == s.entities[eid].components.remove("threshold.tx"@)
            &&& forall|w: Seq<char>| #[trigger]
                was_sent(s, t, w, msg) == (s.workers.contains_key(w) && s.workers[w].view.contains(
                    eid,
                ))
            &&& s.timeout_finished(eid, false).entities == s.entities
        }),
{
    let e = s.entities[eid];
    let a = s.with_entity(
        eid,
        Ent { components: e.components.remove("threshold.tx"@), version: succ(e.version), ..e },
    );
    let msg = removed_msg(eid, "threshold.tx"@);
    crate::attention::law_viewers_are_told(a, eid, msg);
    let t = s.timeout_finished(eid, true);
    assert forall|w: Seq<char>| #[trigger] was_sent(s, t, w, msg) == was_sent(a, t, w, msg) by {}
}

/// What the log's file says of an append, a sync and a rewrite: what failed degrades the log,
/// which stays so; what was appended makes it longer; a rewrite that took its place gives it
/// its new length, and one that did not leaves it as it was.
pub proof fn law_what_becomes_of_the_log(s: State, w: WalStatus, n: u64, bytes: u64)
    requires
        w.attached,
        !w.fail_inject,
        w.bytes + n <= u64::MAX,
    ensures
        w.appended(n as nat, true) == (WalStatus { bytes: (w.bytes + n) as u64, ..w }),
        w.appended(n as nat, false) == (WalStatus { degraded: true, ..w }),
        w.synced(true) == w,
        w.synced(false) == (WalStatus { degraded: true, ..w }),
        s.compaction_noted(Compaction::Unwritten).wal.degraded,
        s.compaction_noted(Compaction::Unplaced { reopened: true }) == s,
        s.compaction_noted(Compaction::Unplaced { reopened: false }).wal.degraded,
        s.compaction_noted(Compaction::Placed { bytes, reopened: true }).wal == (WalStatus {
            bytes,
            ..s.wal
        }),
        s.compaction_noted(Compaction::Placed { bytes, reopened: false }).wal.degraded,
        s.compaction_noted(Compaction::Placed { bytes, reopened: true }).entities == s.entities,
{
}

/// When the log is rewritten: while it is sound, is longer than it may be, was not marked by
/// a snapshot, and nothing waits that only the log has.
pub proof fn law_when_the_log_is_rewritten(s: State)
    ensures
        s.may_compact() <==> {
            &&& s.wal.attached && !s.wal.degraded && !s.wal.snapshot_seen
            &&& s.wal.compact_bytes > 0 && s.wal.bytes > s.wal.compact_bytes
            &&& s.pending_updates.len() == 0 && s.pending_handoffs.len() == 0
            &&& s.pending_failovers.len() == 0 && s.pending_block_migrations.len() == 0
        },
{
}

/// What is asked of an entity as a whole is held to its position's authority, where nothing
/// else is on record for it.
pub proof fn law_whole_entities_go_by_their_position(e: Ent, c: Seq<char>)
    requires
        e.authority.contains_key("pos"@),
        !e.authority.contains_key(c),
    ensures
        c == "delete"@ || c == "fold"@ || c == "threshold.tx"@ ==> e.epoch(c)
            == e.authority["pos"@].epoch && e.owner(c) == e.authority["pos"@].owner && e.mode(c)
            == e.authority["pos"@].mode,
        c != "delete"@ && c != "fold"@ && c != "threshold.tx"@ ==> e.epoch(c) == 1 && e.owner(c)
            is None,
{
}

/// A snapshot says what is on its way: every departure that nobody confirmed, with where it
/// goes to.
pub proof fn law_snapshots_name_what_is_on_its_way(s: State, eid: Seq<char>)
    requires
        s.pending_mesh.dom().finite(),
        s.pending_mesh.contains_key(eid),
    ensures
        s.in_flight() is Arr,
        s.in_flight()->Arr_0.len() == s.pending_mesh.dom().len(),
        s.in_flight()->Arr_0.contains(in_flight_row(eid, s.pending_mesh[eid])),
        in_flight_row(eid, s.pending_mesh[eid]).get_str("entity"@) == Some(eid),
        in_flight_row(eid, s.pending_mesh[eid]).get_str("target"@) == Some(
            s.pending_mesh[eid].target,
        ),
{
    let names = sorted(s.pending_mesh.dom());
    lemma_all_names(s.pending_mesh.dom());
    crate::order::lemma_sorted_of(s.pending_mesh.dom());
    assert(names.contains(eid));
    let i = choose|i: int| 0 <= i < names.len() && names[i] == eid;
    assert(s.in_flight()->Arr_0[i] == in_flight_row(eid, s.pending_mesh[eid]));
    reveal_strlit("entity");
    reveal_strlit("target");
    reveal_strlit("type");
    assert("entity"@.len() == 6 && "target"@.len() == 6 && "type"@.len() == 4);
    assert("entity"@[0] == 'e' && "target"@[0] == 't');
}

}

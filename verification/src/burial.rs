//! What was deleted stays deleted, whatever comes: no message and no task brings it back.

use vstd::prelude::*;
use vstd::string::*;
use crate::adopt::{lemma_hidden_world, msg_entity};
use crate::dispatch::{Around, Job, Reply, Setting, Turn, Want};
use crate::doc::Doc;
use crate::failover::regranted;
use crate::handoff::{is_queued, moved};
use crate::lifecycle::{deleted_already, request_refused};
use crate::order::sorted;
use crate::policy::op_of;
use crate::publish::Glance;
use crate::sight::{component_update, critical_section, entity_msg};
use crate::state::{Failover, Grant, Hand, Migration, Sent, State};
use crate::threshold::{tx_of, tx_refused};
use crate::world::{
    holds, is_kept, lemma_all_revoked, lemma_components_sent, lemma_granted, lemma_received,
    lemma_shown, quiet, same_world, Claim,
};

verus! {

broadcast use {crate::doc::group_json, crate::strmap::group_map, crate::world::group_claims};

/// Whether a claim is kept by a turn.
pub open spec fn kept_by(claim: Claim, t: Turn, eid: Seq<char>) -> bool {
    is_kept(claim, t.0, t.1, eid)
}

proof fn lemma_announced(s: State, names: Seq<Seq<char>>, eid: Seq<char>, near: Set<Seq<char>>)
    ensures
        same_world(s, s.announced(names, eid, near)),
    decreases names.len(),
{
    if names.len() > 0 {
        let t = s.announced(names.drop_last(), eid, near);
        lemma_announced(s, names.drop_last(), eid, near);
        lemma_shown(t, names.last(), eid);
        lemma_shown(t.shown(names.last(), eid), names.last(), eid);
    }
}

proof fn lemma_told_viewers(s: State, names: Seq<Seq<char>>, eid: Seq<char>, msg: Doc)
    ensures
        same_world(s, s.told_viewers(names, eid, msg)),
    decreases names.len(),
{
    if names.len() > 0 {
        lemma_told_viewers(s, names.drop_last(), eid, msg);
    }
}

proof fn lemma_told_each(s: State, names: Seq<Seq<char>>, msg: Doc)
    ensures
        same_world(s, s.told_each(names, msg)),
    decreases names.len(),
{
    if names.len() > 0 {
        lemma_told_each(s, names.drop_last(), msg);
    }
}

proof fn lemma_refocused(s: State, wid: Seq<char>, names: Seq<Seq<char>>, near: Set<Seq<char>>)
    ensures
        same_world(s, s.refocused(wid, names, near)),
    decreases names.len(),
{
    if names.len() > 0 {
        lemma_refocused(s, wid, names.drop_last(), near);
        lemma_shown(s.refocused(wid, names.drop_last(), near), wid, names.last());
    }
}

proof fn lemma_propagated(s: State, sights: Seq<Glance>, eid: Seq<char>, comp: Seq<char>, v: Doc)
    ensures
        same_world(s, s.propagated(sights, eid, comp, v)),
    decreases sights.len(),
{
    if sights.len() > 0 {
        lemma_propagated(s, sights.drop_last(), eid, comp, v);
        lemma_shown(s.propagated(sights.drop_last(), eid, comp, v), sights.last().wid, eid);
    }
}

proof fn lemma_spread(
    s: State,
    names: Seq<Seq<char>>,
    eid: Seq<char>,
    near: Set<Seq<char>>,
    first: bool,
)
    ensures
        same_world(s, s.mirror_spread(names, eid, near, first)),
    decreases names.len(),
{
    if names.len() > 0 {
        lemma_spread(s, names.drop_last(), eid, near, first);
        let t = s.mirror_spread(names.drop_last(), eid, near, first);
        let wid = names.last();
        let g = t.ghosts[eid];
        let u = t.emitted(wid, critical_section(eid, "begin"@)).emitted(
            wid,
            entity_msg("AddEntity"@, eid),
        ).emitted(wid, component_update(eid, "ghost"@, Doc::Bool(true))).emitted(
            wid,
            component_update(eid, "owner_region"@, Doc::Str(g.owner_region)),
        ).emitted(wid, component_update(eid, "pos"@, g.pos.doc())).emitted(
            wid,
            component_update(eid, "vel"@, g.vel.doc()),
        );
        lemma_components_sent(u, wid, eid, g.components, sorted(g.components.dom()));
    }
}

proof fn lemma_handoff(claim: Claim, s: State, h: Hand, eid: Seq<char>)
    requires
        holds(claim, s, eid),
    ensures
        holds(claim, s.handoff_applied(h), eid),
{
    if s.entities.contains_key(h.eid) {
        let a = State {
            metrics: crate::state::Metrics {
                handoffs: crate::entity::succ(s.metrics.handoffs),
                ..s.metrics
            },
            ..s.with_entity(h.eid, moved(s.entities[h.eid], h))
        };
        assert(holds(claim, a, eid));
        let b = if h.old_wid is Some && a.workers.contains_key(h.old_wid->0) {
            a.all_revoked(h.old_wid->0, h.eid, h.moved_comps)
        } else {
            a
        };
        if h.old_wid is Some {
            lemma_all_revoked(a, h.old_wid->0, h.eid, h.moved_comps);
        }
        assert(holds(claim, b, eid));
        if h.new_wid is Some {
            lemma_received(b, h.new_wid->0, h.eid, h.moved_comps);
        }
    }
}

proof fn lemma_handoffs(claim: Claim, s: State, hs: Seq<Hand>, eid: Seq<char>)
    requires
        holds(claim, s, eid),
    ensures
        holds(claim, s.handoffs_applied(hs), eid),
        holds(claim, s.handoffs_unsynced(hs), eid),
    decreases hs.len(),
{
    if hs.len() > 0 {
        lemma_handoffs(claim, s, hs.drop_last(), eid);
        lemma_handoff(claim, s.handoffs_applied(hs.drop_last()), hs.last(), eid);
    }
}

proof fn lemma_grants(
    claim: Claim,
    s: State,
    gs: Seq<Grant>,
    old: Option<Seq<char>>,
    new: Seq<char>,
    eid: Seq<char>,
)
    requires
        holds(claim, s, eid),
    ensures
        holds(claim, s.grants_applied(gs, old, new), eid),
    decreases gs.len(),
{
    if gs.len() > 0 {
        lemma_grants(claim, s, gs.drop_last(), old, new, eid);
        let t = s.grants_applied(gs.drop_last(), old, new);
        let g = gs.last();
        if t.entities.contains_key(g.eid) {
            let a = t.with_entity(g.eid, regranted(t.entities[g.eid], g));
            assert(holds(claim, a, eid));
            let b = match old {
                Some(o) => a.all_revoked(o, g.eid, g.moved_comps),
                None => a,
            };
            if old is Some {
                lemma_all_revoked(a, old->0, g.eid, g.moved_comps);
            }
            assert(holds(claim, b, eid));
            lemma_received(b, new, g.eid, g.moved_comps);
        }
    }
}

proof fn lemma_failovers(claim: Claim, s: State, fs: Seq<Failover>, eid: Seq<char>)
    requires
        holds(claim, s, eid),
    ensures
        holds(claim, s.failovers_applied(fs), eid),
        holds(claim, s.failovers_unsynced(fs), eid),
    decreases fs.len(),
{
    if fs.len() > 0 {
        lemma_failovers(claim, s, fs.drop_last(), eid);
        let t = s.failovers_applied(fs.drop_last());
        let f = fs.last();
        let a = (State {
            region_worker: t.region_worker.insert(f.region, f.new_wid),
            region_expires: t.region_expires.insert(f.region, f.until_ms),
            metrics: crate::state::Metrics {
                failovers: crate::entity::succ(t.metrics.failovers),
                ..t.metrics
            },
            ..t
        }).peer_moved(f.new_wid, f.region);
        assert(holds(claim, a, eid));
        lemma_grants(claim, a, f.grants, None, f.new_wid, eid);
    }
}

proof fn lemma_migrations(claim: Claim, s: State, ms: Seq<Migration>, eid: Seq<char>)
    requires
        holds(claim, s, eid),
    ensures
        holds(claim, s.migrations_applied(ms), eid),
        holds(claim, s.migrations_unsynced(ms), eid),
    decreases ms.len(),
{
    if ms.len() > 0 {
        lemma_migrations(claim, s, ms.drop_last(), eid);
        let t = s.migrations_applied(ms.drop_last());
        let m = ms.last();
        let a = (State {
            region_worker: t.region_worker.insert(m.block, m.new_wid),
            ..t
        }).peer_moved(m.new_wid, m.block);
        assert(holds(claim, a, eid));
        lemma_grants(claim, a, m.grants, Some(m.old_wid), m.new_wid, eid);
    }
}

proof fn lemma_escalated(
    claim: Claim,
    s: State,
    k: Seq<char>,
    comp: Seq<char>,
    owner: Option<Seq<char>>,
    reason: Seq<char>,
    eid: Seq<char>,
)
    requires
        holds(claim, s, eid),
    ensures
        holds(claim, s.escalated(k, comp, owner, reason), eid),
{
    if s.entities.contains_key(k) {
        let old = s.entities[k].recorded(comp).owner;
        let e = crate::update::arbitrated(s.entities[k], comp, owner);
        let a = s.with_entity(k, e).logged(
            crate::update::escalation_event(k, comp, owner, reason, e),
        );
        let b = if old is Some && owner != old {
            a.epoch_dropped(old->0, crate::grants::component_key(k, comp)).emitted(
                old->0,
                crate::update::escalation_notice(k, comp, e.authority[comp].epoch, reason),
            )
        } else {
            a
        };
        assert(holds(claim, b, eid));
        if owner is Some {
            lemma_granted(b, owner->0, k, comp);
        }
    }
}

proof fn lemma_hidden(s: State, names: Seq<Seq<char>>, k: Seq<char>)
    ensures
        same_world(s, s.hidden_from(names, k)),
{
    lemma_hidden_world(s, names, k);
}

proof fn lemma_writes(claim: Claim, s: State, jobs: Seq<Job>, a: Reply, env: Around, eid: Seq<char>)
    requires
        jobs.len() > 0,
        is_kept(claim, s, jobs, eid),
        jobs.last() is Items || jobs.last() is Write || jobs.last() is Flush
            || jobs.last() is WritesSynced || jobs.last() is Publish || jobs.last() is Show
            || jobs.last() is Spread || jobs.last() is FoldEnd,
    ensures
        kept_by(claim, s.stepped(jobs, a, env), eid),
{
    reveal(State::on_items);
    reveal(State::on_write);
    reveal(State::on_flush);
    reveal(State::on_writes_synced);
    reveal(State::on_publish);
    reveal(State::on_show);
    reveal(State::on_spread);
    reveal(State::on_fold_end);
    let rest = jobs.drop_last();
    assert(jobs =~= rest.push(jobs.last()));
    match jobs.last() {
        Job::Items { wid, comp, items, verdicts, next } => {
            if next < items.len() {
                let i = items[next as int];
                let v = crate::dispatch::verdict_at(verdicts, next as int);
                match s.contact(i.eid, comp, v) {
                    Some(g) => {
                        let owner = s.arbiter(i.eid, g.other, comp);
                        let reason = crate::update::contact_reason(g.words, g.threshold_words);
                        lemma_escalated(claim, s, i.eid, comp, owner, reason, eid);
                        lemma_escalated(
                            claim, s.escalated(i.eid, comp, owner, reason),
                            g.other,
                            comp,
                            owner,
                            reason,
                            eid,
                        );
                    },
                    None => {},
                }
            }
        },
        Job::WritesSynced => {
            crate::update::lemma_refusals_only_tell(
                State { pending_updates: Seq::empty(), ..s },
                s.pending_updates,
            );
        },
        Job::Spread { eid: k, comp, value } => {
            lemma_propagated(s, a.seen(), k, comp, value);
        },
        _ => {},
    }
}

proof fn lemma_requests(claim: Claim, s: State, jobs: Seq<Job>, a: Reply, env: Around, eid: Seq<char>)
    requires
        jobs.len() > 0,
        is_kept(claim, s, jobs, eid),
        jobs.last() is Create || jobs.last() is Delete || jobs.last() is Authority
            || jobs.last() is AddComponent || jobs.last() is RemoveComponent
            || jobs.last() is Threshold || jobs.last() is Reserve || jobs.last() is TimedOut
            || jobs.last() is Timeouts,
    ensures
        kept_by(claim, s.stepped(jobs, a, env), eid),
{
    reveal(State::on_create);
    reveal(State::on_delete);
    reveal(State::on_authority);
    reveal(State::on_add_component);
    reveal(State::on_remove_component);
    reveal(State::on_threshold);
    reveal(State::on_reserve);
    reveal(State::on_timed_out);
    reveal(State::on_timeouts);
    let rest = jobs.drop_last();
    assert(jobs =~= rest.push(jobs.last()));
    match jobs.last() {
        Job::Create { wid, f, spawn, near } => {
            let b = (State {
                mesh_forwarded_epoch: s.mesh_forwarded_epoch.remove(spawn.0),
                ..s
            }).with_entity(spawn.0, spawn.2);
            assert(holds(claim, b, eid));
            lemma_announced(b, sorted(s.workers.dom()), spawn.0, near);
        },
        Job::Delete { f, .. } => {
            let k = crate::components::named_entity(f);
            let b = State {
                deleted_entities: s.deleted_entities.insert(k),
                pending_handoffs: crate::lifecycle::without(s.pending_handoffs, k),
                pending_handoff_intent: s.pending_handoff_intent.remove(k),
                entities: s.entities.remove(k),
                ..s
            };
            if claim is Deleted {
                lemma_without_keeps(s.pending_handoffs, k, eid);
            }
            assert(holds(claim, b, eid));
            lemma_hidden(b, sorted(b.workers.dom()), k);
        },
        Job::Authority { f, change, .. } => {
            let c = change;
            if s.entities.contains_key(c.eid) {
                let b = s.with_entity(
                    c.eid,
                    crate::components::reassigned(s.entities[c.eid], c),
                );
                assert(holds(claim, b, eid));
                lemma_granted(b, c.old_owner->0, c.eid, c.comp);
                let d = if c.old_owner is Some && c.old_owner != c.owner && b.workers.contains_key(
                    c.old_owner->0,
                ) {
                    b.revoked(c.old_owner->0, c.eid, c.comp)
                } else {
                    b
                };
                assert(holds(claim, d, eid));
                lemma_granted(d, c.owner->0, c.eid, c.comp);
            }
        },
        Job::AddComponent { f, .. } => {
            lemma_added(claim, s, f, eid);
        },
        Job::RemoveComponent { f, .. } => {
            lemma_removed(claim, s, f, eid);
        },
        Job::Threshold { wid, f, plan } => {
            lemma_threshold(claim, s, wid, f, plan, a.went(), eid);
        },
        Job::TimedOut { eid: k } => {
            if s.entities.contains_key(k) {
                let e = s.entities[k];
                let b = s.with_entity(
                    k,
                    crate::entity::Ent {
                        components: e.components.remove("threshold.tx"@),
                        version: crate::entity::succ(e.version),
                        ..e
                    },
                );
                assert(holds(claim, b, eid));
                lemma_told_viewers(
                    b,
                    sorted(b.workers.dom()),
                    k,
                    crate::components::removed_msg(k, "threshold.tx"@),
                );
            }
        },
        _ => {},
    }
}

proof fn lemma_added(claim: Claim, s: State, f: Doc, eid: Seq<char>)
    requires
        holds(claim, s, eid),
    ensures
        forall|wid: Seq<char>, w: bool| holds(claim, #[trigger] s.component_added(wid, f, w), eid),
{
    let k = crate::components::named_entity(f);
    let comp = crate::components::named_comp(f);
    if s.entities.contains_key(k) {
        let e = s.entities[k];
        let v = crate::json::or_null(f.get("value"@));
        let b = s.with_entity(
            k,
            crate::entity::Ent {
                version: crate::entity::succ(e.version),
                ..(crate::entity::Ent { components: e.components.insert(comp, v), ..e }).ensured(
                    comp,
                )
            },
        );
        assert(holds(claim, b, eid));
        let msg = Doc::Obj(
            map![
                "op"@ => Doc::Str("AddComponent"@),
                "entity"@ => Doc::Str(k),
                "comp"@ => Doc::Str(comp),
                "value"@ => v],
        );
        lemma_told_viewers(b, sorted(b.workers.dom()), k, msg);
    }
}

proof fn lemma_removed(claim: Claim, s: State, f: Doc, eid: Seq<char>)
    requires
        holds(claim, s, eid),
    ensures
        forall|wid: Seq<char>, w: bool| holds(claim, #[trigger] s.component_removed(wid, f, w), eid),
{
    let k = crate::components::named_entity(f);
    let comp = crate::components::named_comp(f);
    if s.entities.contains_key(k) {
        let e = s.entities[k];
        let b = s.with_entity(
            k,
            crate::entity::Ent {
                components: e.components.remove(comp),
                version: crate::entity::succ(e.version),
                ..e
            },
        );
        assert(holds(claim, b, eid));
        lemma_told_viewers(
            b,
            sorted(b.workers.dom()),
            k,
            crate::components::removed_msg(k, comp),
        );
    }
}

proof fn lemma_threshold(
    claim: Claim,
    s: State,
    wid: Seq<char>,
    f: Doc,
    p: crate::threshold::Step,
    written: bool,
    eid: Seq<char>,
)
    requires
        holds(claim, s, eid),
    ensures
        holds(claim, s.step_finished(wid, f, p, written), eid),
{
    let k = p.tx.eid;
    if written && s.entities.contains_key(k) {
        let b = s.with_entity(k, crate::threshold::stepped(s.entities[k], p));
        assert(holds(claim, b, eid));
        let old = crate::handoff::at(b.region_worker, p.old_region);
        let new = crate::handoff::at(b.region_worker, p.new_region);
        let c = if old is Some && b.workers.contains_key(old->0) {
            b.all_revoked(old->0, k, p.moved_comps)
        } else {
            b
        };
        if old is Some {
            lemma_all_revoked(b, old->0, k, p.moved_comps);
        }
        assert(holds(claim, c, eid));
        if new is Some {
            lemma_received(c, new->0, k, p.moved_comps);
        }
        let d = if p.tx.is_commit() && p.old_region != p.new_region {
            b.changed_hands(k, p.old_region, p.new_region, p.moved_comps)
        } else {
            b
        };
        assert(holds(claim, d, eid));
        lemma_told_viewers(d, sorted(d.workers.dom()), k, crate::threshold::step_notice(p));
    }
}

proof fn lemma_without_keeps(hs: Seq<Hand>, k: Seq<char>, eid: Seq<char>)
    requires
        !is_queued(hs, eid),
    ensures
        !is_queued(crate::lifecycle::without(hs, k), eid),
    decreases hs.len(),
{
    if hs.len() > 0 {
        let d = hs.drop_last();
        assert forall|i: int| 0 <= i < d.len() implies (#[trigger] d[i]).eid != eid by {
            assert(d[i] == hs[i]);
        }
        assert(hs[hs.len() - 1].eid != eid);
        lemma_without_keeps(d, k, eid);
        let w = crate::lifecycle::without(d, k);
        let all = crate::lifecycle::without(hs, k);
        assert forall|i: int| 0 <= i < all.len() implies (#[trigger] all[i]).eid != eid by {
            if i < w.len() {
                assert(all[i] == w[i]);
            }
        }
    }
}

proof fn lemma_arrivals(claim: Claim, s: State, jobs: Seq<Job>, a: Reply, env: Around, eid: Seq<char>)
    requires
        jobs.len() > 0,
        is_kept(claim, s, jobs, eid),
        jobs.last() is Acked || jobs.last() is AckFirst || jobs.last() is Adopt
            || jobs.last() is Adopted || jobs.last() is Leaving || jobs.last() is Left
            || jobs.last() is Depart || jobs.last() is Crossings || jobs.last() is Cross
            || jobs.last() is CrossAt,
    ensures
        kept_by(claim, s.stepped(jobs, a, env), eid),
{
    reveal(State::on_acked);
    reveal(State::on_ack_first);
    reveal(State::on_adopt);
    reveal(State::on_adopted);
    reveal(State::on_leaving);
    reveal(State::on_left);
    reveal(State::on_depart);
    reveal(State::on_crossings);
    reveal(State::on_cross);
    reveal(State::on_cross_at);
    let rest = jobs.drop_last();
    assert(jobs =~= rest.push(jobs.last()));
    match jobs.last() {
        Job::Adopted { spawn, near, .. } => {
            let b = (State {
                mesh_forwarded_epoch: s.mesh_forwarded_epoch.remove(spawn.0),
                ..s
            }).with_entity(spawn.0, spawn.2);
            assert(holds(claim, b, eid));
            lemma_announced(b, sorted(s.workers.dom()), spawn.0, near);
        },
        Job::Left { d } => {
            lemma_departed(claim, s, d, env.gauges.now_ms, eid);
        },
        _ => {},
    }
}

proof fn lemma_departed(claim: Claim, s: State, d: crate::mesh::Leave, now_ms: u64, eid: Seq<char>)
    requires
        holds(claim, s, eid),
    ensures
        holds(claim, s.departed(d, now_ms), eid),
{
    let b = State {
        wal: crate::state::WalStatus {
            durable_gen: if s.wal.durable_gen < d.gen {
                d.gen
            } else {
                s.wal.durable_gen
            },
            ..s.wal
        },
        mesh_forwarded_epoch: s.mesh_forwarded_epoch.insert(
            d.eid,
            crate::recovery::later_epoch(s.mesh_forwarded_epoch, d.eid, d.authority_epoch),
        ),
        pending_mesh: s.pending_mesh.insert(
            d.eid,
            crate::state::Parked { frame: d.handoff, sent_ms: now_ms, target: d.target },
        ),
        entities: s.entities.remove(d.eid),
        outbox: s.outbox.push(Sent::Mesh { region: d.target, msg: d.handoff }),
        metrics: crate::state::Metrics {
            mesh_handoffs: crate::entity::succ(s.metrics.mesh_handoffs),
            ..s.metrics
        },
        ..s
    };
    assert(holds(claim, b, eid));
    lemma_hidden(b, sorted(b.workers.dom()), d.eid);
}

proof fn lemma_part(claim: Claim, s: State, parts: Seq<Seq<char>>, to: Seq<char>, eid: Seq<char>)
    requires
        holds(claim, s, eid),
    ensures
        match s.next_part_of(parts, to).1 {
            Some(h) => claim is Deleted ==> h.eid != eid,
            None => true,
        },
    decreases parts.len(),
{
    if parts.len() > 0 {
        lemma_part(claim, s, parts.drop_last(), to, eid);
    }
}

proof fn lemma_staged(claim: Claim, s: State, h: Hand, eid: Seq<char>)
    requires
        holds(claim, s, eid),
        claim is Deleted ==> h.eid != eid,
    ensures
        forall|w: bool| holds(claim, #[trigger] s.handoff_staged(h, w), eid),
{
    if claim is Deleted {
        let all = s.pending_handoffs.push(h);
        assert forall|i: int| 0 <= i < all.len() implies (#[trigger] all[i]).eid != eid by {
            if i < s.pending_handoffs.len() {
                assert(all[i] == s.pending_handoffs[i]);
            }
        }
    }
}

proof fn lemma_moves(claim: Claim, s: State, jobs: Seq<Job>, a: Reply, env: Around, eid: Seq<char>)
    requires
        jobs.len() > 0,
        is_kept(claim, s, jobs, eid),
        jobs.last() is Fold || jobs.last() is Handoff || jobs.last() is Parts || jobs.last() is Zone
            || jobs.last() is SyncHandoffs || jobs.last() is HandoffsSynced
            || jobs.last() is Reroute || jobs.last() is RerouteAt,
    ensures
        kept_by(claim, s.stepped(jobs, a, env), eid),
{
    reveal(State::on_fold);
    reveal(State::on_handoff);
    reveal(State::on_parts);
    reveal(State::on_zone);
    reveal(State::on_sync_handoffs);
    reveal(State::on_handoffs_synced);
    reveal(State::on_reroute);
    reveal(State::on_reroute_at);
    let rest = jobs.drop_last();
    assert(jobs =~= rest.push(jobs.last()));
    match jobs.last() {
        Job::Fold { h, .. } => {
            lemma_staged(claim, s, h, eid);
        },
        Job::Handoff { h } => {
            lemma_staged(claim, s, h, eid);
        },
        Job::Parts { parts, to } => {
            lemma_part(claim, s, parts, to, eid);
        },
        Job::HandoffsSynced => {
            let b = State {
                pending_handoffs: Seq::empty(),
                wal: crate::state::WalStatus {
                    durable_gen: crate::handoff::max_hand_gen(
                        s.pending_handoffs,
                        s.wal.durable_gen,
                    ),
                    ..s.wal
                },
                ..s
            };
            assert(holds(claim, b, eid));
            lemma_handoffs(claim, b, s.pending_handoffs, eid);
            lemma_handoffs(claim, s, s.pending_handoffs, eid);
        },
        _ => {},
    }
}

proof fn lemma_watch(claim: Claim, s: State, jobs: Seq<Job>, a: Reply, env: Around, eid: Seq<char>)
    requires
        jobs.len() > 0,
        is_kept(claim, s, jobs, eid),
        jobs.last() is SyncFailovers || jobs.last() is FailoversSynced
            || jobs.last() is SyncMigrations || jobs.last() is MigrationsSynced
            || jobs.last() is Snapshot || jobs.last() is SnapshotLogged || jobs.last() is DrainEnd
            || jobs.last() is Leases || jobs.last() is Failover || jobs.last() is Rebalance2d
            || jobs.last() is Migration,
    ensures
        kept_by(claim, s.stepped(jobs, a, env), eid),
{
    reveal(State::on_sync_failovers);
    reveal(State::on_failovers_synced);
    reveal(State::on_sync_migrations);
    reveal(State::on_migrations_synced);
    reveal(State::on_snapshot);
    reveal(State::on_snapshot_logged);
    reveal(State::on_drain_end);
    reveal(State::on_leases);
    reveal(State::on_failover);
    reveal(State::on_rebalance_2d);
    reveal(State::on_migration);
    let rest = jobs.drop_last();
    assert(jobs =~= rest.push(jobs.last()));
    match jobs.last() {
        Job::FailoversSynced => {
            let b = State { pending_failovers: Seq::empty(), ..s };
            let c = State {
                wal: crate::state::WalStatus {
                    durable_gen: crate::failover::max_failover_gen(
                        s.pending_failovers,
                        s.wal.durable_gen,
                    ),
                    ..s.wal
                },
                ..b
            };
            assert(holds(claim, b, eid) && holds(claim, c, eid));
            lemma_failovers(claim, b, s.pending_failovers, eid);
            lemma_failovers(claim, c, s.pending_failovers, eid);
        },
        Job::MigrationsSynced => {
            let b = State { pending_block_migrations: Seq::empty(), ..s };
            let c = State {
                wal: crate::state::WalStatus {
                    durable_gen: crate::failover::max_migration_gen(
                        s.pending_block_migrations,
                        s.wal.durable_gen,
                    ),
                    ..s.wal
                },
                ..b
            };
            assert(holds(claim, b, eid) && holds(claim, c, eid));
            lemma_migrations(claim, b, s.pending_block_migrations, eid);
            lemma_migrations(claim, c, s.pending_block_migrations, eid);
        },
        Job::Leases { regions, next } => {
            lemma_leases(claim, s, regions, next as int, env.gauges.now_ms, eid);
        },
        _ => {},
    }
}

proof fn lemma_leases(claim: Claim, s: State, regions: Seq<Seq<char>>, i: int, now_ms: u64, eid: Seq<char>)
    requires
        holds(claim, s, eid),
    ensures
        holds(claim, s.leases_checked(regions, i, now_ms).0, eid),
    decreases regions.len() - i,
{
    if 0 <= i < regions.len() {
        let t = s.lease_checked(regions[i], now_ms).0;
        assert(holds(claim, t, eid));
        lemma_leases(claim, t, regions, i + 1, now_ms, eid);
    }
}

proof fn lemma_task(claim: Claim, s: State, jobs: Seq<Job>, a: Reply, env: Around, eid: Seq<char>)
    requires
        is_kept(claim, s, jobs, eid),
    ensures
        kept_by(claim, s.stepped(jobs, a, env), eid),
{
    if jobs.len() > 0 {
        let j = jobs.last();
        if j is Items || j is Write || j is Flush || j is WritesSynced || j is Publish
            || j is Show || j is Spread || j is FoldEnd {
            lemma_writes(claim, s, jobs, a, env, eid);
        } else if j is Create || j is Delete || j is Authority || j is AddComponent
            || j is RemoveComponent || j is Threshold || j is Reserve || j is TimedOut
            || j is Timeouts {
            lemma_requests(claim, s, jobs, a, env, eid);
        } else if j is Acked || j is AckFirst || j is Adopt || j is Adopted || j is Leaving
            || j is Left || j is Depart || j is Crossings || j is Cross || j is CrossAt {
            lemma_arrivals(claim, s, jobs, a, env, eid);
        } else if j is Fold || j is Handoff || j is Parts || j is Zone || j is SyncHandoffs
            || j is HandoffsSynced || j is Reroute || j is RerouteAt {
            lemma_moves(claim, s, jobs, a, env, eid);
        } else {
            lemma_watch(claim, s, jobs, a, env, eid);
        }
    }
}

proof fn lemma_at_once(claim: Claim, s: State, wid: Seq<char>, f: Doc, sc: Setting, env: Around, eid: Seq<char>)
    requires
        holds(claim, s, eid),
    ensures
        holds(claim, s.answered_at_once(wid, f, sc, env), eid),
{
    reveal(State::answered_at_once);
    let op = op_of(f);
    if op == "Interest"@ {
        if s.workers.contains_key(wid) {
            let w = s.workers[wid];
            let b = State {
                workers: s.workers.insert(wid, crate::control::attentive(w, f)),
                ..s
            };
            let c = if crate::control::asked_center(f) is None && w.region == "OBS"@
                && !w.sees_all() {
                b.emitted(wid, crate::control::global_denied())
            } else {
                b
            };
            assert(holds(claim, c, eid));
            lemma_refocused(c, wid, sorted(s.entities.dom()), sc.near);
        }
    } else if op == "EntityEvent"@ {
        let b = s.event_of(f, sc.near);
        lemma_told_each(s, b.targets, crate::control::event_msg(b));
    } else if op == "FlagUpdate"@ {
        let flag = crate::json::text_or(f.get_str("flag"@), ""@);
        let value = crate::json::or_null(f.get("value"@));
        let b = State { flags: s.flags.insert(flag, value), ..s };
        assert(holds(claim, b, eid));
        lemma_told_each(b, sorted(s.workers.dom()), crate::control::flag_msg(flag, value));
    } else if op == "MeshGhost"@ {
        let k = msg_entity(f);
        let b = State {
            ghosts: s.ghosts.insert(k, crate::ghosts::mirror_of(f, env.gauges.now_ms)),
            ..s
        };
        assert(holds(claim, b, eid));
        lemma_spread(b, sorted(s.workers.dom()), k, sc.near, !s.ghosts.contains_key(k));
    } else if op == "MeshGhostRemove"@ {
        match f.get_str("entity"@) {
            Some(k) => {
                let b = State { ghosts: s.ghosts.remove(k), ..s };
                assert(holds(claim, b, eid));
                lemma_hidden(b, sorted(b.workers.dom()), k);
            },
            None => {},
        }
    }
}

proof fn lemma_gated(claim: Claim, s: State, wid: Seq<char>, f: Doc, eid: Seq<char>)
    requires
        holds(claim, s, eid),
    ensures
        holds(claim, s.gated(wid, f), eid),
        s.gated(wid, f).pending_mesh == s.pending_mesh,
{
    let k = msg_entity(f);
    let b = State { ghosts: s.ghosts.remove(k), ..s };
    assert(holds(claim, b, eid));
    lemma_hidden(b, sorted(b.workers.dom()), k);
}

proof fn lemma_hear_writes(
    claim: Claim,
    s: State,
    jobs: Seq<Job>,
    wid: Seq<char>,
    f: Doc,
    sc: Setting,
    env: Around,
    eid: Seq<char>,
)
    requires
        holds(claim, s, eid),
        quiet(claim, jobs, eid),
    ensures
        kept_by(claim, s.hear_update(jobs, wid, f, sc), eid),
        kept_by(claim, s.hear_batch(jobs, wid, f, sc), eid),
{
    reveal(State::hear_update);
    reveal(State::hear_batch);
}

proof fn lemma_hear_fold(
    claim: Claim,
    s: State,
    jobs: Seq<Job>,
    wid: Seq<char>,
    f: Doc,
    sc: Setting,
    env: Around,
    eid: Seq<char>,
)
    requires
        holds(claim, s, eid),
        quiet(claim, jobs, eid),
    ensures
        kept_by(claim, s.hear_fold(jobs, wid, f), eid),
{
    reveal(State::hear_fold);
}

proof fn lemma_hear_life(
    claim: Claim,
    s: State,
    jobs: Seq<Job>,
    wid: Seq<char>,
    f: Doc,
    sc: Setting,
    env: Around,
    eid: Seq<char>,
)
    requires
        holds(claim, s, eid),
        quiet(claim, jobs, eid),
    ensures
        kept_by(claim, s.hear_create(jobs, wid, f, sc), eid),
        kept_by(claim, s.hear_delete(jobs, wid, f), eid),
{
    reveal(State::hear_create);
    reveal(State::hear_delete);
}

proof fn lemma_hear_components(
    claim: Claim,
    s: State,
    jobs: Seq<Job>,
    wid: Seq<char>,
    f: Doc,
    sc: Setting,
    env: Around,
    eid: Seq<char>,
)
    requires
        holds(claim, s, eid),
        quiet(claim, jobs, eid),
    ensures
        kept_by(claim, s.hear_authority(jobs, wid, f), eid),
        kept_by(claim, s.hear_add(jobs, wid, f), eid),
        kept_by(claim, s.hear_remove(jobs, wid, f), eid),
{
    reveal(State::hear_authority);
    reveal(State::hear_add);
    reveal(State::hear_remove);
}

proof fn lemma_hear_threshold(
    claim: Claim,
    s: State,
    jobs: Seq<Job>,
    wid: Seq<char>,
    f: Doc,
    sc: Setting,
    env: Around,
    eid: Seq<char>,
)
    requires
        holds(claim, s, eid),
        quiet(claim, jobs, eid),
    ensures
        kept_by(claim, s.hear_threshold(jobs, wid, f, env), eid),
{
    reveal(State::hear_threshold);
}

proof fn lemma_hear_rest(
    claim: Claim,
    s: State,
    jobs: Seq<Job>,
    wid: Seq<char>,
    f: Doc,
    sc: Setting,
    env: Around,
    eid: Seq<char>,
)
    requires
        holds(claim, s, eid),
        quiet(claim, jobs, eid),
    ensures
        kept_by(claim, s.hear_reserve(jobs, wid, f), eid),
        kept_by(claim, s.hear_snapshot(jobs, wid, f), eid),
        kept_by(claim, s.hear_drain(jobs, wid, f), eid),
{
    reveal(State::hear_reserve);
    reveal(State::hear_snapshot);
    reveal(State::hear_drain);
}

proof fn lemma_hear_arrival(
    claim: Claim,
    s: State,
    jobs: Seq<Job>,
    wid: Seq<char>,
    f: Doc,
    sc: Setting,
    env: Around,
    eid: Seq<char>,
)
    requires
        holds(claim, s, eid),
        quiet(claim, jobs, eid),
    ensures
        kept_by(claim, s.hear_arrival(jobs, wid, f, sc), eid),
{
    reveal(State::hear_arrival);
    lemma_gated(claim, s, wid, f, eid);
}

proof fn lemma_message(
    claim: Claim,
    s: State,
    jobs: Seq<Job>,
    wid: Seq<char>,
    f: Doc,
    sc: Setting,
    env: Around,
    eid: Seq<char>,
)
    requires
        holds(claim, s, eid),
        quiet(claim, jobs, eid),
    ensures
        kept_by(claim, s.dispatched(jobs, wid, f, sc, env), eid),
{
    lemma_at_once(claim, s, wid, f, sc, env, eid);
    lemma_hear_writes(claim, s, jobs, wid, f, sc, env, eid);
    lemma_hear_fold(claim, s, jobs, wid, f, sc, env, eid);
    lemma_hear_life(claim, s, jobs, wid, f, sc, env, eid);
    lemma_hear_components(claim, s, jobs, wid, f, sc, env, eid);
    lemma_hear_threshold(claim, s, jobs, wid, f, sc, env, eid);
    lemma_hear_rest(claim, s, jobs, wid, f, sc, env, eid);
    lemma_hear_arrival(claim, s, jobs, wid, f, sc, env, eid);
}

/// No message of any kind brings a deleted entity back, and no task does, whatever the log
/// and the geometry answer: it stays deleted, no transfer of it is queued, and no task is
/// left that would bring it.
pub proof fn law_nothing_unburies(
    s: State,
    jobs: Seq<Job>,
    wid: Seq<char>,
    f: Doc,
    sc: Setting,
    a: Reply,
    env: Around,
    eid: Seq<char>,
)
    requires
        holds(Claim::Deleted, s, eid),
        quiet(Claim::Deleted, jobs, eid),
    ensures
        ({
            let t = s.dispatched(jobs, wid, f, sc, env);
            let u = s.stepped(jobs, a, env);
            &&& holds(Claim::Deleted, t.0, eid) && quiet(Claim::Deleted, t.1, eid)
            &&& holds(Claim::Deleted, u.0, eid) && quiet(Claim::Deleted, u.1, eid)
        }),
{
    lemma_message(Claim::Deleted, s, jobs, wid, f, sc, env, eid);
    lemma_task(Claim::Deleted, s, jobs, a, env, eid);
    lemma_all_quiet(s.dispatched(jobs, wid, f, sc, env), eid);
    lemma_all_quiet(s.stepped(jobs, a, env), eid);
}

proof fn lemma_all_quiet(t: Turn, eid: Seq<char>)
    requires
        kept_by(Claim::Deleted, t, eid),
    ensures
        quiet(Claim::Deleted, t.1, eid),
{
    if t.1.len() > 0 {
        assert(t.1 =~= t.1.drop_last().push(t.1.last()));
    }
}

/// An entity is in one place: no message and no task, whatever the log and the geometry
/// answer, leaves one both here and on its way to a neighbour. Of the tasks at most the one
/// that is taken up next brings an entity, and only one that is on its way to nobody.
pub proof fn law_one_place(
    s: State,
    jobs: Seq<Job>,
    wid: Seq<char>,
    f: Doc,
    sc: Setting,
    a: Reply,
    env: Around,
    eid: Seq<char>,
)
    requires
        is_kept(Claim::OnePlace, s, jobs, eid),
    ensures
        ({
            let u = s.stepped(jobs, a, env);
            is_kept(Claim::OnePlace, u.0, u.1, eid)
        }),
        quiet(Claim::OnePlace, jobs, eid) ==> ({
            let t = s.dispatched(jobs, wid, f, sc, env);
            is_kept(Claim::OnePlace, t.0, t.1, eid)
        }),
{
    lemma_task(Claim::OnePlace, s, jobs, a, env, eid);
    if quiet(Claim::OnePlace, jobs, eid) {
        lemma_message(Claim::OnePlace, s, jobs, wid, f, sc, env, eid);
    }
}

/// What is asked of a deleted entity is answered: it is not created again, no threshold
/// transaction steps on it, an arrival of it is confirmed so that its sender lets go, and a
/// second deletion succeeds as the first did.
pub proof fn law_burial_is_answered(
    s: State,
    jobs: Seq<Job>,
    wid: Seq<char>,
    f: Doc,
    sc: Setting,
    env: Around,
    eid: Seq<char>,
)
    requires
        holds(Claim::Deleted, s, eid),
        s.workers.contains_key(wid),
        !s.wal.degraded,
        !s.draining,
        f.get_str("entity"@) == Some(eid),
        f.get("request_id"@) is Some,
    ensures
        ({
            let t = s.dispatched(jobs, wid, f, sc, env);
            let req = f.get("request_id"@)->0;
            let told = |msg: Doc| (s.emitted(wid, msg), jobs, Want::Again);
            &&& op_of(f) == "CreateEntity"@ ==> t == told(
                request_refused(f, "CreateEntityResponse"@, eid, "create"@, "entity tombstoned"@),
            )
            &&& op_of(f) == "DeleteEntity"@ ==> t == told(deleted_already(req, eid))
            &&& op_of(f) == "ThresholdTx"@ && tx_of(f, env.gauges.now_ms).is_valid() ==> t == told(
                tx_refused(req, tx_of(f, env.gauges.now_ms), true, "entity tombstoned"@),
            )
            &&& op_of(f) == "MeshHandoff"@ && eid.len() > 0 && !s.is_fenced(f) && !s.mesh_adopt_drop
                ==> t == told(entity_msg("MeshAck"@, eid))
        }),
{
    reveal(State::hear_create);
    reveal(State::hear_delete);
    reveal(State::hear_threshold);
    reveal(State::hear_arrival);
    reveal_strlit("CreateEntity");
    reveal_strlit("DeleteEntity");
    reveal_strlit("ThresholdTx");
    reveal_strlit("MeshHandoff");
    reveal_strlit("UpdateComponent");
    reveal_strlit("BatchUpdate");
    reveal_strlit("Fold");
    reveal_strlit("SetComponentAuthority");
    reveal_strlit("AddComponent");
    reveal_strlit("RemoveComponent");
    reveal_strlit("ReserveEntityIds");
    assert("CreateEntity"@.len() == 12 && "DeleteEntity"@.len() == 12 && "ThresholdTx"@.len() == 11
        && "MeshHandoff"@.len() == 11 && "UpdateComponent"@.len() == 15 && "BatchUpdate"@.len() == 11
        && "Fold"@.len() == 4 && "SetComponentAuthority"@.len() == 21 && "AddComponent"@.len() == 12
        && "RemoveComponent"@.len() == 15 && "ReserveEntityIds"@.len() == 16);
    assert("CreateEntity"@[0] == 'C' && "DeleteEntity"@[0] == 'D' && "AddComponent"@[0] == 'A');
    assert("ThresholdTx"@[0] == 'T' && "MeshHandoff"@[0] == 'M' && "BatchUpdate"@[0] == 'B');
}

}

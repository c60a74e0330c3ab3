//! What requests come to: from the message of a peer to what it changes, once the log has it.

use vstd::prelude::*;
use vstd::string::*;
use crate::attention::law_announced_to_those_who_see;
use crate::components::{add_event, change_event, named_comp, named_entity, remove_event};
use crate::dispatch::{batch_entries, Around, Entry, Job, Reply, Setting, Want};
use crate::doc::Doc;
use crate::entity::{succ, value_epoch};
use crate::handoff::{at, handoff_event};
use crate::lifecycle::{asked_entity, tombstone_event};
use crate::order::sorted;
use crate::policy::op_of;
use crate::spawn::register_event;
use crate::state::{Sent, State};
use crate::threshold::{step_event, tx_of};
use crate::update::{update_event, Ask, Judged};
use crate::world::bodies;

verus! {

broadcast use {crate::doc::group_json, crate::strmap::group_map};

pub proof fn lemma_names()
    ensures
        "UpdateComponent"@.len() == 15 && "UpdateComponent"@[0] == 'U',
        "BatchUpdate"@.len() == 11 && "BatchUpdate"@[0] == 'B',
        "Fold"@.len() == 4,
        "CreateEntity"@.len() == 12 && "CreateEntity"@[0] == 'C',
        "DeleteEntity"@.len() == 12 && "DeleteEntity"@[0] == 'D',
        "SetComponentAuthority"@.len() == 21,
        "AddComponent"@.len() == 12 && "AddComponent"@[0] == 'A',
        "RemoveComponent"@.len() == 15 && "RemoveComponent"@[0] == 'R',
        "ThresholdTx"@.len() == 11 && "ThresholdTx"@[0] == 'T',
        "ReserveEntityIds"@.len() == 16,
        "MeshHandoff"@.len() == 11 && "MeshHandoff"@[0] == 'M',
        "SnapshotMarker"@.len() == 14 && "SnapshotMarker"@[0] == 'S',
        "Drain"@.len() == 5,
        "Heartbeat"@.len() == 9 && "Heartbeat"@[0] == 'H',
        "Interest"@.len() == 8,
        "EntityEvent"@.len() == 11 && "EntityEvent"@[0] == 'E' && "EntityEvent"@[6] == 'E',
        "CommandRequest"@.len() == 14 && "CommandRequest"@[0] == 'C',
        "CommandResponse"@.len() == 15 && "CommandResponse"@[0] == 'C',
        "EntityQuery"@.len() == 11 && "EntityQuery"@[0] == 'E' && "EntityQuery"@[6] == 'Q',
        "InspectorQuery"@.len() == 14 && "InspectorQuery"@[0] == 'I',
        "Health"@.len() == 6,
        "FlagUpdate"@.len() == 10,
        "Metrics"@.len() == 7 && "Metrics"@[2] == 't',
        "MeshAck"@.len() == 7 && "MeshAck"@[2] == 's',
        "MeshGhost"@.len() == 9 && "MeshGhost"@[0] == 'M',
        "MeshGhostRemove"@.len() == 15 && "MeshGhostRemove"@[0] == 'M',
{
    reveal_strlit("UpdateComponent");
    reveal_strlit("BatchUpdate");
    reveal_strlit("Fold");
    reveal_strlit("CreateEntity");
    reveal_strlit("DeleteEntity");
    reveal_strlit("SetComponentAuthority");
    reveal_strlit("AddComponent");
    reveal_strlit("RemoveComponent");
    reveal_strlit("ThresholdTx");
    reveal_strlit("ReserveEntityIds");
    reveal_strlit("MeshHandoff");
    reveal_strlit("SnapshotMarker");
    reveal_strlit("Drain");
    reveal_strlit("Heartbeat");
    reveal_strlit("Interest");
    reveal_strlit("EntityEvent");
    reveal_strlit("CommandRequest");
    reveal_strlit("CommandResponse");
    reveal_strlit("EntityQuery");
    reveal_strlit("InspectorQuery");
    reveal_strlit("Health");
    reveal_strlit("FlagUpdate");
    reveal_strlit("Metrics");
    reveal_strlit("MeshAck");
    reveal_strlit("MeshGhost");
    reveal_strlit("MeshGhostRemove");
}

/// A new entity lives once it is on the log: it is put there as what was asked for, and then
/// is here as that, and its sender is told that it succeeded.
pub proof fn law_created_entities_live(
    s: State,
    jobs: Seq<Job>,
    wid: Seq<char>,
    f: Doc,
    sc: Setting,
    env: Around,
)
    requires
        op_of(f) == "CreateEntity"@,
        !s.wal.degraded,
        s.creates(wid, f),
        s.workers.dom().finite(),
    ensures
        ({
            let k = f.get_str("entity"@)->0;
            let e = asked_entity(s, f, sc.cell);
            let t = s.dispatched(jobs, wid, f, sc, env);
            let u = t.0.stepped(t.1, Reply::Went(true), env);
            &&& t.0 == s
            &&& t.2 == Want::Commit(register_event(k, e, 1))
            &&& bodies(u.0.entities) == bodies(s.entities).insert(k, e.body())
            &&& u.1 == jobs
            &&& forall|w: Seq<char>| #[trigger]
                s.workers.contains_key(w) ==> u.0.workers[w].view == if s.workers[w].sees(
                    e,
                    sc.near.contains(w),
                ) {
                    s.workers[w].view.insert(k)
                } else {
                    s.workers[w].view
                }
            &&& s.workers.contains_key(wid) && f.get("request_id"@) is Some ==> u.0.outbox.last()
                == (Sent::Peer {
                wid,
                msg: Doc::Obj(
                    map![
                        "op"@ => Doc::Str("CreateEntityResponse"@),
                        "request_id"@ => f.get("request_id"@)->0,
                        "entity"@ => Doc::Str(k),
                        "success"@ => Doc::Bool(true)],
                ),
            })
        }),
{
    lemma_names();
    reveal(State::hear_create);
    reveal(State::on_create);
    let k = f.get_str("entity"@)->0;
    let e = asked_entity(s, f, sc.cell);
    let t = s.dispatched(jobs, wid, f, sc, env);
    assert(t.1.drop_last() =~= jobs);
    let a = (State { mesh_forwarded_epoch: s.mesh_forwarded_epoch.remove(k), ..s }).with_entity(k, e);
    law_announced_to_those_who_see(a, k, sc.near);
    assert(bodies(a.entities) =~= bodies(s.entities).insert(k, e.body()));
    let b = a.announced(sorted(s.workers.dom()), k, sc.near);
    assert(b.workers.contains_key(wid) == s.workers.contains_key(wid)) by {
        assert(b.workers.dom().contains(wid) == s.workers.dom().contains(wid));
    }
    assert forall|w: Seq<char>| #[trigger] s.workers.contains_key(w) implies b.workers[w].view
        == if s.workers[w].sees(e, sc.near.contains(w)) {
        s.workers[w].view.insert(k)
    } else {
        s.workers[w].view
    } by {
        assert(a.workers.contains_key(w));
    }
}

/// A deleted entity is gone once that is on the log.
pub proof fn law_deleted_entities_go(
    s: State,
    jobs: Seq<Job>,
    wid: Seq<char>,
    f: Doc,
    sc: Setting,
    env: Around,
)
    requires
        op_of(f) == "DeleteEntity"@,
        !s.wal.degraded,
        s.deletes(wid, f),
        s.workers.dom().finite(),
    ensures
        ({
            let k = f.get_str("entity"@)->0;
            let t = s.dispatched(jobs, wid, f, sc, env);
            let u = t.0.stepped(t.1, Reply::Went(true), env);
            &&& t.0 == s
            &&& t.2 == Want::Commit(tombstone_event(k, succ(s.entities[k].version), wid))
            &&& u.0.entities == s.entities.remove(k)
            &&& u.0.deleted_entities == s.deleted_entities.insert(k)
            &&& u.1 == jobs
            &&& s.workers.contains_key(wid) && f.get("request_id"@) is Some ==> u.0.outbox.last()
                == (Sent::Peer {
                wid,
                msg: Doc::Obj(
                    map![
                        "op"@ => Doc::Str("DeleteEntityResponse"@),
                        "request_id"@ => f.get("request_id"@)->0,
                        "entity"@ => Doc::Str(k),
                        "success"@ => Doc::Bool(true)],
                ),
            })
        }),
{
    lemma_names();
    reveal(State::hear_delete);
    reveal(State::on_delete);
    let k = f.get_str("entity"@)->0;
    let t = s.dispatched(jobs, wid, f, sc, env);
    assert(t.1.drop_last() =~= jobs);
    assert(s.entities.contains_key(k));
    crate::rights::law_deletion_is_whole(s, k);
    let b = s.buried(k);
    assert(b.workers.contains_key(wid) == s.workers.contains_key(wid)) by {
        assert(b.workers.dom().contains(wid) == s.workers.dom().contains(wid));
    }
}

/// A component comes or goes, and an owner changes, once that is on the log.
pub proof fn law_changes_take_effect(
    s: State,
    jobs: Seq<Job>,
    wid: Seq<char>,
    f: Doc,
    sc: Setting,
    env: Around,
)
    requires
        !s.wal.degraded,
    ensures
        ({
            let k = named_entity(f);
            let e = s.entities[k];
            let t = s.dispatched(jobs, wid, f, sc, env);
            let u = t.0.stepped(t.1, Reply::Went(true), env);
            &&& op_of(f) == "AddComponent"@ && s.adds_component(wid, f) ==> t.0 == s && t.2
                == Want::Commit(add_event(f, succ(e.version), wid)) && u.1 == jobs && u.0
                == s.component_added(wid, f, true)
            &&& op_of(f) == "RemoveComponent"@ && s.removes_component(wid, f) ==> t.0 == s && t.2
                == Want::Commit(remove_event(f, succ(e.version), wid)) && u.1 == jobs && u.0
                == s.component_removed(wid, f, true)
            &&& op_of(f) == "SetComponentAuthority"@ && s.changes_authority(wid, f) ==> t.0 == s
                && t.2 == Want::Commit(change_event(s.change_of(f), wid)) && u.1 == jobs && u.0
                == s.change_finished(wid, f, s.change_of(f), true)
            &&& op_of(f) == "ThresholdTx"@ && s.steps(wid, f, tx_of(f, env.gauges.now_ms)) ==> {
                let p = s.step_of(tx_of(f, env.gauges.now_ms));
                &&& t.0 == s
                &&& t.2 == Want::Commit(step_event(p, wid))
                &&& u.1 == jobs
                &&& u.0 == s.step_finished(wid, f, p, true)
            }
        }),
{
    lemma_names();
    reveal(State::hear_add);
    reveal(State::hear_remove);
    reveal(State::hear_authority);
    reveal(State::hear_threshold);
    reveal(State::on_add_component);
    reveal(State::on_remove_component);
    reveal(State::on_authority);
    reveal(State::on_threshold);
    let t = s.dispatched(jobs, wid, f, sc, env);
    assert(jobs.push(Job::AddComponent { wid, f }).drop_last() =~= jobs);
    assert(jobs.push(Job::RemoveComponent { wid, f }).drop_last() =~= jobs);
    assert(jobs.push(Job::Authority { wid, f, change: s.change_of(f) }).drop_last() =~= jobs);
    let plan = s.step_of(tx_of(f, env.gauges.now_ms));
    assert(jobs.push(Job::Threshold { wid, f, plan }).drop_last() =~= jobs);
}

/// A write of a message goes to the log where it is accepted, and is queued once it is there;
/// where it is not, its sender is told; and the writes after it are looked at in their turn.
pub proof fn law_each_write_is_checked(
    s: State,
    jobs: Seq<Job>,
    wid: Seq<char>,
    comp: Seq<char>,
    items: Seq<Entry>,
    verdicts: Seq<Judged>,
    next: nat,
    env: Around,
    a: Reply,
)
    requires
        next < items.len(),
    ensures
        ({
            let i = items[next as int];
            let ask = Ask { wid, eid: i.eid, comp, value: i.value, epoch: i.epoch };
            let v = crate::dispatch::verdict_at(verdicts, next as int);
            let t = s.stepped(
                jobs.push(Job::Items { wid, comp, items, verdicts, next }),
                a,
                env,
            );
            let more = jobs.push(Job::Items { wid, comp, items, verdicts, next: next + 1 });
            let w = s.write_of(ask, env.gauges.now_ms);
            let u = t.0.stepped(t.1, Reply::Went(true), env);
            &&& s.accepts(ask, v) ==> t.0 == s && t.2 == Want::Append(update_event(w))
            &&& s.accepts(ask, v) ==> u.1 == more && u.0.pending_updates == s.pending_updates.push(w)
                && u.0.entities == s.entities
            &&& !s.accepts(ask, v) ==> t.1 == more && t.0 == s.refused(ask, v)
        }),
{
    reveal(State::on_items);
    reveal(State::on_write);
    let q = jobs.push(Job::Items { wid, comp, items, verdicts, next });
    assert(q.drop_last() =~= jobs);
    let more = jobs.push(Job::Items { wid, comp, items, verdicts, next: next + 1 });
    let t = s.stepped(q, a, env);
    if t.1 != more {
        assert(t.1.drop_last() =~= more);
    }
}

/// The writes of a message are all of them: one of a single write, and of a batch one for
/// each element that names an entity, or for each member of its values.
pub proof fn law_messages_give_their_writes(
    s: State,
    jobs: Seq<Job>,
    wid: Seq<char>,
    f: Doc,
    sc: Setting,
    env: Around,
)
    requires
        !s.wal.degraded,
    ensures
        ({
            let t = s.dispatched(jobs, wid, f, sc, env);
            &&& op_of(f) == "UpdateComponent"@ && f.get_str("entity"@) is Some ==> t.0 == s && t.1
                == jobs.push(
                Job::Items {
                    wid,
                    comp: named_comp(f),
                    items: seq![
                        Entry {
                            eid: f.get_str("entity"@)->0,
                            value: match f.get("value"@) {
                                Some(v) => v,
                                None => Doc::Null,
                            },
                            epoch: value_epoch(f),
                        },
                    ],
                    verdicts: sc.verdicts,
                    next: 0,
                },
            )
            &&& op_of(f) == "BatchUpdate"@ && named_comp(f).len() > 0 ==> t.0 == s && t.1 == jobs.push(
                Job::Items {
                    wid,
                    comp: named_comp(f),
                    items: batch_entries(f),
                    verdicts: sc.verdicts,
                    next: 0,
                },
            )
        }),
{
    lemma_names();
    reveal(State::hear_update);
    reveal(State::hear_batch);
}

/// The writes of a batch: each pair or triple of an entity, a value and an epoch, in order.
pub proof fn law_batches_are_read_in_order(f: Doc, ups: Seq<Doc>, ids: Seq<Seq<char>>, vals: Seq<Doc>)
    requires
        f.get("updates"@) == Some(Doc::Arr(ups)),
        ids.len() == ups.len(),
        vals.len() == ups.len(),
        forall|i: int|
            0 <= i < ups.len() ==> #[trigger] ups[i] == Doc::Arr(
                seq![Doc::Str(ids[i]), vals[i]],
            ),
    ensures
        ({
            let q = batch_entries(f);
            &&& q.len() == ups.len()
            &&& forall|i: int|
                0 <= i < q.len() ==> (#[trigger] q[i]).eid == ids[i] && q[i].value == vals[i]
                    && q[i].epoch is None
        }),
    decreases ups.len(),
{
    lemma_entries(ups, ids, vals);
}

proof fn lemma_entries(ups: Seq<Doc>, ids: Seq<Seq<char>>, vals: Seq<Doc>)
    requires
        ids.len() == ups.len(),
        vals.len() == ups.len(),
        forall|i: int|
            0 <= i < ups.len() ==> #[trigger] ups[i] == Doc::Arr(
                seq![Doc::Str(ids[i]), vals[i]],
            ),
    ensures
        ({
            let q = crate::dispatch::entries(ups);
            &&& q.len() == ups.len()
            &&& forall|i: int|
                0 <= i < q.len() ==> (#[trigger] q[i]).eid == ids[i] && q[i].value == vals[i]
                    && q[i].epoch is None
        }),
    decreases ups.len(),
{
    if ups.len() > 0 {
        let d = ups.drop_last();
        let n = ups.len() - 1;
        assert forall|i: int| 0 <= i < d.len() implies #[trigger] d[i] == Doc::Arr(
            seq![Doc::Str(ids.drop_last()[i]), vals.drop_last()[i]],
        ) by {
            assert(d[i] == ups[i]);
        }
        lemma_entries(d, ids.drop_last(), vals.drop_last());
        assert(ups[n] == Doc::Arr(seq![Doc::Str(ids[n]), vals[n]]));
        let p = crate::dispatch::entries(d);
        let q = crate::dispatch::entries(ups);
        assert(q.len() == p.len() + 1);
        assert forall|i: int| 0 <= i < q.len() implies (#[trigger] q[i]).eid == ids[i] && q[i].value
            == vals[i] && q[i].epoch is None by {
            if i < p.len() {
                assert(q[i] == p[i]);
            }
        }
    }
}

/// An arrival from a neighbour that is new here lives once it is on the log, and its sender
/// is told that it may let go.
pub proof fn law_arrivals_live(
    s: State,
    jobs: Seq<Job>,
    wid: Seq<char>,
    f: Doc,
    cell: Seq<char>,
    near: Set<Seq<char>>,
    region: Seq<char>,
    env: Around,
    a: Reply,
)
    requires
        s.workers.dom().finite(),
        s.place_of(f, cell) == Some(region),
        !s.entities.contains_key(crate::adopt::msg_entity(f)),
        !s.deleted_entities.contains(crate::adopt::msg_entity(f)),
    ensures
        ({
            let k = crate::adopt::msg_entity(f);
            let e = crate::adopt::arrival(f, region);
            let t = s.stepped(jobs.push(Job::Adopt { wid, f, cell, near }), a, env);
            let u = t.0.stepped(t.1, Reply::Went(true), env);
            let v = t.0.stepped(t.1, Reply::Went(false), env);
            &&& t.2 == Want::Commit(
                register_event(k, e, crate::json::num_or(f.get_u64("authority_epoch"@), 1)),
            )
            &&& bodies(u.0.entities) == bodies(s.entities).insert(k, e.body())
            &&& e.region == region
            &&& u.1 == jobs
            &&& s.workers.contains_key(wid) && !s.mesh_ack_drop ==> u.0.outbox.last()
                == (Sent::Peer {
                wid,
                msg: Doc::Obj(map!["op"@ => Doc::Str("MeshAck"@), "entity"@ => Doc::Str(k)]),
            })
            &&& bodies(v.0.entities) == bodies(s.entities)
        }),
{
    reveal(State::on_adopt);
    reveal(State::on_adopted);
    let k = crate::adopt::msg_entity(f);
    let e = crate::adopt::arrival(f, region);
    let q = jobs.push(Job::Adopt { wid, f, cell, near });
    assert(q.drop_last() =~= jobs);
    let t = s.stepped(q, a, env);
    assert(t.1.drop_last() =~= jobs);
    assert(t.0 == s);
    let n = crate::json::num_or(f.get_u64("authority_epoch"@), 1);
    crate::spawn::lemma_register_fields(k, e, n);
    let b = (State { mesh_forwarded_epoch: s.mesh_forwarded_epoch.remove(k), ..s }).with_entity(k, e);
    law_announced_to_those_who_see(b, k, near);
    assert(bodies(b.entities) =~= bodies(s.entities).insert(k, e.body()));
    let c = b.announced(sorted(s.workers.dom()), k, near);
    assert(c.workers.contains_key(wid) == s.workers.contains_key(wid)) by {
        assert(c.workers.dom().contains(wid) == s.workers.dom().contains(wid));
    }
    lemma_flags_kept(b, sorted(s.workers.dom()), k, near);
    let u = t.0.stepped(t.1, Reply::Went(true), env);
    let v = t.0.stepped(t.1, Reply::Went(false), env);
    assert(u.0 == c.confirmed(wid, k));
    assert(v.0 == (State { mesh_forwarded_epoch: s.mesh_forwarded_epoch.remove(k), ..s }));
    assert(e.region == region);
}

proof fn lemma_flags_kept(s: State, names: Seq<Seq<char>>, eid: Seq<char>, near: Set<Seq<char>>)
    ensures
        s.announced(names, eid, near).mesh_ack_drop == s.mesh_ack_drop,
    decreases names.len(),
{
    if names.len() > 0 {
        lemma_flags_kept(s, names.drop_last(), eid, near);
        let t = s.announced(names.drop_last(), eid, near);
        let wid = names.last();
        let u = t.shown(wid, eid);
        lemma_shown_flag(t, wid, eid);
        lemma_granted_flag(u, wid, eid, u.regional_grants(wid, eid));
    }
}

proof fn lemma_granted_flag(s: State, wid: Seq<char>, eid: Seq<char>, comps: Seq<Seq<char>>)
    ensures
        s.all_granted(wid, eid, comps).mesh_ack_drop == s.mesh_ack_drop,
    decreases comps.len(),
{
    if comps.len() > 0 {
        lemma_granted_flag(s, wid, eid, comps.drop_last());
    }
}

proof fn lemma_sent_flag(
    s: State,
    wid: Seq<char>,
    eid: Seq<char>,
    comps: Map<Seq<char>, Doc>,
    names: Seq<Seq<char>>,
)
    ensures
        s.components_sent(wid, eid, comps, names).mesh_ack_drop == s.mesh_ack_drop,
    decreases names.len(),
{
    if names.len() > 0 {
        lemma_sent_flag(s, wid, eid, comps, names.drop_last());
    }
}

proof fn lemma_shown_flag(s: State, wid: Seq<char>, eid: Seq<char>)
    ensures
        s.shown(wid, eid).mesh_ack_drop == s.mesh_ack_drop,
{
    if s.entities.contains_key(eid) {
        let e = s.entities[eid];
        let a = s.emitted(wid, crate::sight::critical_section(eid, "begin"@)).emitted(
            wid,
            crate::sight::entity_msg("AddEntity"@, eid),
        ).emitted(wid, crate::sight::component_update(eid, "pos"@, e.pos.doc())).emitted(
            wid,
            crate::sight::component_update(eid, "vel"@, e.vel.doc()),
        );
        let names = sorted(e.components.dom());
        lemma_sent_flag(a, wid, eid, e.components, names);
        let b = a.components_sent(wid, eid, e.components, names).emitted(
            wid,
            crate::sight::critical_section(eid, "end"@),
        ).view_added(wid, eid);
        lemma_granted_flag(b, wid, eid, b.client_grants(wid, eid));
    }
}

/// A fold is asked for by the holder of the entity's region, of another region, and goes to
/// the log as a transfer that puts the entity where it is asked to; once it is applied the
/// entity is there.
pub proof fn law_folds_put_the_entity_there(
    s: State,
    jobs: Seq<Job>,
    wid: Seq<char>,
    f: Doc,
    sc: Setting,
    env: Around,
    eid: Seq<char>,
    to: Seq<char>,
    p: Doc,
)
    requires
        op_of(f) == "Fold"@,
        !s.wal.degraded,
        f.get_str("entity"@) == Some(eid),
        f.get_str("region"@) == Some(to),
        f.get("pos"@) == Some(p),
        to.len() > 0,
        s.entities.contains_key(eid),
        s.entities[eid].region != to,
        !(s.mesh_regions.contains(to) && !s.region_worker.contains_key(to)),
        s.pending_handoffs.len() == 0,
    ensures
        ({
            let t = s.dispatched(jobs, wid, f, sc, env);
            let u = t.0.stepped(t.1, Reply::Went(true), env);
            let mine = at(s.region_worker, s.entities[eid].region) == Some(wid);
            &&& mine ==> {
                let h = u.0.pending_handoffs[0];
                &&& t.0 == s
                &&& t.2 == Want::Append(handoff_event(h))
                &&& u.0.pending_handoffs.len() == 1
                &&& h.eid == eid && h.from == s.entities[eid].region && h.to == to && h.pos == Some(
                    crate::float::point_of(Some(p)),
                )
                &&& crate::handoff::moved(s.entities[eid], h).pos == crate::float::point_of(Some(p))
                &&& crate::handoff::moved(s.entities[eid], h).region == to
                &&& crate::handoff::moved(s.entities[eid], h).vel == s.entities[eid].vel
                &&& crate::handoff::moved(s.entities[eid], h).components
                    == s.entities[eid].components
            }
            &&& !mine ==> t.1 == jobs && t.0.entities == s.entities && t.0.pending_handoffs
                == s.pending_handoffs
        }),
{
    lemma_names();
    reveal(State::hear_fold);
    reveal(State::on_fold);
    let t = s.dispatched(jobs, wid, f, sc, env);
    assert(!crate::handoff::is_queued(s.pending_handoffs, eid));
    if at(s.region_worker, s.entities[eid].region) == Some(wid) {
        assert(t.1.drop_last() =~= jobs);
    }
}

/// What is answered at once is: each of these requests does what it is for, whatever the
/// state of the log.
pub proof fn law_questions_are_answered_at_once(
    s: State,
    jobs: Seq<Job>,
    wid: Seq<char>,
    f: Doc,
    sc: Setting,
    env: Around,
)
    ensures
        ({
            let op = op_of(f);
            let t = s.dispatched(jobs, wid, f, sc, env);
            let now = env.gauges.now_ms;
            &&& op == "Heartbeat"@ ==> t.0 == s.renewed(wid, now) && t.1 == jobs
            &&& op == "Interest"@ ==> t.0 == s.focused(wid, f, sc.near) && t.1 == jobs
            &&& op == "EntityEvent"@ ==> t.0 == s.fired(wid, f, sc.near) && t.1 == jobs
            &&& op == "CommandRequest"@ ==> t.0 == s.commanded(wid, f) && t.1 == jobs
            &&& op == "CommandResponse"@ ==> t.0 == s.responded(wid, f) && t.1 == jobs
            &&& op == "EntityQuery"@ ==> t.0 == s.queried(wid, f, sc.in_sphere, sc.near) && t.1
                == jobs
            &&& op == "MeshGhost"@ ==> t.0 == s.mirrored(f, sc.near, now) && t.1 == jobs
            &&& op == "MeshGhostRemove"@ && f.get_str("entity"@) is Some ==> t.0 == s.mirror_dropped(
                f.get_str("entity"@)->0,
            ) && t.1 == jobs
            &&& op == "Metrics"@ ==> t.0 == s.load_noted(wid, f) && t.1 == jobs
            &&& op == "FlagUpdate"@ ==> t.0 == s.flagged(f) && t.1 == jobs
        }),
{
    lemma_names();
    reveal(State::answered_at_once);
}

}

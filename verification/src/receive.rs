//! What a message from a peer sets off.

use vstd::prelude::*;
use vstd::string::*;
use crate::adopt::{admit_mesh_handoff, msg_entity, Gate};
use crate::commands::{handle_command_request, handle_command_response, request_name};
use crate::components::{
    add_event, authority_change_wal_event, change_event, named_comp, named_entity,
    plan_add_component, plan_authority_change, plan_remove_component, remove_event,
};
use crate::control::{
    block_given, handle_entity_event, handle_flag_update, handle_interest, handle_metrics,
    plan_reserve, request_rejected, request_rejected_json, reserve_count, reserve_event,
};
use crate::dispatch::{
    batch_entries, batch_items, Around, Ask, Entry, Item, Job, Reply, Scene, Setting, Surroundings,
    Task, Turn, Want,
};
use crate::doc::{Doc, Json};
use crate::entity::{authority_epoch_from_value, succ, value_epoch};
use crate::ghosts::{handle_mesh_ghost, handle_mesh_ghost_remove};
use crate::grants::update_rejected;
use crate::handoff::{handoff_event, prepared_handoff_wal_event};
use crate::json::{or_null, text_or};
use crate::lifecycle::{asked_entity, plan_create, plan_delete, tombstone_event};
use crate::mesh::{ack_event, mesh_ack_event};
use crate::moves::{
    drain_targets, given_point, handoff_with_position, plan_fold, refuse_fold, Begun, Start,
};
use crate::order::sorted;
use crate::policy::{
    is_persistent_op, op_of, persistent_ops, policy_rejected, reject_ingress_rate_limit,
    reject_role_policy,
};
use crate::publish::renew;
use crate::query::handle_entity_query;
use crate::recovery::Store;
use crate::report::{begin_drain, handle_health, handle_inspector_query};
use crate::schema::admit_snapshot;
use crate::spawn::{prepared_spawn_wal_event, register_event};
use crate::state::{emit, views, Sent, ServerState, State, WalStatus};
use crate::steps::put;
use crate::strmap::Dup;
use crate::text::str_eq;
use crate::threshold::{plan_threshold, step_event, threshold_wal_event, tx_of};

verus! {

broadcast use {crate::doc::group_json, crate::strmap::group_map};

/// The one write of a message.
pub open spec fn single_entry(f: Doc) -> Seq<Entry> {
    seq![
        Entry {
            eid: f.get_str("entity"@)->0,
            value: or_null(f.get("value"@)),
            epoch: value_epoch(f),
        },
    ]
}

impl State {
    /// A write: it is checked next.
    #[verifier::opaque]
    pub open spec fn hear_update(self, jobs: Seq<Job>, wid: Seq<char>, f: Doc, sc: Setting) -> Turn {
        if f.get_str("entity"@) is Some {
            (
                self,
                jobs.push(
                    Job::Items {
                        wid,
                        comp: named_comp(f),
                        items: single_entry(f),
                        verdicts: sc.verdicts,
                        next: 0,
                    },
                ),
                Want::Again,
            )
        } else {
            (self, jobs, Want::Again)
        }
    }

    /// A batch of writes of one component: each is checked by itself.
    #[verifier::opaque]
    pub open spec fn hear_batch(self, jobs: Seq<Job>, wid: Seq<char>, f: Doc, sc: Setting) -> Turn {
        if named_comp(f).len() > 0 {
            (
                self,
                jobs.push(
                    Job::Items {
                        wid,
                        comp: named_comp(f),
                        items: batch_entries(f),
                        verdicts: sc.verdicts,
                        next: 0,
                    },
                ),
                Want::Again,
            )
        } else {
            (self, jobs, Want::Again)
        }
    }

    /// A fold into a far region.
    #[verifier::opaque]
    pub open spec fn hear_fold(self, jobs: Seq<Job>, wid: Seq<char>, f: Doc) -> Turn {
        if self.folds(wid, f) {
            let eid = f.get_str("entity"@)->0;
            let to = text_or(f.get_str("region"@), ""@);
            let s = self.crossing_begun(eid, to);
            match self.begun(eid, self.entities[eid].region, to, given_point(f)) {
                Begun::Log(h) => (
                    s,
                    jobs.push(Job::Fold { wid, h }),
                    Want::Append(handoff_event(h)),
                ),
                Begun::Done(true) => (
                    s,
                    jobs.push(Job::FoldEnd { eid }).push(Job::Crossings).push(Job::SyncHandoffs),
                    Want::Again,
                ),
                Begun::Done(false) => (
                    s.emitted(
                        wid,
                        update_rejected(
                            eid,
                            "fold"@,
                            "fold handoff failed before durable commit"@,
                        ),
                    ),
                    jobs,
                    Want::Again,
                ),
            }
        } else {
            (self.fold_refused(wid, f), jobs, Want::Again)
        }
    }

    /// A new entity.
    #[verifier::opaque]
    pub open spec fn hear_create(self, jobs: Seq<Job>, wid: Seq<char>, f: Doc, sc: Setting) -> Turn {
        if self.creates(wid, f) {
            let eid = f.get_str("entity"@)->0;
            let e = asked_entity(self, f, sc.cell);
            (
                self,
                jobs.push(Job::Create { wid, f, spawn: (eid, 1u64, e), near: sc.near }),
                Want::Commit(register_event(eid, e, 1)),
            )
        } else {
            (self.create_answered(wid, f), jobs, Want::Again)
        }
    }

    /// The end of an entity.
    #[verifier::opaque]
    pub open spec fn hear_delete(self, jobs: Seq<Job>, wid: Seq<char>, f: Doc) -> Turn {
        if self.deletes(wid, f) {
            let eid = f.get_str("entity"@)->0;
            (
                self,
                jobs.push(Job::Delete { wid, f }),
                Want::Commit(tombstone_event(eid, succ(self.entities[eid].version), wid)),
            )
        } else {
            (self.delete_answered(wid, f), jobs, Want::Again)
        }
    }

    /// A change of authority.
    #[verifier::opaque]
    pub open spec fn hear_authority(self, jobs: Seq<Job>, wid: Seq<char>, f: Doc) -> Turn {
        if self.changes_authority(wid, f) {
            let change = self.change_of(f);
            (
                self,
                jobs.push(Job::Authority { wid, f, change }),
                Want::Commit(change_event(change, wid)),
            )
        } else {
            (self.change_answered(wid, f), jobs, Want::Again)
        }
    }

    /// A component that comes.
    #[verifier::opaque]
    pub open spec fn hear_add(self, jobs: Seq<Job>, wid: Seq<char>, f: Doc) -> Turn {
        if self.adds_component(wid, f) {
            (
                self,
                jobs.push(Job::AddComponent { wid, f }),
                Want::Commit(add_event(f, succ(self.entities[named_entity(f)].version), wid)),
            )
        } else if self.may_alter(wid, f) {
            (self, jobs, Want::Again)
        } else {
            (self.alter_refused(wid, f), jobs, Want::Again)
        }
    }

    /// A component that goes.
    #[verifier::opaque]
    pub open spec fn hear_remove(self, jobs: Seq<Job>, wid: Seq<char>, f: Doc) -> Turn {
        if self.removes_component(wid, f) {
            (
                self,
                jobs.push(Job::RemoveComponent { wid, f }),
                Want::Commit(remove_event(f, succ(self.entities[named_entity(f)].version), wid)),
            )
        } else if self.may_alter(wid, f) {
            (self, jobs, Want::Again)
        } else {
            (self.alter_refused(wid, f), jobs, Want::Again)
        }
    }

    /// A step of a threshold transaction.
    #[verifier::opaque]
    pub open spec fn hear_threshold(
        self,
        jobs: Seq<Job>,
        wid: Seq<char>,
        f: Doc,
        env: Around,
    ) -> Turn {
        let tx = tx_of(f, env.gauges.now_ms);
        if self.steps(wid, f, tx) {
            let plan = self.step_of(tx);
            (
                self,
                jobs.push(Job::Threshold { wid, f, plan }),
                Want::Commit(step_event(plan, wid)),
            )
        } else {
            (self.step_refused(wid, f, tx), jobs, Want::Again)
        }
    }

    /// A block of entity numbers.
    #[verifier::opaque]
    pub open spec fn hear_reserve(self, jobs: Seq<Job>, wid: Seq<char>, f: Doc) -> Turn {
        (
            self,
            jobs.push(Job::Reserve { wid, f }),
            Want::Commit(
                reserve_event(
                    self.entity_id_reservations,
                    reserve_count(f),
                    crate::clock::plus(self.entity_id_reservations, reserve_count(f)),
                ),
            ),
        )
    }

    /// An arrival from a neighbour.
    #[verifier::opaque]
    pub open spec fn hear_arrival(self, jobs: Seq<Job>, wid: Seq<char>, f: Doc, sc: Setting) -> Turn {
        let s = self.gated(wid, f);
        match self.gate(f) {
            Gate::Stop => (s, jobs, Want::Again),
            Gate::AckFirst => (
                s,
                jobs.push(Job::AckFirst { wid, f, cell: sc.cell, near: sc.near }),
                Want::Commit(ack_event(msg_entity(f))),
            ),
            Gate::Go => (
                s,
                jobs.push(Job::Adopt { wid, f, cell: sc.cell, near: sc.near }),
                Want::Again,
            ),
        }
    }

    /// A snapshot: all that is queued comes first.
    #[verifier::opaque]
    pub open spec fn hear_snapshot(self, jobs: Seq<Job>, wid: Seq<char>, f: Doc) -> Turn {
        if self.may_snapshot(wid) {
            (self, jobs.push(Job::Snapshot { wid, f }).push(Job::Flush), Want::Again)
        } else {
            (
                self.emitted(
                    wid,
                    request_rejected(
                        request_name(f),
                        "SnapshotMarker requires the snapshot/inspector/kernel_admin attribute"@,
                    ),
                ),
                jobs,
                Want::Again,
            )
        }
    }

    /// The entities that are sent off when the broker is drained.
    pub open spec fn drain_list(self) -> Seq<(Seq<char>, Seq<char>)> {
        if self.mesh.len() == 0 {
            Seq::empty()
        } else {
            sorted(self.entities.dom()).map_values(|k: Seq<char>| (k, self.drain_target(k)))
        }
    }

    /// A request to drain the broker.
    #[verifier::opaque]
    pub open spec fn hear_drain(self, jobs: Seq<Job>, wid: Seq<char>, f: Doc) -> Turn {
        let s = self.drain_begun(wid, f);
        if self.may_drain(wid) {
            (
                s,
                jobs.push(
                    Job::DrainEnd { wid, f, dispatched: s.drain_list().len() as u64 },
                ).push(Job::Depart { list: s.drain_list(), next: 0 }),
                Want::Again,
            )
        } else {
            (s, jobs, Want::Again)
        }
    }

    /// The state after a message that is answered at once.
    #[verifier::opaque]
    pub open spec fn answered_at_once(
        self,
        wid: Seq<char>,
        f: Doc,
        sc: Setting,
        env: Around,
    ) -> State {
        let op = op_of(f);
        if op == "Heartbeat"@ {
            self.renewed(wid, env.gauges.now_ms)
        } else if op == "Interest"@ {
            self.focused(wid, f, sc.near)
        } else if op == "EntityEvent"@ {
            self.fired(wid, f, sc.near)
        } else if op == "CommandRequest"@ {
            self.commanded(wid, f)
        } else if op == "CommandResponse"@ {
            self.responded(wid, f)
        } else if op == "EntityQuery"@ {
            self.queried(wid, f, sc.in_sphere, sc.near)
        } else if op == "InspectorQuery"@ {
            self.emitted(
                wid,
                if self.has_attr(wid, "inspector"@) {
                    self.inspector_frame(f, env.gauges, env.lags)
                } else {
                    request_rejected(
                        request_name(f),
                        "InspectorQuery requires the inspector attribute"@,
                    )
                },
            )
        } else if op == "Health"@ {
            self.emitted(wid, self.health_frame(f, env.gauges))
        } else if op == "FlagUpdate"@ {
            self.flagged(f)
        } else if op == "Metrics"@ {
            self.load_noted(wid, f)
        } else if op == "MeshGhost"@ {
            self.mirrored(f, sc.near, env.gauges.now_ms)
        } else if op == "MeshGhostRemove"@ {
            match f.get_str("entity"@) {
                Some(eid) => self.mirror_dropped(eid),
                None => self,
            }
        } else {
            self
        }
    }

    /// What a message sets off in a broker whose log is sound, or that needs no log.
    pub open spec fn heard(
        self,
        jobs: Seq<Job>,
        wid: Seq<char>,
        f: Doc,
        sc: Setting,
        env: Around,
    ) -> Turn {
        let op = op_of(f);
        if op == "UpdateComponent"@ {
            self.hear_update(jobs, wid, f, sc)
        } else if op == "BatchUpdate"@ {
            self.hear_batch(jobs, wid, f, sc)
        } else if op == "Fold"@ {
            self.hear_fold(jobs, wid, f)
        } else if op == "CreateEntity"@ {
            self.hear_create(jobs, wid, f, sc)
        } else if op == "DeleteEntity"@ {
            self.hear_delete(jobs, wid, f)
        } else if op == "SetComponentAuthority"@ {
            self.hear_authority(jobs, wid, f)
        } else if op == "AddComponent"@ {
            self.hear_add(jobs, wid, f)
        } else if op == "RemoveComponent"@ {
            self.hear_remove(jobs, wid, f)
        } else if op == "ThresholdTx"@ {
            self.hear_threshold(jobs, wid, f, env)
        } else if op == "ReserveEntityIds"@ {
            self.hear_reserve(jobs, wid, f)
        } else if op == "MeshHandoff"@ {
            self.hear_arrival(jobs, wid, f, sc)
        } else if op == "SnapshotMarker"@ {
            self.hear_snapshot(jobs, wid, f)
        } else if op == "Drain"@ {
            self.hear_drain(jobs, wid, f)
        } else {
            (self.answered_at_once(wid, f, sc, env), jobs, Want::Again)
        }
    }

    /// What a message sets off. With a log that failed, what needs it is refused.
    pub open spec fn dispatched(
        self,
        jobs: Seq<Job>,
        wid: Seq<char>,
        f: Doc,
        sc: Setting,
        env: Around,
    ) -> Turn {
        if self.wal.degraded && persistent_ops().contains(op_of(f)) {
            (
                self.emitted(
                    wid,
                    request_rejected(
                        request_name(f),
                        "broker WAL-degraded (fail-closed): persistent op rejected"@,
                    ),
                ),
                jobs,
                Want::Again,
            )
        } else {
            self.heard(jobs, wid, f, sc, env)
        }
    }
}

fn hear_writes(
    s: &ServerState,
    tasks: &mut Vec<Task>,
    wid: &str,
    f: &Json,
    scene: Scene,
    many: bool,
) -> (r: Ask)
    ensures
        (s@, views(final(tasks)@), r@) == if many {
            s@.hear_batch(views(old(tasks)@), wid@, f@, scene@)
        } else {
            s@.hear_update(views(old(tasks)@), wid@, f@, scene@)
        },
{
    proof {
        reveal(State::hear_batch);
        reveal(State::hear_update);
        reveal_strlit("");
    }
    let comp = f.str_or("comp", "");
    if many {
        if !comp.is_empty() {
            let items = batch_items(f);
            put(
                tasks,
                Task::Items {
                    wid: wid.to_owned(),
                    comp: comp.to_owned(),
                    items,
                    verdicts: scene.verdicts,
                    next: 0,
                },
            );
        }
        return Ask::Again;
    }
    if let Some(eid) = f.get_str("entity") {
        let mut items: Vec<Item> = Vec::new();
        items.push(
            Item {
                eid: eid.to_owned(),
                value: f.member("value"),
                epoch: authority_epoch_from_value(f),
            },
        );
        proof {
            assert(views(items@) =~= single_entry(f@));
        }
        put(
            tasks,
            Task::Items {
                wid: wid.to_owned(),
                comp: comp.to_owned(),
                items,
                verdicts: scene.verdicts,
                next: 0,
            },
        );
    }
    Ask::Again
}

fn hear_fold(s: &mut ServerState, tasks: &mut Vec<Task>, wid: &str, f: &Json) -> (r: Ask)
    ensures
        (final(s)@, views(final(tasks)@), r@) == old(s)@.hear_fold(views(old(tasks)@), wid@, f@),
{
    proof {
        reveal(State::hear_fold);
    }
    let p = match plan_fold(s, wid, f) {
        Some(p) => p,
        None => return Ask::Again,
    };
    match handoff_with_position(s, p.eid.as_str(), p.from.as_str(), p.to.as_str(), &p.pos) {
        Start::Log(h) => {
            let ev = prepared_handoff_wal_event(&h);
            put(tasks, Task::Fold { wid: wid.to_owned(), h });
            return Ask::Append(ev);
        },
        Start::Done(true) => {
            put(tasks, Task::FoldEnd { eid: p.eid });
            put(tasks, Task::Crossings);
            put(tasks, Task::SyncHandoffs);
        },
        Start::Done(false) => {
            refuse_fold(s, wid, p.eid.as_str());
        },
    }
    Ask::Again
}

fn hear_create(s: &mut ServerState, tasks: &mut Vec<Task>, wid: &str, f: &Json, scene: Scene) -> (r: Ask)
    ensures
        (final(s)@, views(final(tasks)@), r@) == old(s)@.hear_create(
            views(old(tasks)@),
            wid@,
            f@,
            scene@,
        ),
{
    proof {
        reveal(State::hear_create);
    }
    match plan_create(s, wid, f, scene.cell.as_str()) {
        Some(spawn) => {
            let ev = prepared_spawn_wal_event(&spawn);
            put(
                tasks,
                Task::Create { wid: wid.to_owned(), f: f.dup(), spawn, near: scene.reach.near },
            );
            Ask::Commit(ev)
        },
        None => Ask::Again,
    }
}

fn hear_delete(s: &mut ServerState, tasks: &mut Vec<Task>, wid: &str, f: &Json) -> (r: Ask)
    ensures
        (final(s)@, views(final(tasks)@), r@) == old(s)@.hear_delete(views(old(tasks)@), wid@, f@),
{
    proof {
        reveal(State::hear_delete);
    }
    match plan_delete(s, wid, f) {
        Some(ev) => {
            put(tasks, Task::Delete { wid: wid.to_owned(), f: f.dup() });
            Ask::Commit(ev)
        },
        None => Ask::Again,
    }
}

fn hear_authority(s: &mut ServerState, tasks: &mut Vec<Task>, wid: &str, f: &Json) -> (r: Ask)
    ensures
        (final(s)@, views(final(tasks)@), r@) == old(s)@.hear_authority(
            views(old(tasks)@),
            wid@,
            f@,
        ),
{
    proof {
        reveal(State::hear_authority);
    }
    match plan_authority_change(s, wid, f) {
        Some(change) => {
            let ev = authority_change_wal_event(&change, wid);
            put(tasks, Task::Authority { wid: wid.to_owned(), f: f.dup(), change });
            Ask::Commit(ev)
        },
        None => Ask::Again,
    }
}

fn hear_add(s: &mut ServerState, tasks: &mut Vec<Task>, wid: &str, f: &Json) -> (r: Ask)
    ensures
        (final(s)@, views(final(tasks)@), r@) == old(s)@.hear_add(views(old(tasks)@), wid@, f@),
{
    proof {
        reveal(State::hear_add);
    }
    match plan_add_component(s, wid, f) {
        Some(ev) => {
            put(tasks, Task::AddComponent { wid: wid.to_owned(), f: f.dup() });
            Ask::Commit(ev)
        },
        None => Ask::Again,
    }
}

fn hear_remove(s: &mut ServerState, tasks: &mut Vec<Task>, wid: &str, f: &Json) -> (r: Ask)
    ensures
        (final(s)@, views(final(tasks)@), r@) == old(s)@.hear_remove(views(old(tasks)@), wid@, f@),
{
    proof {
        reveal(State::hear_remove);
    }
    match plan_remove_component(s, wid, f) {
        Some(ev) => {
            put(tasks, Task::RemoveComponent { wid: wid.to_owned(), f: f.dup() });
            Ask::Commit(ev)
        },
        None => Ask::Again,
    }
}

fn hear_threshold(
    s: &mut ServerState,
    tasks: &mut Vec<Task>,
    wid: &str,
    f: &Json,
    env: &Surroundings,
) -> (r: Ask)
    ensures
        (final(s)@, views(final(tasks)@), r@) == old(s)@.hear_threshold(
            views(old(tasks)@),
            wid@,
            f@,
            env@,
        ),
{
    proof {
        reveal(State::hear_threshold);
    }
    match plan_threshold(s, wid, f, env.gauges.now_ms) {
        Some(plan) => {
            let ev = threshold_wal_event(&plan, wid);
            put(tasks, Task::Threshold { wid: wid.to_owned(), f: f.dup(), plan });
            Ask::Commit(ev)
        },
        None => Ask::Again,
    }
}

fn hear_reserve(s: &ServerState, tasks: &mut Vec<Task>, wid: &str, f: &Json) -> (r: Ask)
    ensures
        (s@, views(final(tasks)@), r@) == s@.hear_reserve(views(old(tasks)@), wid@, f@),
{
    proof {
        reveal(State::hear_reserve);
    }
    let ev = plan_reserve(s, f);
    put(tasks, Task::Reserve { wid: wid.to_owned(), f: f.dup() });
    Ask::Commit(ev)
}

fn hear_arrival(s: &mut ServerState, tasks: &mut Vec<Task>, wid: &str, f: &Json, scene: Scene) -> (r: Ask)
    ensures
        (final(s)@, views(final(tasks)@), r@) == old(s)@.hear_arrival(
            views(old(tasks)@),
            wid@,
            f@,
            scene@,
        ),
{
    proof {
        reveal(State::hear_arrival);
    }
    match admit_mesh_handoff(s, wid, f) {
        Gate::Stop => Ask::Again,
        Gate::AckFirst => {
            let ev = mesh_ack_event(f.str_or("entity", ""));
            put(
                tasks,
                Task::AckFirst {
                    wid: wid.to_owned(),
                    f: f.dup(),
                    cell: scene.cell,
                    near: scene.reach.near,
                },
            );
            Ask::Commit(ev)
        },
        Gate::Go => {
            put(
                tasks,
                Task::Adopt {
                    wid: wid.to_owned(),
                    f: f.dup(),
                    cell: scene.cell,
                    near: scene.reach.near,
                },
            );
            Ask::Again
        },
    }
}

fn hear_snapshot(s: &mut ServerState, tasks: &mut Vec<Task>, wid: &str, f: &Json) -> (r: Ask)
    ensures
        (final(s)@, views(final(tasks)@), r@) == old(s)@.hear_snapshot(
            views(old(tasks)@),
            wid@,
            f@,
        ),
{
    proof {
        reveal(State::hear_snapshot);
    }
    if admit_snapshot(s, wid, f) {
        put(tasks, Task::Snapshot { wid: wid.to_owned(), f: f.dup() });
        put(tasks, Task::Flush);
    }
    Ask::Again
}

fn hear_drain(s: &mut ServerState, tasks: &mut Vec<Task>, wid: &str, f: &Json) -> (r: Ask)
    ensures
        (final(s)@, views(final(tasks)@), r@) == old(s)@.hear_drain(views(old(tasks)@), wid@, f@),
{
    proof {
        reveal(State::hear_drain);
    }
    if begin_drain(s, wid, f) {
        let list = drain_targets(s);
        proof {
            assert(views(list@).len() == list@.len());
            assert(views(list@) == s@.drain_list());
        }
        put(
            tasks,
            Task::DrainEnd { wid: wid.to_owned(), f: f.dup(), dispatched: list.len() as u64 },
        );
        put(tasks, Task::Depart { list, next: 0 });
    }
    Ask::Again
}

fn answer_at_once(
    s: &mut ServerState,
    wid: &str,
    f: &Json,
    scene: &Scene,
    env: &Surroundings,
)
    ensures
        final(s)@ == old(s)@.answered_at_once(wid@, f@, scene@, env@),
{
    proof {
        reveal(State::answered_at_once);
    }
    let op = f.str_or("op", "");
    if str_eq(op, "Heartbeat") {
        renew(s, wid, env.gauges.now_ms);
    } else if str_eq(op, "Interest") {
        handle_interest(s, wid, f, &scene.reach.near);
    } else if str_eq(op, "EntityEvent") {
        handle_entity_event(s, wid, f, &scene.reach.near);
    } else if str_eq(op, "CommandRequest") {
        handle_command_request(s, wid, f);
    } else if str_eq(op, "CommandResponse") {
        handle_command_response(s, wid, f);
    } else if str_eq(op, "EntityQuery") {
        handle_entity_query(s, wid, f, &scene.reach);
    } else if str_eq(op, "InspectorQuery") {
        handle_inspector_query(s, wid, f, &env.gauges, &env.lags);
    } else if str_eq(op, "Health") {
        handle_health(s, wid, f, &env.gauges);
    } else if str_eq(op, "FlagUpdate") {
        handle_flag_update(s, f);
    } else if str_eq(op, "Metrics") {
        handle_metrics(s, wid, f);
    } else if str_eq(op, "MeshGhost") {
        handle_mesh_ghost(s, f, &scene.reach.near, env.gauges.now_ms);
    } else if str_eq(op, "MeshGhostRemove") {
        handle_mesh_ghost_remove(s, f);
    }
}

/// Takes a message of a peer that may send it. What comes back is what the next step
/// needs.
pub fn dispatch_inner(
    s: &mut ServerState,
    tasks: &mut Vec<Task>,
    wid: &str,
    f: &Json,
    scene: Scene,
    env: &Surroundings,
) -> (r: Ask)
    ensures
        (final(s)@, views(final(tasks)@), r@) == old(s)@.dispatched(
            views(old(tasks)@),
            wid@,
            f@,
            scene@,
            env@,
        ),
{
    let op = f.str_or("op", "");
    if s.wal.degraded && is_persistent_op(op) {
        let msg = request_rejected_json(
            f.str_or("request_id", ""),
            "broker WAL-degraded (fail-closed): persistent op rejected",
        );
        emit(s, wid, msg);
        return Ask::Again;
    }
    if str_eq(op, "UpdateComponent") {
        hear_writes(s, tasks, wid, f, scene, false)
    } else if str_eq(op, "BatchUpdate") {
        hear_writes(s, tasks, wid, f, scene, true)
    } else if str_eq(op, "Fold") {
        hear_fold(s, tasks, wid, f)
    } else if str_eq(op, "CreateEntity") {
        hear_create(s, tasks, wid, f, scene)
    } else if str_eq(op, "DeleteEntity") {
        hear_delete(s, tasks, wid, f)
    } else if str_eq(op, "SetComponentAuthority") {
        hear_authority(s, tasks, wid, f)
    } else if str_eq(op, "AddComponent") {
        hear_add(s, tasks, wid, f)
    } else if str_eq(op, "RemoveComponent") {
        hear_remove(s, tasks, wid, f)
    } else if str_eq(op, "ThresholdTx") {
        hear_threshold(s, tasks, wid, f, env)
    } else if str_eq(op, "ReserveEntityIds") {
        hear_reserve(s, tasks, wid, f)
    } else if str_eq(op, "MeshHandoff") {
        hear_arrival(s, tasks, wid, f, scene)
    } else if str_eq(op, "SnapshotMarker") {
        hear_snapshot(s, tasks, wid, f)
    } else if str_eq(op, "Drain") {
        hear_drain(s, tasks, wid, f)
    } else {
        answer_at_once(s, wid, f, &scene, env);
        Ask::Again
    }
}

/// A message that costs more than its sender has left: what it costs, and what is
/// left.
pub struct Overdraft {
    pub cost: Json,
    pub tokens: Json,
}

/// What became of a message at the door.
#[derive(Clone, Copy, Debug, PartialEq, Eq, Structural)]
pub enum Outcome {
    /// Its sender's budget is used up.
    RateLimited,
    /// Its sender's role may not send it.
    RoleRefused,
    /// It was taken.
    Dispatched,
}

impl State {
    /// What becomes of a message at the door.
    pub open spec fn outcome(self, wid: Seq<char>, f: Doc, limited: bool) -> Outcome {
        if limited && self.workers.contains_key(wid) {
            Outcome::RateLimited
        } else if self.policy_refuses(wid, f) {
            Outcome::RoleRefused
        } else {
            Outcome::Dispatched
        }
    }
}

/// Takes a message of a peer: one over its sender's budget is refused, then one that
/// its sender's role may not send, and else it is dispatched.
pub fn dispatch_frame(
    s: &mut ServerState,
    tasks: &mut Vec<Task>,
    wid: &str,
    f: &Json,
    over: Option<Overdraft>,
    scene: Scene,
    env: &Surroundings,
) -> (r: (Outcome, Ask))
    ensures
        r.0 == old(s)@.outcome(wid@, f@, over is Some),
        (final(s)@, views(final(tasks)@), (r.1)@) == match r.0 {
            Outcome::RateLimited => (
                old(s)@.rate_refused(wid@, f@, (over->0).cost@, (over->0).tokens@),
                views(old(tasks)@),
                Want::Again,
            ),
            Outcome::RoleRefused => (
                old(s)@.emitted(wid@, policy_rejected(f@, old(s)@.workers[wid@].role)),
                views(old(tasks)@),
                Want::Again,
            ),
            Outcome::Dispatched => old(s)@.dispatched(
                views(old(tasks)@),
                wid@,
                f@,
                scene@,
                env@,
            ),
        },
{
    if let Some(o) = over {
        if s.workers.contains_key(wid) {
            reject_ingress_rate_limit(s, wid, f, o.cost, o.tokens);
            return (Outcome::RateLimited, Ask::Again);
        }
    }
    if reject_role_policy(s, wid, f) {
        return (Outcome::RoleRefused, Ask::Again);
    }
    (Outcome::Dispatched, dispatch_inner(s, tasks, wid, f, scene, env))
}

/// Fail closed: while the log is degraded, a message that needs it changes nothing; its
/// sender is told.
pub proof fn law_degraded_refuses(
    s: State,
    jobs: Seq<Job>,
    wid: Seq<char>,
    f: Doc,
    sc: Setting,
    env: Around,
)
    requires
        s.wal.degraded,
        persistent_ops().contains(op_of(f)),
    ensures
        ({
            let (t, left, want) = s.dispatched(jobs, wid, f, sc, env);
            t == (State { outbox: t.outbox, ..s }) && left == jobs && want == Want::Again
        }),
{
}

/// A request for numbers gets the block that starts at the mark, once that is on the log;
/// the mark is then past the block, and so is the one that a restart finds. (The log's own
/// status is whatever the log made of it meanwhile.)
pub proof fn law_reservation_takes_its_block(
    s: State,
    jobs: Seq<Job>,
    wid: Seq<char>,
    f: Doc,
    sc: Setting,
    env: Around,
    wal: WalStatus,
    st: Store,
    resend: bool,
)
    requires
        !s.wal.degraded,
        s.workers.contains_key(wid),
        op_of(f) == "ReserveEntityIds"@,
        s.entity_id_reservations + reserve_count(f) <= u64::MAX,
        st.id_hwm <= s.entity_id_reservations,
    ensures
        ({
            let first = s.entity_id_reservations;
            let n = reserve_count(f);
            let next = (first + n) as u64;
            let ev = reserve_event(first, n, next);
            let (t, more, want) = s.dispatched(jobs, wid, f, sc, env);
            let (u, left, _) = (State { wal, ..t }).stepped(more, Reply::Went(true), env);
            &&& want == Want::Commit(ev)
            &&& left == jobs
            &&& u == (State {
                wal,
                entity_id_reservations: next,
                outbox: s.outbox.push(Sent::Peer { wid, msg: block_given(f, first, n) }),
                ..s
            })
            &&& st.replayed(ev, resend) == (Store { id_hwm: next, ..st })
        }),
{
    reveal(State::hear_reserve);
    reveal(State::on_reserve);
    reveal_strlit("ReserveEntityIds");
    reveal_strlit("CreateEntity");
    reveal_strlit("DeleteEntity");
    reveal_strlit("ThresholdTx");
    reveal_strlit("UpdateComponent");
    reveal_strlit("BatchUpdate");
    reveal_strlit("Fold");
    reveal_strlit("SetComponentAuthority");
    reveal_strlit("AddComponent");
    reveal_strlit("RemoveComponent");
    reveal_strlit("Drain");
    assert("ReserveEntityIds"@.len() == 16 && "CreateEntity"@.len() == 12 && "DeleteEntity"@.len()
        == 12 && "ThresholdTx"@.len() == 11 && "UpdateComponent"@.len() == 15
        && "BatchUpdate"@.len() == 11 && "Fold"@.len() == 4 && "SetComponentAuthority"@.len() == 21
        && "AddComponent"@.len() == 12 && "RemoveComponent"@.len() == 15 && "Drain"@.len() == 5);
    let (t, more, want) = s.dispatched(jobs, wid, f, sc, env);
    assert(more.drop_last() =~= jobs);
    let first = s.entity_id_reservations;
    let next = (first + reserve_count(f)) as u64;
    crate::replay::law_reservation_replays(st, first, reserve_count(f), next, resend);
}

/// Two requests for numbers get adjoining blocks: the second starts where the first ended,
/// so that no number is given out twice, and a restart finds the mark where the second
/// ended.
pub proof fn law_reservations_adjoin(
    s: State,
    jobs: Seq<Job>,
    ask1: (Seq<char>, Doc, Setting),
    ask2: (Seq<char>, Doc, Setting),
    env: Around,
    wal: (WalStatus, WalStatus),
    st: Store,
    resend: bool,
)
    requires
        !s.wal.degraded,
        !wal.0.degraded,
        s.workers.contains_key(ask1.0),
        s.workers.contains_key(ask2.0),
        op_of(ask1.1) == "ReserveEntityIds"@,
        op_of(ask2.1) == "ReserveEntityIds"@,
        s.entity_id_reservations + reserve_count(ask1.1) + reserve_count(ask2.1) <= u64::MAX,
        st.id_hwm <= s.entity_id_reservations,
    ensures
        ({
            let n1 = reserve_count(ask1.1);
            let n2 = reserve_count(ask2.1);
            let a1 = s.entity_id_reservations;
            let a2 = (a1 + n1) as u64;
            let end = (a2 + n2) as u64;
            let (t1, more1, want1) = s.dispatched(jobs, ask1.0, ask1.1, ask1.2, env);
            let (u1, left1, _) = (State { wal: wal.0, ..t1 }).stepped(
                more1,
                Reply::Went(true),
                env,
            );
            let (t2, more2, want2) = u1.dispatched(left1, ask2.0, ask2.1, ask2.2, env);
            let (u2, left2, _) = (State { wal: wal.1, ..t2 }).stepped(
                more2,
                Reply::Went(true),
                env,
            );
            &&& want1 == Want::Commit(reserve_event(a1, n1, a2))
            &&& want2 == Want::Commit(reserve_event(a2, n2, end))
            &&& u2.outbox == s.outbox.push(
                Sent::Peer { wid: ask1.0, msg: block_given(ask1.1, a1, n1) },
            ).push(Sent::Peer { wid: ask2.0, msg: block_given(ask2.1, a2, n2) })
            &&& u2.entity_id_reservations == end
            &&& left2 == jobs
            &&& st.replayed(want1->Commit_0, resend).replayed(want2->Commit_0, resend) == (Store {
                id_hwm: end,
                ..st
            })
        }),
{
    law_reservation_takes_its_block(s, jobs, ask1.0, ask1.1, ask1.2, env, wal.0, st, resend);
    let n1 = reserve_count(ask1.1);
    let a1 = s.entity_id_reservations;
    let a2 = (a1 + n1) as u64;
    let (t1, more1, want1) = s.dispatched(jobs, ask1.0, ask1.1, ask1.2, env);
    let (u1, left1, again1) = (State { wal: wal.0, ..t1 }).stepped(more1, Reply::Went(true), env);
    law_reservation_takes_its_block(
        u1,
        left1,
        ask2.0,
        ask2.1,
        ask2.2,
        env,
        wal.1,
        Store { id_hwm: a2, ..st },
        resend,
    );
}

}

//! Taking up a task, one step at a time.

use vstd::prelude::*;
use vstd::string::*;
use crate::adopt::{confirm_mesh_handoff, msg_entity, place_mesh_handoff, Place};
use crate::components::{finish_add_component, finish_authority_change, finish_remove_component};
use crate::control::finish_reserve;
use crate::dispatch::{
    answer_cell, answer_seen, answer_went, verdict_at, Adoption, Answer, Ask, Item, Job, Reply,
    Surroundings, Task, Want,
};
use crate::doc::Json;
use crate::failover::{
    flush_pending_block_migrations, flush_pending_failovers, prepared_block_migration_wal_event,
    prepared_failover_wal_event, queue_block_migration, queue_failover_grant,
};
use crate::handoff::{
    flush_pending_handoffs, handoff_event, prepared_handoff_wal_event, queue_prepared_handoff,
};
use crate::leases::check_leases;
use crate::lifecycle::{finish_create, finish_delete};
use crate::mesh::{
    complete_mesh_forward, note_departure_written, prepare_mesh_forward, record_mesh_ack, Departure,
};
use crate::moves::{
    flush_remote_handoff, handoff_with_position, next_part, refuse_fold, take_remote_handoffs, zone,
    Start,
};
use crate::publish::{propagate, renew};
use crate::rebalance::{re_route_one, rebalance_2d};
use crate::report::finish_drain;
use crate::schema::{finish_snapshot, plan_snapshot};
use crate::spawn::{complete_spawn, prepared_spawn_wal_event, register_event};
use crate::state::{views, Failover, Migration, PreparedUpdate, ServerState, State};
use crate::strmap::{texts, Dup, StrSet};
use crate::text::str_eq;
use crate::threshold::{finish_threshold, finish_threshold_timeout, threshold_timeout_event};
use crate::update::{
    apply_prepared_update, prepare_update, prepared_update_wal_event, queue_prepared_update,
    take_synced_updates, Verdict,
};

verus! {

broadcast use {crate::doc::group_json, crate::strmap::group_map};

/// Adds a task.
pub fn put(tasks: &mut Vec<Task>, t: Task)
    ensures
        views(final(tasks)@) == views(old(tasks)@).push(t@),
{
    let ghost before = views(tasks@);
    tasks.push(t);
    proof {
        assert(views(tasks@) =~= before.push(t@));
    }
}

fn step_items(
    s: &mut ServerState,
    tasks: &mut Vec<Task>,
    wid: String,
    comp: String,
    items: Vec<Item>,
    verdicts: Vec<Verdict>,
    next: usize,
    now_ms: u64,
) -> (r: Ask)
    ensures
        (final(s)@, views(final(tasks)@), r@) == old(s)@.item_step(
            views(old(tasks)@),
            wid@,
            comp@,
            views(items@),
            views(verdicts@),
            next as nat,
            now_ms,
        ),
{
    proof {
        assert(views(items@).len() == items@.len());
        assert(views(verdicts@).len() == verdicts@.len());
    }
    if next >= items.len() {
        return Ask::Again;
    }
    let none = Verdict::silent();
    let found: Option<PreparedUpdate> = {
        let i = &items[next];
        proof {
            assert(views(items@)[next as int] == i@);
        }
        let v: &Verdict = if next < verdicts.len() {
            &verdicts[next]
        } else {
            &none
        };
        proof {
            if next < verdicts@.len() {
                assert(views(verdicts@)[next as int] == verdicts@[next as int]@);
            }
            assert(v@ == verdict_at(views(verdicts@), next as int));
        }
        prepare_update(
            s,
            wid.as_str(),
            i.eid.as_str(),
            comp.as_str(),
            i.value.dup(),
            i.epoch,
            v,
            now_ms,
        )
    };
    put(tasks, Task::Items { wid, comp, items, verdicts, next: next + 1 });
    match found {
        Some(update) => {
            let ev = prepared_update_wal_event(&update);
            put(tasks, Task::Write { update });
            Ask::Append(ev)
        },
        None => Ask::Again,
    }
}

fn start_move(
    s: &mut ServerState,
    tasks: &mut Vec<Task>,
    eid: &str,
    from: &str,
    to: &str,
) -> (r: Ask)
    ensures
        (final(s)@, views(final(tasks)@), r@) == old(s)@.move_step(
            views(old(tasks)@),
            eid@,
            from@,
            to@,
        ),
{
    match handoff_with_position(s, eid, from, to, &None) {
        Start::Done(_) => Ask::Again,
        Start::Log(h) => {
            let ev = prepared_handoff_wal_event(&h);
            put(tasks, Task::Handoff { h });
            Ask::Append(ev)
        },
    }
}

fn start_leave(s: &ServerState, tasks: &mut Vec<Task>, d: Option<Departure>, eid: &str, target: &str) -> (r: Ask)
    requires
        match d {
            Some(d) => d@ == s@.departure_of(eid@, target@),
            None => true,
        },
    ensures
        (views(final(tasks)@), r@) == match d {
            Some(d) => (
                views(old(tasks)@).push(Job::Leaving { d: d@ }),
                Want::Append(s@.departure_of(eid@, target@).event),
            ),
            None => (views(old(tasks)@), Want::Again),
        },
{
    match d {
        Some(d) => {
            let ev = d.event.dup();
            put(tasks, Task::Leaving { d });
            Ask::Append(ev)
        },
        None => Ask::Again,
    }
}

fn step_adopt(
    s: &mut ServerState,
    tasks: &mut Vec<Task>,
    wid: String,
    f: Json,
    cell: String,
    near: StrSet,
) -> (r: Ask)
    ensures
        ({
            let o = old(s)@;
            let t = o.placed(f@, cell@);
            (final(s)@, views(final(tasks)@), r@) == match o.adoption(f@, cell@) {
                Adoption::Stop => (t, views(old(tasks)@), Want::Again),
                Adoption::Known => (
                    t.confirmed(wid@, msg_entity(f@)),
                    views(old(tasks)@),
                    Want::Again,
                ),
                Adoption::New(spawn) => (
                    t,
                    views(old(tasks)@).push(Job::Adopted { wid: wid@, f: f@, spawn, near: near@ }),
                    Want::Commit(register_event(spawn.0, spawn.2, spawn.1)),
                ),
            }
        }),
{
    match place_mesh_handoff(s, &f, cell.as_str()) {
        Place::Stop => Ask::Again,
        Place::Known(_) => {
            confirm_mesh_handoff(s, wid.as_str(), f.str_or("entity", ""));
            Ask::Again
        },
        Place::New(spawn) => {
            let ev = prepared_spawn_wal_event(&spawn);
            put(tasks, Task::Adopted { wid, f, spawn, near });
            Ask::Commit(ev)
        },
    }
}

fn step_zone(
    s: &mut ServerState,
    tasks: &mut Vec<Task>,
    eid: String,
    comp: String,
    value: Json,
    cell: &str,
) -> (r: Ask)
    ensures
        ({
            let o = old(s)@;
            let t = o.zoned(eid@, comp@, cell@);
            let more = views(old(tasks)@).push(
                Job::Show { eid: eid@, comp: comp@, value: value@ },
            );
            (final(s)@, views(final(tasks)@), r@) == match o.zone_target(eid@, comp@, cell@) {
                Some(to) => t.move_step(more, eid@, o.entities[eid@].region, to),
                None => (t, more, Want::Again),
            }
        }),
{
    let from: String = match s.entities.get(eid.as_str()) {
        Some(e) => e.region.clone(),
        None => String::new(),
    };
    let target = zone(s, eid.as_str(), comp.as_str(), cell);
    let name = eid.clone();
    put(tasks, Task::Show { eid, comp, value });
    match target {
        Some(to) => start_move(s, tasks, name.as_str(), from.as_str(), to.as_str()),
        None => Ask::Again,
    }
}

fn step_parts(s: &ServerState, tasks: &mut Vec<Task>, mut parts: Vec<String>, to: String) -> (r: Ask)
    ensures
        ({
            let (left, h) = s@.next_part_of(texts(parts@), to@);
            (views(final(tasks)@), r@) == match h {
                Some(h) => (
                    views(old(tasks)@).push(Job::Parts { parts: left, to: to@ }).push(
                        Job::Handoff { h },
                    ),
                    Want::Append(handoff_event(h)),
                ),
                None => (views(old(tasks)@), Want::Again),
            }
        }),
{
    match next_part(s, &mut parts, to.as_str()) {
        Some(h) => {
            let ev = prepared_handoff_wal_event(&h);
            put(tasks, Task::Parts { parts, to });
            put(tasks, Task::Handoff { h });
            Ask::Append(ev)
        },
        None => Ask::Again,
    }
}

fn put_flush_end(tasks: &mut Vec<Task>)
    ensures
        views(final(tasks)@) == views(old(tasks)@).push(Job::Crossings).push(
            Job::SyncMigrations,
        ).push(Job::SyncFailovers).push(Job::SyncHandoffs),
{
    put(tasks, Task::Crossings);
    put(tasks, Task::SyncMigrations);
    put(tasks, Task::SyncFailovers);
    put(tasks, Task::SyncHandoffs);
}

fn step_record(
    s: &mut ServerState,
    tasks: &mut Vec<Task>,
    t: Task,
    went: bool,
    env: &Surroundings,
    Ghost(a): Ghost<Reply>,
) -> (r: Ask)
    requires
        t@ is Write || t@ is Acked || t@ is AckFirst,
        went == a.went(),
    ensures
        (final(s)@, views(final(tasks)@), r@) == old(s)@.stepped(
            views(old(tasks)@).push(t@),
            a,
            env@,
        ),
{
    let ghost rest = views(tasks@);
    proof {
        reveal(State::on_write);
        reveal(State::on_acked);
        reveal(State::on_ack_first);
        assert(rest.push(t@).drop_last() =~= rest);
        assert(rest.push(t@).last() == t@);
    }
    match t {
        Task::Write { update } => {
            queue_prepared_update(s, update, went);
        },
        Task::Acked { eid } => {
            record_mesh_ack(s, eid.as_str(), went);
        },
        Task::AckFirst { wid, f, cell, near } => {
            record_mesh_ack(s, f.str_or("entity", ""), went);
            if went {
                put(tasks, Task::Adopt { wid, f, cell, near });
            }
        },
        _ => {},
    }
    Ask::Again
}

fn step_create(
    s: &mut ServerState,
    tasks: &mut Vec<Task>,
    t: Task,
    went: bool,
    env: &Surroundings,
    Ghost(a): Ghost<Reply>,
) -> (r: Ask)
    requires
        t@ is Create,
        went == a.went(),
    ensures
        (final(s)@, views(final(tasks)@), r@) == old(s)@.stepped(
            views(old(tasks)@).push(t@),
            a,
            env@,
        ),
{
    let ghost rest = views(tasks@);
    proof {
        reveal(State::on_create);
        assert(rest.push(t@).drop_last() =~= rest);
        assert(rest.push(t@).last() == t@);
    }
    match t {
        Task::Create { wid, f, spawn, near } => {
            let eid = spawn.eid.clone();
            complete_spawn(s, spawn, went, &near);
            finish_create(s, wid.as_str(), &f, eid.as_str(), went);
        },
        _ => {},
    }
    Ask::Again
}

fn step_delete(
    s: &mut ServerState,
    tasks: &mut Vec<Task>,
    t: Task,
    went: bool,
    env: &Surroundings,
    Ghost(a): Ghost<Reply>,
) -> (r: Ask)
    requires
        t@ is Delete || t@ is Reserve,
        went == a.went(),
    ensures
        (final(s)@, views(final(tasks)@), r@) == old(s)@.stepped(
            views(old(tasks)@).push(t@),
            a,
            env@,
        ),
{
    let ghost rest = views(tasks@);
    proof {
        reveal(State::on_delete);
        reveal(State::on_reserve);
        assert(rest.push(t@).drop_last() =~= rest);
        assert(rest.push(t@).last() == t@);
    }
    match t {
        Task::Delete { wid, f } => {
            finish_delete(s, wid.as_str(), &f, f.str_or("entity", ""), went);
        },
        Task::Reserve { wid, f } => {
            finish_reserve(s, wid.as_str(), &f, went);
        },
        _ => {},
    }
    Ask::Again
}

fn step_authority(
    s: &mut ServerState,
    tasks: &mut Vec<Task>,
    t: Task,
    went: bool,
    env: &Surroundings,
    Ghost(a): Ghost<Reply>,
) -> (r: Ask)
    requires
        t@ is Authority,
        went == a.went(),
    ensures
        (final(s)@, views(final(tasks)@), r@) == old(s)@.stepped(
            views(old(tasks)@).push(t@),
            a,
            env@,
        ),
{
    let ghost rest = views(tasks@);
    proof {
        reveal(State::on_authority);
        assert(rest.push(t@).drop_last() =~= rest);
        assert(rest.push(t@).last() == t@);
    }
    match t {
        Task::Authority { wid, f, change } => {
            finish_authority_change(s, wid.as_str(), &f, &change, went);
        },
        _ => {},
    }
    Ask::Again
}

fn step_component(
    s: &mut ServerState,
    tasks: &mut Vec<Task>,
    t: Task,
    went: bool,
    env: &Surroundings,
    Ghost(a): Ghost<Reply>,
) -> (r: Ask)
    requires
        t@ is AddComponent || t@ is RemoveComponent,
        went == a.went(),
    ensures
        (final(s)@, views(final(tasks)@), r@) == old(s)@.stepped(
            views(old(tasks)@).push(t@),
            a,
            env@,
        ),
{
    let ghost rest = views(tasks@);
    proof {
        reveal(State::on_add_component);
        reveal(State::on_remove_component);
        assert(rest.push(t@).drop_last() =~= rest);
        assert(rest.push(t@).last() == t@);
    }
    match t {
        Task::AddComponent { wid, f } => {
            finish_add_component(s, wid.as_str(), &f, went);
        },
        Task::RemoveComponent { wid, f } => {
            finish_remove_component(s, wid.as_str(), &f, went);
        },
        _ => {},
    }
    Ask::Again
}

fn step_threshold(
    s: &mut ServerState,
    tasks: &mut Vec<Task>,
    t: Task,
    went: bool,
    env: &Surroundings,
    Ghost(a): Ghost<Reply>,
) -> (r: Ask)
    requires
        t@ is Threshold,
        went == a.went(),
    ensures
        (final(s)@, views(final(tasks)@), r@) == old(s)@.stepped(
            views(old(tasks)@).push(t@),
            a,
            env@,
        ),
{
    let ghost rest = views(tasks@);
    proof {
        reveal(State::on_threshold);
        assert(rest.push(t@).drop_last() =~= rest);
        assert(rest.push(t@).last() == t@);
    }
    match t {
        Task::Threshold { wid, f, plan } => {
            finish_threshold(s, wid.as_str(), &f, &plan, went);
        },
        _ => {},
    }
    Ask::Again
}

fn step_adopted(
    s: &mut ServerState,
    tasks: &mut Vec<Task>,
    t: Task,
    went: bool,
    env: &Surroundings,
    Ghost(a): Ghost<Reply>,
) -> (r: Ask)
    requires
        t@ is Adopted,
        went == a.went(),
    ensures
        (final(s)@, views(final(tasks)@), r@) == old(s)@.stepped(
            views(old(tasks)@).push(t@),
            a,
            env@,
        ),
{
    let ghost rest = views(tasks@);
    proof {
        reveal(State::on_adopted);
        assert(rest.push(t@).drop_last() =~= rest);
        assert(rest.push(t@).last() == t@);
    }
    match t {
        Task::Adopted { wid, spawn, near, .. } => {
            let eid = spawn.eid.clone();
            complete_spawn(s, spawn, went, &near);
            if went {
                confirm_mesh_handoff(s, wid.as_str(), eid.as_str());
            }
        },
        _ => {},
    }
    Ask::Again
}

fn step_answer(
    s: &mut ServerState,
    tasks: &mut Vec<Task>,
    t: Task,
    went: bool,
    env: &Surroundings,
    Ghost(a): Ghost<Reply>,
) -> (r: Ask)
    requires
        t@ is SnapshotLogged || t@ is DrainEnd,
        went == a.went(),
    ensures
        (final(s)@, views(final(tasks)@), r@) == old(s)@.stepped(
            views(old(tasks)@).push(t@),
            a,
            env@,
        ),
{
    let ghost rest = views(tasks@);
    proof {
        reveal(State::on_snapshot_logged);
        reveal(State::on_drain_end);
        assert(rest.push(t@).drop_last() =~= rest);
        assert(rest.push(t@).last() == t@);
    }
    let now: u64 = env.gauges.now_ms;
    match t {
        Task::SnapshotLogged { wid, f } => {
            finish_snapshot(s, wid.as_str(), &f, went, &env.me, now);
        },
        Task::DrainEnd { wid, f, dispatched } => {
            finish_drain(s, wid.as_str(), &f, dispatched);
        },
        _ => {},
    }
    Ask::Again
}

fn step_stage(
    s: &mut ServerState,
    tasks: &mut Vec<Task>,
    t: Task,
    went: bool,
    env: &Surroundings,
    Ghost(a): Ghost<Reply>,
) -> (r: Ask)
    requires
        t@ is Failover || t@ is Migration,
        went == a.went(),
    ensures
        (final(s)@, views(final(tasks)@), r@) == old(s)@.stepped(
            views(old(tasks)@).push(t@),
            a,
            env@,
        ),
{
    let ghost rest = views(tasks@);
    proof {
        reveal(State::on_failover);
        reveal(State::on_migration);
        assert(rest.push(t@).drop_last() =~= rest);
        assert(rest.push(t@).last() == t@);
    }
    match t {
        Task::Failover { failover } => {
            queue_failover_grant(s, failover, went);
        },
        Task::Migration { m } => {
            queue_block_migration(s, m, went);
        },
        _ => {},
    }
    Ask::Again
}

fn step_timeout(
    s: &mut ServerState,
    tasks: &mut Vec<Task>,
    t: Task,
    went: bool,
    env: &Surroundings,
    Ghost(a): Ghost<Reply>,
) -> (r: Ask)
    requires
        t@ is TimedOut,
        went == a.went(),
    ensures
        (final(s)@, views(final(tasks)@), r@) == old(s)@.stepped(
            views(old(tasks)@).push(t@),
            a,
            env@,
        ),
{
    let ghost rest = views(tasks@);
    proof {
        reveal(State::on_timed_out);
        assert(rest.push(t@).drop_last() =~= rest);
        assert(rest.push(t@).last() == t@);
    }
    match t {
        Task::TimedOut { eid } => {
            finish_threshold_timeout(s, eid.as_str(), went);
        },
        _ => {},
    }
    Ask::Again
}

fn step_flush(
    s: &mut ServerState,
    tasks: &mut Vec<Task>,
    t: Task,
    went: bool,
    env: &Surroundings,
    Ghost(a): Ghost<Reply>,
) -> (r: Ask)
    requires
        t@ is Flush || t@ is WritesSynced,
        went == a.went(),
    ensures
        (final(s)@, views(final(tasks)@), r@) == old(s)@.stepped(
            views(old(tasks)@).push(t@),
            a,
            env@,
        ),
{
    let ghost rest = views(tasks@);
    proof {
        reveal(State::on_flush);
        reveal(State::on_writes_synced);
        assert(rest.push(t@).drop_last() =~= rest);
        assert(rest.push(t@).last() == t@);
        assert(s@.pending_updates.len() == s.pending_updates@.len());
    }
    match t {
        Task::Flush => {
            if s.pending_updates.len() == 0 {
                put_flush_end(tasks);
                return Ask::Again;
            }
            put(tasks, Task::WritesSynced);
            return Ask::Sync;
        },
        Task::WritesSynced => {
            let updates = take_synced_updates(s, went);
            if went {
                put_flush_end(tasks);
                put(tasks, Task::Publish { updates, next: 0 });
            }
        },
        _ => {},
    }
    Ask::Again
}

fn step_publish(
    s: &mut ServerState,
    tasks: &mut Vec<Task>,
    t: Task,
    went: bool,
    env: &Surroundings,
    Ghost(a): Ghost<Reply>,
) -> (r: Ask)
    requires
        t@ is Publish,
        went == a.went(),
    ensures
        (final(s)@, views(final(tasks)@), r@) == old(s)@.stepped(
            views(old(tasks)@).push(t@),
            a,
            env@,
        ),
{
    let ghost rest = views(tasks@);
    proof {
        reveal(State::on_publish);
        assert(rest.push(t@).drop_last() =~= rest);
        assert(rest.push(t@).last() == t@);
    }
    let now: u64 = env.gauges.now_ms;
    match t {
        Task::Publish { updates, next } => {
            proof {
                assert(views(updates@).len() == updates@.len());
            }
            if next >= updates.len() {
                return Ask::Again;
            }
            let (eid, comp, value) = {
                let u = &updates[next];
                proof {
                    assert(views(updates@)[next as int] == u@);
                }
                apply_prepared_update(s, u);
                renew(s, u.writer.as_str(), now);
                (u.eid.clone(), u.comp.clone(), u.value.dup())
            };
            put(tasks, Task::Publish { updates, next: next + 1 });
            let placed: bool = str_eq(comp.as_str(), "pos");
            let name = eid.clone();
            put(tasks, Task::Zone { eid, comp, value });
            if placed {
                return Ask::Cell(name);
            }
        },
        _ => {},
    }
    Ask::Again
}

fn step_handoffs(
    s: &mut ServerState,
    tasks: &mut Vec<Task>,
    t: Task,
    went: bool,
    env: &Surroundings,
    Ghost(a): Ghost<Reply>,
) -> (r: Ask)
    requires
        t@ is SyncHandoffs || t@ is HandoffsSynced,
        went == a.went(),
    ensures
        (final(s)@, views(final(tasks)@), r@) == old(s)@.stepped(
            views(old(tasks)@).push(t@),
            a,
            env@,
        ),
{
    let ghost rest = views(tasks@);
    proof {
        reveal(State::on_sync_handoffs);
        reveal(State::on_handoffs_synced);
        assert(rest.push(t@).drop_last() =~= rest);
        assert(rest.push(t@).last() == t@);
        assert(s@.pending_handoffs.len() == s.pending_handoffs@.len());
    }
    match t {
        Task::SyncHandoffs => {
            if s.pending_handoffs.len() > 0 {
                put(tasks, Task::HandoffsSynced);
                return Ask::Sync;
            }
        },
        Task::HandoffsSynced => {
            flush_pending_handoffs(s, went);
        },
        _ => {},
    }
    Ask::Again
}

fn step_failovers(
    s: &mut ServerState,
    tasks: &mut Vec<Task>,
    t: Task,
    went: bool,
    env: &Surroundings,
    Ghost(a): Ghost<Reply>,
) -> (r: Ask)
    requires
        t@ is SyncFailovers || t@ is FailoversSynced,
        went == a.went(),
    ensures
        (final(s)@, views(final(tasks)@), r@) == old(s)@.stepped(
            views(old(tasks)@).push(t@),
            a,
            env@,
        ),
{
    let ghost rest = views(tasks@);
    proof {
        reveal(State::on_sync_failovers);
        reveal(State::on_failovers_synced);
        assert(rest.push(t@).drop_last() =~= rest);
        assert(rest.push(t@).last() == t@);
        assert(s@.pending_failovers.len() == s.pending_failovers@.len());
    }
    match t {
        Task::SyncFailovers => {
            if s.pending_failovers.len() > 0 {
                put(tasks, Task::FailoversSynced);
                return Ask::Sync;
            }
        },
        Task::FailoversSynced => {
            flush_pending_failovers(s, went);
        },
        _ => {},
    }
    Ask::Again
}

fn step_migrations(
    s: &mut ServerState,
    tasks: &mut Vec<Task>,
    t: Task,
    went: bool,
    env: &Surroundings,
    Ghost(a): Ghost<Reply>,
) -> (r: Ask)
    requires
        t@ is SyncMigrations || t@ is MigrationsSynced,
        went == a.went(),
    ensures
        (final(s)@, views(final(tasks)@), r@) == old(s)@.stepped(
            views(old(tasks)@).push(t@),
            a,
            env@,
        ),
{
    let ghost rest = views(tasks@);
    proof {
        reveal(State::on_sync_migrations);
        reveal(State::on_migrations_synced);
        assert(rest.push(t@).drop_last() =~= rest);
        assert(rest.push(t@).last() == t@);
        assert(s@.pending_block_migrations.len() == s.pending_block_migrations@.len());
    }
    match t {
        Task::SyncMigrations => {
            if s.pending_block_migrations.len() > 0 {
                put(tasks, Task::MigrationsSynced);
                return Ask::Sync;
            }
        },
        Task::MigrationsSynced => {
            flush_pending_block_migrations(s, went);
        },
        _ => {},
    }
    Ask::Again
}

fn step_fold(
    s: &mut ServerState,
    tasks: &mut Vec<Task>,
    t: Task,
    a: &Answer,
    env: &Surroundings,
) -> (r: Ask)
    requires
        t@ is Fold,
    ensures
        (final(s)@, views(final(tasks)@), r@) == old(s)@.stepped(
            views(old(tasks)@).push(t@),
            a@,
            env@,
        ),
{
    let ghost rest = views(tasks@);
    proof {
        reveal(State::on_fold);
        assert(rest.push(t@).drop_last() =~= rest);
        assert(rest.push(t@).last() == t@);
    }
    let went: bool = answer_went(a);
    match t {
        Task::Fold { wid, h } => {
            let eid = h.eid.clone();
            let to = h.to.clone();
            if !went {
                refuse_fold(s, wid.as_str(), eid.as_str());
                return Ask::Again;
            }
            let parts = queue_prepared_handoff(s, h, true);
            put(tasks, Task::FoldEnd { eid });
            put(tasks, Task::Crossings);
            put(tasks, Task::SyncHandoffs);
            put(tasks, Task::Parts { parts, to });
        },
        _ => {},
    }
    Ask::Again
}

fn step_handoff(
    s: &mut ServerState,
    tasks: &mut Vec<Task>,
    t: Task,
    a: &Answer,
    env: &Surroundings,
) -> (r: Ask)
    requires
        t@ is FoldEnd || t@ is Handoff,
    ensures
        (final(s)@, views(final(tasks)@), r@) == old(s)@.stepped(
            views(old(tasks)@).push(t@),
            a@,
            env@,
        ),
{
    let ghost rest = views(tasks@);
    proof {
        reveal(State::on_fold_end);
        reveal(State::on_handoff);
        assert(rest.push(t@).drop_last() =~= rest);
        assert(rest.push(t@).last() == t@);
    }
    let went: bool = answer_went(a);
    match t {
        Task::FoldEnd { eid } => {
            let pos: Option<Json> = match s.entities.get(eid.as_str()) {
                Some(e) => Some(e.pos.json()),
                None => None,
            };
            if let Some(value) = pos {
                put(tasks, Task::Show { eid, comp: "pos".to_owned(), value });
            }
        },
        Task::Handoff { h } => {
            let to = h.to.clone();
            let parts = queue_prepared_handoff(s, h, went);
            if went {
                put(tasks, Task::Parts { parts, to });
            }
        },
        _ => {},
    }
    Ask::Again
}

fn step_crossings(
    s: &mut ServerState,
    tasks: &mut Vec<Task>,
    t: Task,
    a: &Answer,
    env: &Surroundings,
) -> (r: Ask)
    requires
        t@ is Crossings || t@ is Cross,
    ensures
        (final(s)@, views(final(tasks)@), r@) == old(s)@.stepped(
            views(old(tasks)@).push(t@),
            a@,
            env@,
        ),
{
    let ghost rest = views(tasks@);
    proof {
        reveal(State::on_crossings);
        reveal(State::on_cross);
        assert(rest.push(t@).drop_last() =~= rest);
        assert(rest.push(t@).last() == t@);
    }
    match t {
        Task::Crossings => {
            let list = take_remote_handoffs(s);
            put(tasks, Task::Cross { list, next: 0 });
        },
        Task::Cross { list, next } => {
            proof {
                assert(views(list@).len() == list@.len());
            }
            if next < list.len() {
                proof {
                    assert(views(list@)[next as int] == list@[next as int]@);
                }
                let eid = list[next].eid.clone();
                put(tasks, Task::CrossAt { list, next });
                return Ask::Cell(eid);
            }
        },
        _ => {},
    }
    Ask::Again
}

fn step_cross(
    s: &mut ServerState,
    tasks: &mut Vec<Task>,
    t: Task,
    a: &Answer,
    env: &Surroundings,
) -> (r: Ask)
    requires
        t@ is CrossAt,
    ensures
        (final(s)@, views(final(tasks)@), r@) == old(s)@.stepped(
            views(old(tasks)@).push(t@),
            a@,
            env@,
        ),
{
    let ghost rest = views(tasks@);
    proof {
        reveal(State::on_cross_at);
        assert(rest.push(t@).drop_last() =~= rest);
        assert(rest.push(t@).last() == t@);
    }
    match t {
        Task::CrossAt { list, next } => {
            proof {
                assert(views(list@).len() == list@.len());
            }
            if next < list.len() {
                proof {
                    assert(views(list@)[next as int] == list@[next as int]@);
                }
                let d = flush_remote_handoff(s, &list[next], answer_cell(a));
                let eid = list[next].eid.clone();
                let target = list[next].target.clone();
                put(tasks, Task::Cross { list, next: next + 1 });
                return start_leave(s, tasks, d, eid.as_str(), target.as_str());
            }
        },
        _ => {},
    }
    Ask::Again
}

fn step_depart(
    s: &mut ServerState,
    tasks: &mut Vec<Task>,
    t: Task,
    a: &Answer,
    env: &Surroundings,
) -> (r: Ask)
    requires
        t@ is Depart,
    ensures
        (final(s)@, views(final(tasks)@), r@) == old(s)@.stepped(
            views(old(tasks)@).push(t@),
            a@,
            env@,
        ),
{
    let ghost rest = views(tasks@);
    proof {
        reveal(State::on_depart);
        assert(rest.push(t@).drop_last() =~= rest);
        assert(rest.push(t@).last() == t@);
    }
    match t {
        Task::Depart { list, next } => {
            proof {
                assert(views(list@).len() == list@.len());
            }
            if next < list.len() {
                proof {
                    assert(views(list@)[next as int] == list@[next as int]@);
                }
                let d = prepare_mesh_forward(s, list[next].eid.as_str(), list[next].target.as_str());
                let eid = list[next].eid.clone();
                let target = list[next].target.clone();
                put(tasks, Task::Depart { list, next: next + 1 });
                return start_leave(s, tasks, d, eid.as_str(), target.as_str());
            }
        },
        _ => {},
    }
    Ask::Again
}

fn step_leave(
    s: &mut ServerState,
    tasks: &mut Vec<Task>,
    t: Task,
    a: &Answer,
    env: &Surroundings,
) -> (r: Ask)
    requires
        t@ is Leaving || t@ is Left,
    ensures
        (final(s)@, views(final(tasks)@), r@) == old(s)@.stepped(
            views(old(tasks)@).push(t@),
            a@,
            env@,
        ),
{
    let ghost rest = views(tasks@);
    proof {
        reveal(State::on_leaving);
        reveal(State::on_left);
        assert(rest.push(t@).drop_last() =~= rest);
        assert(rest.push(t@).last() == t@);
    }
    let went: bool = answer_went(a);
    let now: u64 = env.gauges.now_ms;
    match t {
        Task::Leaving { d } => {
            if went {
                note_departure_written(s, &d);
                put(tasks, Task::Left { d });
                return Ask::Sync;
            }
        },
        Task::Left { d } => {
            if went {
                complete_mesh_forward(s, &d, now);
            }
        },
        _ => {},
    }
    Ask::Again
}

fn step_reroute(
    s: &mut ServerState,
    tasks: &mut Vec<Task>,
    t: Task,
    a: &Answer,
    env: &Surroundings,
) -> (r: Ask)
    requires
        t@ is Reroute,
    ensures
        (final(s)@, views(final(tasks)@), r@) == old(s)@.stepped(
            views(old(tasks)@).push(t@),
            a@,
            env@,
        ),
{
    let ghost rest = views(tasks@);
    proof {
        reveal(State::on_reroute);
        assert(rest.push(t@).drop_last() =~= rest);
        assert(rest.push(t@).last() == t@);
    }
    match t {
        Task::Reroute { eids, next } => {
            proof {
                assert(texts(eids@).len() == eids@.len());
            }
            if next < eids.len() {
                proof {
                    assert(texts(eids@)[next as int] == eids@[next as int]@);
                }
                let eid = eids[next].clone();
                let name = eids[next].clone();
                put(tasks, Task::Reroute { eids, next: next + 1 });
                put(tasks, Task::RerouteAt { eid });
                return Ask::Cell(name);
            }
        },
        _ => {},
    }
    Ask::Again
}

fn step_reroute_at(
    s: &mut ServerState,
    tasks: &mut Vec<Task>,
    t: Task,
    a: &Answer,
    env: &Surroundings,
) -> (r: Ask)
    requires
        t@ is RerouteAt,
    ensures
        (final(s)@, views(final(tasks)@), r@) == old(s)@.stepped(
            views(old(tasks)@).push(t@),
            a@,
            env@,
        ),
{
    let ghost rest = views(tasks@);
    proof {
        reveal(State::on_reroute_at);
        assert(rest.push(t@).drop_last() =~= rest);
        assert(rest.push(t@).last() == t@);
    }
    match t {
        Task::RerouteAt { eid } => {
            let from: String = match s.entities.get(eid.as_str()) {
                Some(e) => e.region.clone(),
                None => String::new(),
            };
            if let Some(to) = re_route_one(s, eid.as_str(), answer_cell(a)) {
                return start_move(s, tasks, eid.as_str(), from.as_str(), to.as_str());
            }
        },
        _ => {},
    }
    Ask::Again
}

fn step_watch(
    s: &mut ServerState,
    tasks: &mut Vec<Task>,
    t: Task,
    env: &Surroundings,
    Ghost(a): Ghost<Reply>,
) -> (r: Ask)
    requires
        t@ is Snapshot || t@ is Leases || t@ is Rebalance2d || t@ is Timeouts,
    ensures
        (final(s)@, views(final(tasks)@), r@) == old(s)@.stepped(
            views(old(tasks)@).push(t@),
            a,
            env@,
        ),
{
    let ghost rest = views(tasks@);
    proof {
        reveal(State::on_snapshot);
        reveal(State::on_leases);
        reveal(State::on_rebalance_2d);
        reveal(State::on_timeouts);
        assert(rest.push(t@).drop_last() =~= rest);
        assert(rest.push(t@).last() == t@);
    }
    let now: u64 = env.gauges.now_ms;
    match t {
        Task::Snapshot { wid, f } => {
            if let Some(ev) = plan_snapshot(s, wid.as_str(), &f, now) {
                put(tasks, Task::SnapshotLogged { wid, f });
                return Ask::Commit(ev);
            }
        },
        Task::Leases { regions, next } => {
            let (i, found) = check_leases(s, &regions, next, now);
            if let Some(f) = found {
                let ev = prepared_failover_wal_event(&f);
                put(tasks, Task::Leases { regions, next: i });
                put(tasks, Task::Failover { failover: f });
                return Ask::Append(ev);
            }
        },
        Task::Rebalance2d => {
            if let Some(m) = rebalance_2d(s) {
                let ev = prepared_block_migration_wal_event(&m);
                put(tasks, Task::Migration { m });
                return Ask::Append(ev);
            }
        },
        Task::Timeouts { ids, next } => {
            proof {
                assert(texts(ids@).len() == ids@.len());
            }
            if next < ids.len() {
                proof {
                    assert(texts(ids@)[next as int] == ids@[next as int]@);
                }
                let eid = ids[next].clone();
                put(tasks, Task::Timeouts { ids, next: next + 1 });
                if let Some(ev) = threshold_timeout_event(s, eid.as_str()) {
                    put(tasks, Task::TimedOut { eid });
                    return Ask::Commit(ev);
                }
            }
        },
        _ => {},
    }
    Ask::Again
}

fn step_basic(
    s: &mut ServerState,
    tasks: &mut Vec<Task>,
    t: Task,
    a: Answer,
    env: &Surroundings,
) -> (r: Ask)
    requires
        t@ is Items || t@ is Adopt || t@ is Zone || t@ is Parts || t@ is Show || t@ is Spread,
    ensures
        (final(s)@, views(final(tasks)@), r@) == old(s)@.stepped(
            views(old(tasks)@).push(t@),
            a@,
            env@,
        ),
{
    let ghost rest = views(tasks@);
    proof {
        reveal(State::on_items);
        reveal(State::on_adopt);
        reveal(State::on_zone);
        reveal(State::on_parts);
        reveal(State::on_show);
        reveal(State::on_spread);
        assert(rest.push(t@).drop_last() =~= rest);
        assert(rest.push(t@).last() == t@);
    }
    match t {
        Task::Items { wid, comp, items, verdicts, next } => step_items(
            s,
            tasks,
            wid,
            comp,
            items,
            verdicts,
            next,
            env.gauges.now_ms,
        ),
        Task::Adopt { wid, f, cell, near } => step_adopt(s, tasks, wid, f, cell, near),
        Task::Zone { eid, comp, value } => step_zone(s, tasks, eid, comp, value, answer_cell(&a)),
        Task::Parts { parts, to } => step_parts(s, tasks, parts, to),
        Task::Show { eid, comp, value } => {
            let r = Ask::Sights { eid: eid.clone(), comp: comp.clone(), value: value.dup() };
            put(tasks, Task::Spread { eid, comp, value });
            r
        },
        Task::Spread { eid, comp, value } => {
            let seen = answer_seen(a);
            propagate(s, eid.as_str(), comp.as_str(), &value, &seen);
            Ask::Again
        },
        _ => Ask::Again,
    }
}

/// Takes up the latest task. What comes back is what the next step needs.
pub fn step(s: &mut ServerState, tasks: &mut Vec<Task>, a: Answer, env: &Surroundings) -> (r: Ask)
    ensures
        (final(s)@, views(final(tasks)@), r@) == old(s)@.stepped(views(old(tasks)@), a@, env@),
{
    let ghost jobs = views(tasks@);
    proof {
        assert(jobs.len() == tasks@.len());
    }
    let t = match tasks.pop() {
        Some(t) => t,
        None => return Ask::Done,
    };
    let ghost rest = views(tasks@);
    proof {
        assert(jobs.last() == t@);
        assert(rest =~= jobs.drop_last());
        assert(rest.push(t@) =~= jobs);
    }
    let went: bool = answer_went(&a);
    match t {
        Task::Items { .. } | Task::Adopt { .. } | Task::Zone { .. } | Task::Parts { .. }
        | Task::Show { .. } | Task::Spread { .. } => step_basic(s, tasks, t, a, env),
        Task::Snapshot { .. } | Task::Leases { .. } | Task::Rebalance2d | Task::Timeouts { .. } =>
            step_watch(s, tasks, t, env, Ghost(a@)),
        Task::Write { .. } | Task::Acked { .. } | Task::AckFirst { .. } => step_record(s, tasks, t, went, env, Ghost(a@)),
        Task::Create { .. } => step_create(s, tasks, t, went, env, Ghost(a@)),
        Task::Delete { .. } | Task::Reserve { .. } => step_delete(s, tasks, t, went, env, Ghost(a@)),
        Task::Authority { .. } => step_authority(s, tasks, t, went, env, Ghost(a@)),
        Task::AddComponent { .. } | Task::RemoveComponent { .. } => step_component(s, tasks, t, went, env, Ghost(a@)),
        Task::Threshold { .. } => step_threshold(s, tasks, t, went, env, Ghost(a@)),
        Task::Adopted { .. } => step_adopted(s, tasks, t, went, env, Ghost(a@)),
        Task::SnapshotLogged { .. } | Task::DrainEnd { .. } => step_answer(s, tasks, t, went, env, Ghost(a@)),
        Task::Failover { .. } | Task::Migration { .. } => step_stage(s, tasks, t, went, env, Ghost(a@)),
        Task::TimedOut { .. } => step_timeout(s, tasks, t, went, env, Ghost(a@)),
        Task::Flush | Task::WritesSynced => step_flush(s, tasks, t, went, env, Ghost(a@)),
        Task::Publish { .. } => step_publish(s, tasks, t, went, env, Ghost(a@)),
        Task::SyncHandoffs | Task::HandoffsSynced => step_handoffs(s, tasks, t, went, env, Ghost(a@)),
        Task::SyncFailovers | Task::FailoversSynced => step_failovers(s, tasks, t, went, env, Ghost(a@)),
        Task::SyncMigrations | Task::MigrationsSynced => step_migrations(s, tasks, t, went, env, Ghost(a@)),
        Task::Fold { .. } => step_fold(s, tasks, t, &a, env),
        Task::FoldEnd { .. } | Task::Handoff { .. } => step_handoff(s, tasks, t, &a, env),
        Task::Crossings | Task::Cross { .. } => step_crossings(s, tasks, t, &a, env),
        Task::CrossAt { .. } => step_cross(s, tasks, t, &a, env),
        Task::Depart { .. } => step_depart(s, tasks, t, &a, env),
        Task::Leaving { .. } | Task::Left { .. } => step_leave(s, tasks, t, &a, env),
        Task::Reroute { .. } => step_reroute(s, tasks, t, &a, env),
        Task::RerouteAt { .. } => step_reroute_at(s, tasks, t, &a, env),
    }
}

}

//! What a snapshot is of: a flush leaves nothing behind, the offset that the manifest names
//! is the length of the log, and the log up to there replays to the world as it was.

use vstd::prelude::*;
use vstd::string::*;
use vstd::utf8::encode_utf8;
use crate::dispatch::{Around, Job, Reply, Setting, Want};
use crate::doc::Doc;
use crate::entity::Ent;
use crate::ledger::{
    agrees, awaited, in_flight, is_in_order, is_in_turn, is_settled, law_cut_replays_to_the_world,
    law_group_work_keeps_to_the_log, leaving, lemma_failovers_live, lemma_handoffs_queues,
    lemma_idle, lemma_left, lemma_migrations_live, lemma_move, lemma_told_queues, needs_log, told,
};
use crate::order::sorted;
use crate::policy::op_of;
use crate::recovery::{ent_replayed, ev_entity, settled, Store};
use crate::replay::{lemma_first_kinds, lemma_late_kinds};
use crate::schema::marker_event;
use crate::startup::recovered_store;
use crate::state::{State, WalStatus};
use crate::wal::{is_log, kind_of, law_offset_is_a_cut, log_error, span, total_span};
use crate::world::bodies;

verus! {

broadcast use {crate::doc::group_json, crate::strmap::group_map};

/// The turn of a task in a flush: what is done first has the highest number. Tasks that
/// are no part of a flush have none.
pub open spec fn turn(j: Job) -> int {
    if j is Flush || j is WritesSynced {
        5
    } else if j is Publish || j is Zone || j is Handoff || j is Parts || j is Show || j is Spread {
        4
    } else if j is SyncHandoffs || j is HandoffsSynced {
        3
    } else if j is SyncFailovers || j is FailoversSynced {
        2
    } else if j is SyncMigrations || j is MigrationsSynced {
        1
    } else if j is Crossings || j is Cross || j is CrossAt || j is Leaving || j is Left {
        0
    } else {
        -1
    }
}

/// Whether some tasks have one whose turn is as given, or a whole flush.
pub open spec fn is_due(jobs: Seq<Job>, n: int) -> bool {
    exists|i: int| 0 <= i < jobs.len() && (turn(#[trigger] jobs[i]) == n || turn(jobs[i]) == 5)
}

/// Whether some tasks are what is left of a flush: they come in their turns, the latest
/// first.
pub open spec fn in_turns(jobs: Seq<Job>) -> bool {
    &&& forall|i: int| 0 <= i < jobs.len() ==> turn(#[trigger] jobs[i]) >= 0
    &&& forall|i: int| 0 <= i < jobs.len() && turn(#[trigger] jobs[i]) == 5 ==> i == 0
    &&& forall|i: int, j: int|
        0 <= i < j < jobs.len() ==> turn(#[trigger] jobs[i]) <= turn(#[trigger] jobs[j])
    &&& forall|i: int| 0 <= i < jobs.len() && turn(#[trigger] jobs[i]) == 4 ==> is_due(jobs, 3)
    &&& forall|i: int| 0 <= i < jobs.len() - 1 ==> !((#[trigger] jobs[i]) is Leaving)
}

/// Whether whatever is queued is due among some tasks.
pub open spec fn is_covered(s: State, jobs: Seq<Job>) -> bool {
    &&& s.pending_updates.len() > 0 ==> is_due(jobs, 5)
    &&& s.pending_handoffs.len() > 0 ==> is_due(jobs, 3)
    &&& s.pending_failovers.len() > 0 ==> is_due(jobs, 2)
    &&& s.pending_block_migrations.len() > 0 ==> is_due(jobs, 1)
}

/// Whether some tasks are what is left of a flush, which whatever is queued waits for.
pub open spec fn is_flushing(s: State, jobs: Seq<Job>) -> bool {
    &&& in_turns(jobs)
    &&& is_covered(s, jobs)
    &&& jobs.len() > 0 ==> match jobs.last() {
        Job::Leaving { d } => d == s.departure_of(d.eid, d.target),
        _ => true,
    }
}

proof fn lemma_pop(jobs: Seq<Job>)
    requires
        in_turns(jobs),
        jobs.len() > 0,
    ensures
        in_turns(jobs.drop_last()),
        turn(jobs.last()) == 5 ==> jobs.drop_last().len() == 0,
        jobs.drop_last().len() > 0 ==> turn(jobs.drop_last().last()) <= turn(jobs.last()),
        forall|n: int| #[trigger]
            is_due(jobs, n) ==> is_due(jobs.drop_last(), n) || turn(jobs.last()) == n || turn(
                jobs.last(),
            ) == 5,
        forall|n: int|
            n > turn(jobs.last()) && n < 5 ==> !(#[trigger] is_due(jobs, n)) || turn(jobs.last()) == 5,
        turn(jobs.last()) < 5 ==> !is_due(jobs, 5),
        jobs.drop_last().len() > 0 ==> !(jobs.drop_last().last() is Leaving),
{
    let d = jobs.drop_last();
    let last = jobs.len() - 1;
    assert forall|i: int| 0 <= i < d.len() implies turn(#[trigger] d[i]) >= 0 && (turn(d[i]) == 5
        ==> i == 0) by {
        assert(d[i] == jobs[i]);
    }
    assert forall|i: int, j: int| 0 <= i < j < d.len() implies turn(#[trigger] d[i]) <= turn(
        #[trigger] d[j],
    ) by {
        assert(d[i] == jobs[i] && d[j] == jobs[j]);
    }
    assert forall|n: int| #[trigger] is_due(jobs, n) implies is_due(d, n) || turn(jobs.last()) == n
        || turn(jobs.last()) == 5 by {
        let i = choose|i: int|
            0 <= i < jobs.len() && (turn(#[trigger] jobs[i]) == n || turn(jobs[i]) == 5);
        if i < last {
            assert(d[i] == jobs[i]);
        }
    }
    assert forall|n: int| n > turn(jobs.last()) && n < 5 && turn(jobs.last()) != 5 implies !(
    #[trigger] is_due(jobs, n)) by {
        if is_due(jobs, n) {
            let i = choose|i: int|
                0 <= i < jobs.len() && (turn(#[trigger] jobs[i]) == n || turn(jobs[i]) == 5);
            if i < last {
                assert(turn(jobs[i]) <= turn(jobs[last]));
            }
        }
    }
    if turn(jobs.last()) < 5 && is_due(jobs, 5) {
        let i = choose|i: int|
            0 <= i < jobs.len() && (turn(#[trigger] jobs[i]) == 5 || turn(jobs[i]) == 5);
        if i < last {
            assert(turn(jobs[i]) <= turn(jobs[last]));
        }
    }
    assert(turn(jobs[last]) == 5 ==> last == 0);
    if d.len() > 0 {
        assert(turn(jobs[last - 1]) <= turn(jobs[last]));
        assert(!(jobs[last - 1] is Leaving));
    }
    assert forall|i: int| 0 <= i < d.len() - 1 implies !((#[trigger] d[i]) is Leaving) by {
        assert(d[i] == jobs[i]);
    }
    assert forall|i: int| 0 <= i < d.len() && turn(#[trigger] d[i]) == 4 implies is_due(d, 3) by {
        assert(d[i] == jobs[i]);
        assert(turn(jobs[i]) <= turn(jobs[last]));
        assert(is_due(jobs, 3));
    }
}

proof fn lemma_put(jobs: Seq<Job>, j: Job)
    requires
        in_turns(jobs),
        0 <= turn(j) < 5,
        jobs.len() > 0 ==> turn(jobs.last()) <= turn(j),
        turn(j) == 4 ==> is_due(jobs, 3),
        jobs.len() > 0 ==> !(jobs.last() is Leaving),
    ensures
        in_turns(jobs.push(j)),
        forall|n: int| #[trigger] is_due(jobs.push(j), n) == (is_due(jobs, n) || turn(j) == n),
{
    let all = jobs.push(j);
    let last = jobs.len() as int;
    assert forall|n: int| #[trigger] is_due(all, n) == (is_due(jobs, n) || turn(j) == n) by {
        if is_due(jobs, n) {
            let i = choose|i: int|
                0 <= i < jobs.len() && (turn(#[trigger] jobs[i]) == n || turn(jobs[i]) == 5);
            assert(all[i] == jobs[i]);
        }
        if turn(j) == n {
            assert(all[last] == j);
        }
        if is_due(all, n) {
            let i = choose|i: int|
                0 <= i < all.len() && (turn(#[trigger] all[i]) == n || turn(all[i]) == 5);
            if i < last {
                assert(all[i] == jobs[i]);
            }
        }
    }
    assert forall|i: int| 0 <= i < all.len() implies turn(#[trigger] all[i]) >= 0 && (turn(all[i])
        == 5 ==> i == 0) by {
        if i < last {
            assert(all[i] == jobs[i]);
        }
    }
    assert forall|i: int, k: int| 0 <= i < k < all.len() implies turn(#[trigger] all[i]) <= turn(
        #[trigger] all[k],
    ) by {
        assert(all[i] == jobs[i]);
        if k < last {
            assert(all[k] == jobs[k]);
        } else if i < last - 1 {
            assert(turn(jobs[i]) <= turn(jobs[last - 1]));
        }
    }
    assert forall|i: int| 0 <= i < all.len() - 1 implies !((#[trigger] all[i]) is Leaving) by {
        assert(all[i] == jobs[i]);
        if i == last - 1 {
            assert(jobs[i] == jobs.last());
        }
    }
    assert forall|i: int| 0 <= i < all.len() && turn(#[trigger] all[i]) == 4 implies is_due(all, 3) by {
        if i < last {
            assert(all[i] == jobs[i]);
        }
    }
}

/// Whether some tasks are others, and above them what is left of a flush.
pub open spec fn goes_on(t: State, jobs: Seq<Job>, base: Seq<Job>) -> bool {
    exists|above: Seq<Job>| jobs == base + above && #[trigger] is_flushing(t, above)
}

proof fn lemma_after_flush(jobs: Seq<Job>)
    requires
        jobs.len() == 0,
    ensures
        ({
            let after = jobs.push(Job::Crossings).push(Job::SyncMigrations).push(
                Job::SyncFailovers,
            ).push(Job::SyncHandoffs);
            &&& in_turns(after)
            &&& is_due(after, 3)
            &&& is_due(after, 2)
            &&& is_due(after, 1)
        }),
{
    let a = jobs.push(Job::Crossings);
    let b = a.push(Job::SyncMigrations);
    let c = b.push(Job::SyncFailovers);
    lemma_put(jobs, Job::Crossings);
    lemma_put(a, Job::SyncMigrations);
    lemma_put(b, Job::SyncFailovers);
    lemma_put(c, Job::SyncHandoffs);
}

proof fn lemma_early_steps(
    s: State,
    base: Seq<Job>,
    above: Seq<Job>,
    a: Reply,
    env: Around,
)
    requires
        above.len() > 0,
        is_flushing(s, above),
        turn(above.last()) >= 4,
        needs_log(above.last()) ==> a.went(),
    ensures
        ({
            let t = s.stepped(base + above, a, env);
            goes_on(t.0, t.1, base)
        }),
{
    reveal(State::on_flush);
    reveal(State::on_writes_synced);
    reveal(State::on_publish);
    reveal(State::on_zone);
    reveal(State::on_handoff);
    reveal(State::on_parts);
    reveal(State::on_show);
    reveal(State::on_spread);
    let jobs = base + above;
    let d = above.drop_last();
    let rest = jobs.drop_last();
    assert(rest =~= base + d);
    assert(jobs.last() == above.last());
    lemma_pop(above);
    let t = s.stepped(jobs, a, env);
    match above.last() {
        Job::Flush => {
            lemma_after_flush(d);
            if s.pending_updates.len() == 0 {
                let n = d.push(Job::Crossings).push(Job::SyncMigrations).push(
                    Job::SyncFailovers,
                ).push(Job::SyncHandoffs);
                assert(t.1 =~= base + n);
                assert(is_flushing(t.0, n));
            } else {
                let n = d.push(Job::WritesSynced);
                assert(t.1 =~= base + n);
                assert(n[0] == Job::WritesSynced);
                assert(is_flushing(t.0, n));
            }
        },
        Job::WritesSynced => {
            lemma_after_flush(d);
            let p = Job::Publish { updates: s.pending_updates, next: 0 };
            let m = d.push(Job::Crossings).push(Job::SyncMigrations).push(
                Job::SyncFailovers,
            ).push(Job::SyncHandoffs);
            lemma_put(m, p);
            assert(t.1 =~= base + m.push(p));
            assert(is_flushing(t.0, m.push(p)));
        },
        Job::Publish { updates, next } => {
            if next < updates.len() {
                let u = updates[next as int];
                let more = Job::Publish { updates, next: next + 1 };
                let zone = Job::Zone { eid: u.eid, comp: u.comp, value: u.value };
                lemma_put(d, more);
                lemma_put(d.push(more), zone);
                assert(t.1 =~= base + d.push(more).push(zone));
                assert(is_flushing(t.0, d.push(more).push(zone)));
            } else {
                assert(is_flushing(t.0, d));
            }
        },
        Job::Zone { eid, comp, value } => {
            let show = Job::Show { eid, comp, value };
            lemma_put(d, show);
            let m = d.push(show);
            let z = s.zoned(eid, comp, a.cell());
            assert(rest.push(show) =~= base + m);
            match s.zone_target(eid, comp, a.cell()) {
                Some(to) => {
                    let from = s.entities[eid].region;
                    lemma_move(z, base + m, eid, from, to);
                    match z.begun(eid, from, to, None) {
                        crate::moves::Begun::Log(h) => {
                            let hand = Job::Handoff { h };
                            lemma_put(m, hand);
                            assert(t.1 =~= base + m.push(hand));
                            assert(is_flushing(t.0, m.push(hand)));
                        },
                        _ => {
                            assert(is_flushing(t.0, m));
                        },
                    }
                },
                None => {
                    assert(is_flushing(t.0, m));
                },
            }
        },
        Job::Handoff { h } => {
            let parts = Job::Parts {
                parts: s.parts_to_move(h.eid, h.to, sorted(s.entities.dom())),
                to: h.to,
            };
            lemma_put(d, parts);
            assert(t.1 =~= base + d.push(parts));
            assert(is_flushing(t.0, d.push(parts)));
        },
        Job::Parts { parts, to } => {
            let (left, next) = s.next_part_of(parts, to);
            let more = Job::Parts { parts: left, to };
            match next {
                Some(h) => {
                    let hand = Job::Handoff { h };
                    lemma_put(d, more);
                    lemma_put(d.push(more), hand);
                    assert(t.1 =~= base + d.push(more).push(hand));
                    assert(is_flushing(t.0, d.push(more).push(hand)));
                },
                None => {
                    assert(is_flushing(t.0, d));
                },
            }
        },
        Job::Show { eid, comp, value } => {
            let spread = Job::Spread { eid, comp, value };
            lemma_put(d, spread);
            assert(t.1 =~= base + d.push(spread));
            assert(is_flushing(t.0, d.push(spread)));
        },
        Job::Spread { eid, comp, value } => {
            lemma_told_queues(s, a.seen(), eid, comp, value);
            assert(is_flushing(t.0, d));
        },
        _ => {},
    }
}

proof fn lemma_late_steps(
    s: State,
    base: Seq<Job>,
    above: Seq<Job>,
    a: Reply,
    env: Around,
)
    requires
        above.len() > 0,
        is_flushing(s, above),
        turn(above.last()) < 4,
        needs_log(above.last()) ==> a.went(),
    ensures
        ({
            let t = s.stepped(base + above, a, env);
            goes_on(t.0, t.1, base)
        }),
{
    reveal(State::on_sync_handoffs);
    reveal(State::on_handoffs_synced);
    reveal(State::on_sync_failovers);
    reveal(State::on_failovers_synced);
    reveal(State::on_sync_migrations);
    reveal(State::on_migrations_synced);
    reveal(State::on_crossings);
    reveal(State::on_cross);
    reveal(State::on_cross_at);
    reveal(State::on_leaving);
    reveal(State::on_left);
    let jobs = base + above;
    let d = above.drop_last();
    let rest = jobs.drop_last();
    assert(rest =~= base + d);
    assert(jobs.last() == above.last());
    lemma_pop(above);
    assert(turn(above[above.len() - 1]) >= 0);
    let t = s.stepped(jobs, a, env);
    match above.last() {
        Job::SyncHandoffs => {
            lemma_put(d, Job::HandoffsSynced);
            assert(rest.push(Job::HandoffsSynced) =~= base + d.push(Job::HandoffsSynced));
            if s.pending_handoffs.len() == 0 {
                assert(t.1 == base + d && is_flushing(t.0, d));
            } else {
                assert(is_flushing(t.0, d.push(Job::HandoffsSynced)));
            }
        },
        Job::HandoffsSynced => {
            let b = State {
                pending_handoffs: Seq::empty(),
                wal: WalStatus {
                    durable_gen: crate::handoff::max_hand_gen(
                        s.pending_handoffs,
                        s.wal.durable_gen,
                    ),
                    ..s.wal
                },
                ..s
            };
            lemma_handoffs_queues(b, s.pending_handoffs);
            assert(is_flushing(t.0, d));
        },
        Job::SyncFailovers => {
            lemma_put(d, Job::FailoversSynced);
            assert(rest.push(Job::FailoversSynced) =~= base + d.push(Job::FailoversSynced));
            if s.pending_failovers.len() == 0 {
                assert(t.1 == base + d && is_flushing(t.0, d));
            } else {
                assert(is_flushing(t.0, d.push(Job::FailoversSynced)));
            }
        },
        Job::FailoversSynced => {
            let b = State {
                wal: WalStatus {
                    durable_gen: crate::failover::max_failover_gen(
                        s.pending_failovers,
                        s.wal.durable_gen,
                    ),
                    ..s.wal
                },
                pending_failovers: Seq::empty(),
                ..s
            };
            lemma_failovers_live(b, s.pending_failovers);
            assert(is_flushing(t.0, d));
        },
        Job::SyncMigrations => {
            lemma_put(d, Job::MigrationsSynced);
            assert(rest.push(Job::MigrationsSynced) =~= base + d.push(Job::MigrationsSynced));
            if s.pending_block_migrations.len() == 0 {
                assert(t.1 == base + d && is_flushing(t.0, d));
            } else {
                assert(is_flushing(t.0, d.push(Job::MigrationsSynced)));
            }
        },
        Job::MigrationsSynced => {
            let b = State {
                wal: WalStatus {
                    durable_gen: crate::failover::max_migration_gen(
                        s.pending_block_migrations,
                        s.wal.durable_gen,
                    ),
                    ..s.wal
                },
                pending_block_migrations: Seq::empty(),
                ..s
            };
            lemma_migrations_live(b, s.pending_block_migrations);
            assert(is_flushing(t.0, d));
        },
        Job::Crossings => {
            let cross = Job::Cross { list: s.pending_remote_handoffs, next: 0 };
            lemma_put(d, cross);
            assert(t.1 =~= base + d.push(cross));
            assert(is_flushing(t.0, d.push(cross)));
        },
        Job::Cross { list, next } => {
            let at = Job::CrossAt { list, next };
            lemma_put(d, at);
            assert(rest.push(at) =~= base + d.push(at));
            if next < list.len() {
                assert(is_flushing(t.0, d.push(at)));
            } else {
                assert(is_flushing(t.0, d));
            }
        },
        Job::CrossAt { list, next } => {
            if next < list.len() {
                let (eid, target) = list[next as int];
                let more = Job::Cross { list, next: next + 1 };
                let go = Job::Leaving { d: s.departure_of(eid, target) };
                lemma_put(d, more);
                lemma_put(d.push(more), go);
                assert(rest.push(more) =~= base + d.push(more));
                assert(rest.push(more).push(go) =~= base + d.push(more).push(go));
                if t.1 == rest.push(more) {
                    assert(is_flushing(t.0, d.push(more)));
                } else {
                    assert(is_flushing(t.0, d.push(more).push(go)));
                }
            } else {
                assert(is_flushing(t.0, d));
            }
        },
        Job::Leaving { d: l } => {
            let left = Job::Left { d: l };
            lemma_put(d, left);
            assert(t.1 =~= base + d.push(left));
            assert(is_flushing(t.0, d.push(left)));
        },
        Job::Left { d: l } => {
            lemma_left(s, l, env.gauges.now_ms);
            assert(is_flushing(t.0, d));
        },
        _ => {},
    }
}

proof fn lemma_nothing_carried(base: Seq<Job>, above: Seq<Job>)
    requires
        in_turns(above),
        above.len() > 0 ==> turn(above.last()) != 4,
        !is_due(above, 4) || (above.len() > 0 && turn(above.last()) == 5),
    ensures
        in_flight(base + above) == in_flight(base),
    decreases above.len(),
{
    if above.len() == 0 {
        assert(base + above =~= base);
    } else {
        let d = above.drop_last();
        lemma_pop(above);
        assert((base + above).drop_last() =~= base + d);
        assert((base + above).last() == above.last());
        assert(turn(above[above.len() - 1]) >= 0);
        if d.len() > 0 {
            assert(d[d.len() - 1] == above[d.len() - 1]);
        }
        if is_due(d, 4) {
            let i = choose|i: int|
                0 <= i < d.len() && (turn(#[trigger] d[i]) == 4 || turn(d[i]) == 5);
            assert(above[i] == d[i]);
            assert(is_due(above, 4));
        }
        assert(!is_due(d, 4)) by {
            if turn(above.last()) == 5 {
                assert(d.len() == 0);
            }
        }
        assert(d.len() > 0 ==> turn(d.last()) != 4) by {
            if d.len() > 0 && turn(d.last()) == 4 {
                assert(is_due(d, 4));
            }
        }
        lemma_nothing_carried(base, d);
        assert(crate::ledger::carried(above.last()) =~= Seq::empty());
        assert(crate::ledger::carried(above.last()) + in_flight(base) =~= in_flight(base));
    }
}

proof fn lemma_in_turn(s: State, base: Seq<Job>, above: Seq<Job>)
    requires
        above.len() > 0,
        is_flushing(s, above),
        in_flight(base).len() == 0,
    ensures
        is_in_turn(s, base + above),
{
    let j = above.last();
    let d = above.drop_last();
    lemma_pop(above);
    assert((base + above).drop_last() =~= base + d);
    assert((base + above).last() == j);
    if turn(j) == 5 || turn(j) < 4 {
        assert(!is_due(d, 4)) by {
            if is_due(d, 4) {
                let i = choose|i: int|
                    0 <= i < d.len() && (turn(#[trigger] d[i]) == 4 || turn(d[i]) == 5);
                assert(above[i] == d[i]);
                assert(turn(above[i]) <= turn(above[above.len() - 1]));
                assert(is_due(above, 4));
            }
        }
        if d.len() > 0 {
            assert(turn(d[d.len() - 1]) != 4) by {
                if turn(d[d.len() - 1]) == 4 {
                    assert(is_due(d, 4));
                }
            }
        }
        lemma_nothing_carried(base, d);
    }
}

/// A request for a snapshot has all that is queued applied before it is marked.
pub proof fn law_snapshot_flushes_first(
    s: State,
    jobs: Seq<Job>,
    wid: Seq<char>,
    f: Doc,
    sc: Setting,
    env: Around,
)
    requires
        op_of(f) == "SnapshotMarker"@,
        s.may_snapshot(wid),
        !s.wal.degraded,
    ensures
        ({
            let t = s.dispatched(jobs, wid, f, sc, env);
            &&& t.0 == s
            &&& t.1 == jobs.push(Job::Snapshot { wid, f }).push(Job::Flush)
            &&& goes_on(t.0, t.1, jobs.push(Job::Snapshot { wid, f }))
        }),
{
    reveal(State::hear_snapshot);
    let base = jobs.push(Job::Snapshot { wid, f });
    let above = seq![Job::Flush];
    reveal_strlit("SnapshotMarker");
    reveal_strlit("CreateEntity");
    reveal_strlit("DeleteEntity");
    reveal_strlit("ThresholdTx");
    reveal_strlit("MeshHandoff");
    reveal_strlit("MeshAck");
    reveal_strlit("UpdateComponent");
    reveal_strlit("BatchUpdate");
    reveal_strlit("Fold");
    reveal_strlit("SetComponentAuthority");
    reveal_strlit("AddComponent");
    reveal_strlit("RemoveComponent");
    reveal_strlit("ReserveEntityIds");
    assert("SnapshotMarker"@.len() == 14);
    assert("CreateEntity"@.len() == 12 && "DeleteEntity"@.len() == 12 && "ThresholdTx"@.len() == 11
        && "MeshHandoff"@.len() == 11 && "UpdateComponent"@.len() == 15 && "BatchUpdate"@.len() == 11
        && "Fold"@.len() == 4 && "SetComponentAuthority"@.len() == 21 && "AddComponent"@.len() == 12
        && "RemoveComponent"@.len() == 15 && "ReserveEntityIds"@.len() == 16 && "MeshAck"@.len()
        == 7);
    assert(base.push(Job::Flush) =~= base + above);
    assert(above[0] == Job::Flush);
    assert(is_due(above, 5) && is_due(above, 3) && is_due(above, 2) && is_due(above, 1));
    assert(is_flushing(s, above));
}

/// A step of a flush.
pub ghost struct Beat {
    /// What came of what the last step needed.
    pub reply: Reply,
    /// The log as it is since.
    pub wal: WalStatus,
    pub env: Around,
}

/// The state, the tasks and what the log says after some steps.
pub open spec fn ran(s: State, jobs: Seq<Job>, st: Store, beats: Seq<Beat>) -> (
    State,
    Seq<Job>,
    Store,
)
    decreases beats.len(),
{
    if beats.len() == 0 {
        (s, jobs, st)
    } else {
        let p = ran(s, jobs, st, beats.drop_last());
        let b = beats.last();
        let t = (State { wal: b.wal, ..p.0 }).stepped(p.1, b.reply, b.env);
        (t.0, t.1, told(p.2, p.1.last()))
    }
}

/// The events that some steps put on the log.
pub open spec fn said(s: State, jobs: Seq<Job>, st: Store, beats: Seq<Beat>) -> Seq<Doc>
    decreases beats.len(),
{
    if beats.len() == 0 {
        Seq::empty()
    } else {
        let before = said(s, jobs, st, beats.drop_last());
        match awaited(ran(s, jobs, st, beats.drop_last()).1.last()) {
            Some(ev) => before.push(ev),
            None => before,
        }
    }
}

proof fn lemma_said(s: State, jobs: Seq<Job>, evs: Seq<Doc>, beats: Seq<Beat>)
    ensures
        ({
            let st = Store::empty().all_replayed(evs, true);
            ran(s, jobs, st, beats).2 == Store::empty().all_replayed(
                evs + said(s, jobs, st, beats),
                true,
            )
        }),
    decreases beats.len(),
{
    let st = Store::empty().all_replayed(evs, true);
    let all = evs + said(s, jobs, st, beats);
    if beats.len() == 0 {
        assert(all =~= evs);
    } else {
        let d = beats.drop_last();
        lemma_said(s, jobs, evs, d);
        if awaited(ran(s, jobs, st, d).1.last()) is Some {
            assert(all.drop_last() =~= evs + said(s, jobs, st, d));
        }
    }
}

/// Whether each of some steps is one of a flush above other tasks, the log did what it was
/// asked to, and what is queued on the way can be.
pub open spec fn is_run(s: State, jobs: Seq<Job>, st: Store, beats: Seq<Beat>, base: Seq<Job>) -> bool
    decreases beats.len(),
{
    beats.len() == 0 || {
        let p = ran(s, jobs, st, beats.drop_last());
        let b = beats.last();
        &&& is_run(s, jobs, st, beats.drop_last(), base)
        &&& p.1.len() > base.len()
        &&& b.wal.pending_gen == p.0.wal.pending_gen
        &&& needs_log(p.1.last()) ==> b.reply.went()
        &&& is_in_order(p.0, p.1.last())
    }
}

/// A flush keeps to the log and leaves nothing behind: after any of its steps the log says
/// what the world will be, and once its tasks are done nothing is queued and nothing is
/// under way, so that the log says what the world is.
pub proof fn law_flush_leaves_nothing(
    s: State,
    jobs: Seq<Job>,
    st: Store,
    beats: Seq<Beat>,
    base: Seq<Job>,
)
    requires
        agrees(s, jobs, st),
        goes_on(s, jobs, base),
        in_flight(base).len() == 0,
        leaving(base) == Set::<Seq<char>>::empty(),
        is_run(s, jobs, st, beats, base),
    ensures
        ({
            let t = ran(s, jobs, st, beats);
            &&& agrees(t.0, t.1, t.2)
            &&& goes_on(t.0, t.1, base)
            &&& t.1.len() == base.len() ==> t.1 == base && is_settled(t.0, base) && bodies(
                t.2.entities,
            ) == bodies(t.0.entities)
        }),
    decreases beats.len(),
{
    let t = ran(s, jobs, st, beats);
    if beats.len() > 0 {
        let d = beats.drop_last();
        law_flush_leaves_nothing(s, jobs, st, d, base);
        let p = ran(s, jobs, st, d);
        let b = beats.last();
        let q = State { wal: b.wal, ..p.0 };
        let above = choose|above: Seq<Job>| p.1 == base + above && #[trigger] is_flushing(p.0, above);
        assert(above.len() > 0);
        assert(p.1.last() == above.last());
        if above.last() is Leaving {
            assert(q.departure_of(above.last()->Leaving_d.eid, above.last()->Leaving_d.target)
                == p.0.departure_of(
                above.last()->Leaving_d.eid,
                above.last()->Leaving_d.target,
            ));
        }
        assert(is_flushing(q, above));
        assert(agrees(q, p.1, p.2));
        assert(is_in_order(q, p.1.last()));
        assert(turn(above[above.len() - 1]) >= 0);
        lemma_in_turn(q, base, above);
        law_group_work_keeps_to_the_log(q, p.1, p.2, b.reply, b.env);
        if turn(above.last()) >= 4 {
            lemma_early_steps(q, base, above, b.reply, b.env);
        } else {
            lemma_late_steps(q, base, above, b.reply, b.env);
        }
    }
    if t.1.len() == base.len() {
        let above = choose|above: Seq<Job>| t.1 == base + above && #[trigger] is_flushing(t.0, above);
        assert(above.len() == 0);
        assert(t.1 =~= base);
        law_cut_replays_to_the_world(t.0, base, t.2);
    }
}

proof fn lemma_line_break(line: Seq<char>)
    ensures
        encode_utf8(line.push('\n')).len() == span(line),
    decreases line.len(),
{
    let all = line.push('\n');
    if line.len() == 0 {
        assert(all.drop_first() =~= Seq::<char>::empty());
        assert(encode_utf8(all.drop_first()).len() == 0);
        assert(all[0] == '\n');
    } else {
        lemma_line_break(line.drop_first());
        assert(all.drop_first() =~= line.drop_first().push('\n'));
        assert(all[0] == line[0]);
    }
}

/// The offset counts the log: with every line that is appended it grows by the bytes of the
/// line and its line break, so that it stays the length of the log.
pub proof fn law_offset_counts_the_log(w: WalStatus, lines: Seq<Seq<char>>, line: Seq<char>)
    requires
        w.attached,
        !w.fail_inject,
        w.bytes == total_span(lines),
        total_span(lines.push(line)) <= u64::MAX,
    ensures
        w.appended(encode_utf8(line.push('\n')).len(), true).bytes == total_span(lines.push(line)),
{
    lemma_line_break(line);
    assert(lines.push(line).drop_last() =~= lines);
}

proof fn lemma_marker(st: Store, f: Doc, now_ms: u64, resend: bool)
    ensures
        st.replayed(marker_event(f, now_ms), resend) == st,
{
    let ev = marker_event(f, now_ms);
    lemma_late_kinds();
    lemma_first_kinds();
    reveal_strlit("kind");
    reveal_strlit("snapshot_id");
    reveal_strlit("t");
    reveal_strlit("snapshot_marker");
    reveal_strlit("block_migration");
    reveal_strlit("component_remove");
    assert("kind"@.len() == 4 && "snapshot_id"@.len() == 11 && "t"@.len() == 1);
    let kind = "snapshot_marker"@;
    assert(ev.get_str("kind"@) == Some(kind));
    assert(kind_of(ev) == kind);
    assert(kind.len() == 15 && kind[0] == 's' && "block_migration"@[0] == 'b');
    let k = ev_entity(ev);
    assert(ent_replayed(st.entities[k], kind, ev) == st.entities[k]);
    if st.entities.contains_key(k) {
        assert(st.entities.insert(k, st.entities[k]) =~= st.entities);
    }
}

proof fn lemma_resend(evs: Seq<Doc>)
    ensures
        ({
            let a = Store::empty().all_replayed(evs, true);
            let b = Store::empty().all_replayed(evs, false);
            b == (Store { pending: b.pending, ..a })
        }),
    decreases evs.len(),
{
    if evs.len() > 0 {
        lemma_resend(evs.drop_last());
        let a = Store::empty().all_replayed(evs.drop_last(), true);
        let b = Store::empty().all_replayed(evs.drop_last(), false);
        lemma_grants_alike(a, b, match evs.last().get("grants"@) {
            Some(Doc::Arr(gs)) => gs,
            _ => Seq::empty(),
        });
    }
}

proof fn lemma_grants_alike(a: Store, b: Store, gs: Seq<Doc>)
    requires
        b == (Store { pending: b.pending, ..a }),
    ensures
        b.all_granted(gs) == (Store { pending: b.all_granted(gs).pending, ..a.all_granted(gs) }),
    decreases gs.len(),
{
    if gs.len() > 0 {
        lemma_grants_alike(a, b, gs.drop_last());
    }
}

/// A snapshot is of the log: where the log says what the world will be, and nothing is
/// queued or under way, a request for a snapshot is marked on the log and answered with the
/// log's length, and from then on the log is not rewritten. Whatever is appended later, a restart
/// that reads the log up to that offset builds the entities as they were when the snapshot
/// was answered, but for threshold transactions that were not committed.
pub proof fn law_snapshot_restores_the_world(
    s: State,
    jobs: Seq<Job>,
    wid: Seq<char>,
    f: Doc,
    evs: Seq<Doc>,
    at: Beat,
    done: Beat,
    lines: Seq<Seq<char>>,
    later: Seq<Seq<char>>,
    more: Seq<Doc>,
    resend: bool,
)
    requires
        !s.wal.degraded,
        agrees(s, jobs.push(Job::Snapshot { wid, f }), Store::empty().all_replayed(evs, true)),
        is_settled(s, jobs.push(Job::Snapshot { wid, f })),
        done.reply.went(),
        is_log(lines, evs.push(marker_event(f, at.env.gauges.now_ms))),
        is_log(lines + later, evs.push(marker_event(f, at.env.gauges.now_ms)) + more),
        done.wal.bytes == total_span(lines),
    ensures
        ({
            let t = s.stepped(jobs.push(Job::Snapshot { wid, f }), at.reply, at.env);
            let u = (State { wal: done.wal, ..t.0 }).stepped(t.1, done.reply, done.env);
            let manifest = (State { wal: done.wal, ..s }).manifest(
                f,
                done.env.broker_id,
                done.env.registry_version,
                done.env.gauges.now_ms,
            );
            let back = recovered_store(Some(lines + later), Some(done.wal.bytes), resend);
            &&& t.2 == Want::Commit(marker_event(f, at.env.gauges.now_ms))
            &&& u.0 == (State {
                wal: WalStatus { snapshot_seen: true, ..done.wal },
                ..s
            }).emitted(wid, manifest)
            &&& u.1 == jobs
            &&& manifest.get_u64("wal_offset"@) == Some(done.wal.bytes)
            &&& !u.0.may_compact()
            &&& log_error(lines + later) is None
            &&& bodies(back.entities) == bodies(u.0.entities.map_values(|e: Ent| settled(e)))
        }),
{
    reveal(State::on_snapshot);
    reveal(State::on_snapshot_logged);
    let ev = marker_event(f, at.env.gauges.now_ms);
    let base = jobs.push(Job::Snapshot { wid, f });
    assert(base.drop_last() =~= jobs);
    let wait = jobs.push(Job::SnapshotLogged { wid, f });
    assert(wait.drop_last() =~= jobs);
    let st = Store::empty().all_replayed(evs, true);
    law_cut_replays_to_the_world(s, base, st);
    law_offset_is_a_cut(lines, evs.push(ev), later, more, done.wal.bytes);
    let cut = evs.push(ev);
    assert(cut.drop_last() =~= evs);
    lemma_marker(st, f, at.env.gauges.now_ms, true);
    lemma_resend(cut);
    let full = Store::empty().all_replayed(cut, true);
    assert(full == st);
    let back = recovered_store(Some(lines + later), Some(done.wal.bytes), resend);
    assert(back.entities == st.entities.map_values(|e: Ent| settled(e)));
    lemma_settled_bodies(st.entities, s.entities);
    lemma_manifest_offset(State { wal: done.wal, ..s }, f, done.env);
}

proof fn lemma_settled_bodies(a: Map<Seq<char>, Ent>, b: Map<Seq<char>, Ent>)
    requires
        bodies(a) == bodies(b),
    ensures
        bodies(a.map_values(|e: Ent| settled(e))) == bodies(b.map_values(|e: Ent| settled(e))),
{
    assert(bodies(a).dom() =~= a.dom());
    assert(bodies(b).dom() =~= b.dom());
    let x = bodies(a.map_values(|e: Ent| settled(e)));
    let y = bodies(b.map_values(|e: Ent| settled(e)));
    assert forall|k: Seq<char>| #[trigger] x.contains_key(k) implies y.contains_key(k) && x[k]
        == y[k] by {
        assert(bodies(a).contains_key(k) && bodies(b).contains_key(k));
        assert(bodies(a)[k] == a[k].body() && bodies(b)[k] == b[k].body());
    }
    assert(x =~= y);
}

proof fn lemma_manifest_offset(s: State, f: Doc, env: Around)
    ensures
        s.manifest(f, env.broker_id, env.registry_version, env.gauges.now_ms).get_u64(
            "wal_offset"@,
        ) == Some(s.wal.bytes),
{
    reveal_strlit("wal_offset");
    reveal_strlit("entity_count");
    reveal_strlit("authority_hash");
    reveal_strlit("pending_mesh");
    reveal_strlit("in_flight");
    reveal_strlit("t_server");
    reveal_strlit("broker_id");
    assert("wal_offset"@.len() == 10 && "entity_count"@.len() == 12 && "authority_hash"@.len() == 14
        && "pending_mesh"@.len() == 12 && "in_flight"@.len() == 9 && "t_server"@.len() == 8);
}

/// A snapshot is a cut, whatever was queued when it was asked for: the request has all of
/// it applied, and then the marker is put on the log behind what the flush put there. The
/// offset that is answered is the length of the log, and a restart that reads so much of it
/// builds the entities as they are at that moment, but for threshold transactions that are
/// not committed.
pub proof fn law_snapshot_is_a_cut(
    s: State,
    jobs: Seq<Job>,
    wid: Seq<char>,
    f: Doc,
    sc: Setting,
    env: Around,
    evs: Seq<Doc>,
    beats: Seq<Beat>,
    at: Beat,
    done: Beat,
    lines: Seq<Seq<char>>,
    later: Seq<Seq<char>>,
    more: Seq<Doc>,
    resend: bool,
)
    requires
        op_of(f) == "SnapshotMarker"@,
        s.may_snapshot(wid),
        !s.wal.degraded,
        agrees(s, jobs, Store::empty().all_replayed(evs, true)),
        in_flight(jobs).len() == 0,
        leaving(jobs) == Set::<Seq<char>>::empty(),
        ({
            let st = Store::empty().all_replayed(evs, true);
            let heard = s.dispatched(jobs, wid, f, sc, env);
            let base = jobs.push(Job::Snapshot { wid, f });
            let t = ran(heard.0, heard.1, st, beats);
            let all = (evs + said(heard.0, heard.1, st, beats)).push(
                marker_event(f, at.env.gauges.now_ms),
            );
            &&& is_run(heard.0, heard.1, st, beats, base)
            &&& t.1.len() == base.len()
            &&& !t.0.wal.degraded
            &&& is_log(lines, all)
            &&& is_log(lines + later, all + more)
        }),
        done.reply.went(),
        done.wal.bytes == total_span(lines),
    ensures
        ({
            let st = Store::empty().all_replayed(evs, true);
            let heard = s.dispatched(jobs, wid, f, sc, env);
            let t = ran(heard.0, heard.1, st, beats);
            let u = t.0.stepped(t.1, at.reply, at.env);
            let w = (State { wal: done.wal, ..u.0 }).stepped(u.1, done.reply, done.env);
            let manifest = (State { wal: done.wal, ..t.0 }).manifest(
                f,
                done.env.broker_id,
                done.env.registry_version,
                done.env.gauges.now_ms,
            );
            let back = recovered_store(Some(lines + later), Some(done.wal.bytes), resend);
            &&& u.2 == Want::Commit(marker_event(f, at.env.gauges.now_ms))
            &&& w.0 == (State {
                wal: WalStatus { snapshot_seen: true, ..done.wal },
                ..t.0
            }).emitted(wid, manifest)
            &&& w.1 == jobs
            &&& manifest.get_u64("wal_offset"@) == Some(done.wal.bytes)
            &&& !w.0.has_staged()
            &&& !w.0.may_compact()
            &&& log_error(lines + later) is None
            &&& bodies(back.entities) == bodies(w.0.entities.map_values(|e: Ent| settled(e)))
        }),
{
    let st = Store::empty().all_replayed(evs, true);
    let base = jobs.push(Job::Snapshot { wid, f });
    let heard = s.dispatched(jobs, wid, f, sc, env);
    law_snapshot_flushes_first(s, jobs, wid, f, sc, env);
    lemma_idle(jobs, Job::Snapshot { wid, f });
    lemma_idle(base, Job::Flush);
    law_flush_leaves_nothing(heard.0, heard.1, st, beats, base);
    lemma_said(heard.0, heard.1, evs, beats);
    let t = ran(heard.0, heard.1, st, beats);
    law_snapshot_restores_the_world(
        t.0,
        jobs,
        wid,
        f,
        evs + said(heard.0, heard.1, st, beats),
        at,
        done,
        lines,
        later,
        more,
        resend,
    );
}

}

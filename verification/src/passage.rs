//! Passing between brokers and regions: what leaves, what is sent again, what is taken in,
//! and how a transaction carries an entity over.

use vstd::prelude::*;
use vstd::string::*;
use crate::adopt::{msg_entity, Gate};
use crate::attention::{law_gone_from_all_views, lemma_all_names};
use crate::authority::{authority_doc, law_snapshot_round_trip};
use crate::borders::{only_sends, sent_since};
use crate::doc::Doc;
use crate::entity::{succ, value_epoch, Ent};
use crate::handoff::at;
use crate::mesh::departing_authority;
use crate::order::sorted;
use crate::partition::{cell_of_name, coarse, refined, spawned_region};
use crate::rights::is_current;
use crate::state::{Parked, Sent, State};
use crate::succession::{
    has_named_owners, is_finite, is_free_of, is_physics, is_taken_over, law_physics_changes_hands,
    lemma_island,
};
use crate::text::trimmed;
use crate::threshold::{stepped, timed_out_among, tx_of, Tx};

verus! {

broadcast use {crate::doc::group_json, crate::strmap::group_map};

/// An entity leaves for a neighbour where it is here, the link is up, and nobody has taken
/// this broker's region over. What it is goes with it, and of its physics nobody is the owner
/// any more, under a higher epoch.
pub proof fn law_what_leaves(s: State, eid: Seq<char>, target: Seq<char>, now_ms: u64)
    requires
        s.workers.dom().finite(),
        s.entities.contains_key(eid),
        is_finite(s.entities[eid]),
    ensures
        ({
            let e = s.entities[eid];
            let d = s.departure_of(eid, target);
            let t = s.departed(d, now_ms);
            let m = departing_authority(e, d.authority_epoch);
            &&& s.can_leave(eid, target) == (s.mesh.contains(target) && !(s.my_region.len() > 0
                && s.superseded_regions.contains(s.my_region)))
            &&& d.eid == eid && d.target == target
            &&& d.handoff.get_str("op"@) == Some("MeshHandoff"@)
            &&& d.handoff.get_str("entity"@) == Some(eid)
            &&& d.handoff.get_str("target"@) == Some(target)
            &&& d.handoff.get("pos"@) == Some(e.pos.doc())
            &&& d.handoff.get("vel"@) == Some(e.vel.doc())
            &&& d.handoff.get("components"@) == Some(Doc::Obj(e.components))
            &&& d.handoff.get_u64("authority_epoch"@) == Some(d.authority_epoch)
            &&& d.handoff.get("authority"@) == Some(authority_doc(m))
            &&& d.handoff.get_str("src_region"@) == Some(s.my_region)
            &&& s.region_lease_epoch.contains_key(s.my_region) ==> d.handoff.get_u64("lease_epoch"@)
                == Some(s.region_lease_epoch[s.my_region])
            &&& forall|c: Seq<char>| #[trigger]
                is_physics(e, c) ==> m.contains_key(c) && m[c].owner is None && (m[c].epoch > e.epoch(
                    c,
                ) || m[c].epoch == u64::MAX)
            &&& forall|c: Seq<char>| #[trigger]
                e.authority.contains_key(c) && !is_physics(e, c) ==> m.contains_key(c) && m[c]
                    == e.authority[c]
            &&& t.entities == s.entities.remove(eid)
            &&& t.pending_mesh == s.pending_mesh.insert(
                eid,
                Parked { frame: d.handoff, sent_ms: now_ms, target },
            )
            &&& t.outbox[s.outbox.len() as int] == (Sent::Mesh { region: target, msg: d.handoff })
            &&& forall|w: Seq<char>| #[trigger]
                s.workers.contains_key(w) ==> t.workers[w].view == s.workers[w].view.remove(eid)
        }),
{
    let e = s.entities[eid];
    let d = s.departure_of(eid, target);
    law_physics_changes_hands(e, None, None);
    lemma_island(e);
    let t = s.departed(d, now_ms);
    let a = State {
        wal: crate::state::WalStatus {
            durable_gen: if s.wal.durable_gen < d.gen {
                d.gen
            } else {
                s.wal.durable_gen
            },
            ..s.wal
        },
        mesh_forwarded_epoch: s.mesh_forwarded_epoch.insert(
            d.eid,
            crate::recovery::later_epoch(s.mesh_forwarded_epoch, d.eid, d.authority_epoch),
        ),
        pending_mesh: s.pending_mesh.insert(
            d.eid,
            Parked { frame: d.handoff, sent_ms: now_ms, target: d.target },
        ),
        entities: s.entities.remove(d.eid),
        outbox: s.outbox.push(Sent::Mesh { region: d.target, msg: d.handoff }),
        metrics: crate::state::Metrics {
            mesh_handoffs: succ(s.metrics.mesh_handoffs),
            ..s.metrics
        },
        ..s
    };
    law_gone_from_all_views(a, eid);
    crate::rights::lemma_hidden_keeps(a, sorted(a.workers.dom()), eid);
    lemma_all_names(a.workers.dom());
    crate::attention::lemma_hidden_from(a, sorted(a.workers.dom()), eid);
    assert(t.outbox[s.outbox.len() as int] == a.outbox[s.outbox.len() as int]) by {
        assert(t.outbox.subrange(0, a.outbox.len() as int)[s.outbox.len() as int]
            == t.outbox[s.outbox.len() as int]);
    }
    reveal_strlit("op");
    reveal_strlit("entity");
    reveal_strlit("target");
    reveal_strlit("pos");
    reveal_strlit("vel");
    reveal_strlit("authority_epoch");
    reveal_strlit("authority");
    reveal_strlit("src_region");
    reveal_strlit("lease_epoch");
    reveal_strlit("source_durable_gen");
    reveal_strlit("components");
    assert("op"@.len() == 2 && "entity"@.len() == 6 && "target"@.len() == 6 && "pos"@.len() == 3
        && "vel"@.len() == 3 && "authority_epoch"@.len() == 15 && "authority"@.len() == 9
        && "src_region"@.len() == 10 && "lease_epoch"@.len() == 11 && "source_durable_gen"@.len()
        == 18 && "components"@.len() == 10);
    assert("entity"@[0] == 'e' && "target"@[0] == 't' && "pos"@[0] == 'p' && "vel"@[0] == 'v'
        && "src_region"@[0] == 's' && "components"@[0] == 'c');
}

proof fn lemma_resent(s: State, names: Seq<Seq<char>>, now_ms: u64)
    ensures
        ({
            let t = s.resent(names, now_ms);
            let due = names.filter(
                |k: Seq<char>|
                    now_ms - s.pending_mesh[k].sent_ms > 1000 && s.mesh.contains(
                        s.pending_mesh[k].target,
                    ),
            );
            &&& t == (State { outbox: t.outbox, ..s })
            &&& t.outbox == s.outbox + due.map_values(
                |k: Seq<char>|
                    Sent::Mesh { region: s.pending_mesh[k].target, msg: s.pending_mesh[k].frame },
            )
        }),
    decreases names.len(),
{
    reveal(Seq::filter);
    let f = |k: Seq<char>|
        now_ms - s.pending_mesh[k].sent_ms > 1000 && s.mesh.contains(s.pending_mesh[k].target);
    let g = |k: Seq<char>|
        Sent::Mesh { region: s.pending_mesh[k].target, msg: s.pending_mesh[k].frame };
    let t = s.resent(names, now_ms);
    if names.len() > 0 {
        let d = names.drop_last();
        lemma_resent(s, d, now_ms);
        if f(names.last()) {
            assert(names.filter(f).map_values(g) =~= d.filter(f).map_values(g).push(
                g(names.last()),
            ));
            assert(t.outbox =~= s.outbox + names.filter(f).map_values(g));
        } else {
            assert(t.outbox =~= s.outbox + names.filter(f).map_values(g));
        }
    } else {
        assert(t.outbox =~= s.outbox + names.filter(f).map_values(g));
    }
}

/// A departure that nobody confirmed for a second is sent again, to where it was sent, as it
/// was, while the link is up; and nothing else is. It stays parked until it is confirmed.
pub proof fn law_unconfirmed_departures_are_sent_again(s: State, eid: Seq<char>, now_ms: u64)
    requires
        s.pending_mesh.dom().finite(),
    ensures
        ({
            let t = s.resent(sorted(s.pending_mesh.dom()), now_ms);
            let p = s.pending_mesh[eid];
            &&& only_sends(s, t)
            &&& s.pending_mesh.contains_key(eid) && now_ms - p.sent_ms > 1000 && s.mesh.contains(
                p.target,
            ) ==> sent_since(s, t).contains(Sent::Mesh { region: p.target, msg: p.frame })
            &&& forall|i: int|
                0 <= i < sent_since(s, t).len() ==> exists|k: Seq<char>| #[trigger]
                    s.pending_mesh.contains_key(k) && now_ms - s.pending_mesh[k].sent_ms > 1000
                        && s.mesh.contains(s.pending_mesh[k].target) && #[trigger] sent_since(s, t)[i]
                        == (Sent::Mesh {
                        region: s.pending_mesh[k].target,
                        msg: s.pending_mesh[k].frame,
                    })
            &&& s.acked(eid, true).pending_mesh == s.pending_mesh.remove(eid)
            &&& s.acked(eid, false).pending_mesh == s.pending_mesh
        }),
{
    let names = sorted(s.pending_mesh.dom());
    lemma_all_names(s.pending_mesh.dom());
    lemma_resent(s, names, now_ms);
    let t = s.resent(names, now_ms);
    let f = |k: Seq<char>|
        now_ms - s.pending_mesh[k].sent_ms > 1000 && s.mesh.contains(s.pending_mesh[k].target);
    let g = |k: Seq<char>|
        Sent::Mesh { region: s.pending_mesh[k].target, msg: s.pending_mesh[k].frame };
    let due = names.filter(f);
    crate::signals::lemma_filtered(names, f);
    assert(s.outbox =~= t.outbox.subrange(0, s.outbox.len() as int));
    assert(sent_since(s, t) =~= due.map_values(g));
    if s.pending_mesh.contains_key(eid) && f(eid) {
        assert(names.contains(eid));
        assert(due.contains(eid));
        let i = choose|i: int| 0 <= i < due.len() && due[i] == eid;
        assert(sent_since(s, t)[i] == g(eid));
    }
    assert forall|i: int| 0 <= i < sent_since(s, t).len() implies exists|k: Seq<char>| #[trigger]
        s.pending_mesh.contains_key(k) && now_ms - s.pending_mesh[k].sent_ms > 1000
            && s.mesh.contains(s.pending_mesh[k].target) && #[trigger] sent_since(s, t)[i]
            == (Sent::Mesh { region: s.pending_mesh[k].target, msg: s.pending_mesh[k].frame }) by {
        let k = due[i];
        assert(due.contains(k));
        assert(names.contains(k));
        assert(s.pending_mesh.contains_key(k));
    }
}

/// Which arrivals are taken: one that names an entity, from a sender that nobody has taken
/// over from, of what was not deleted here, and newer than what this broker sent on. Where
/// the entity is still on its way out, that departure is confirmed first.
pub proof fn law_which_arrivals_are_taken(s: State, f: Doc)
    ensures
        ({
            let k = msg_entity(f);
            let src = f.get_str("src_region"@);
            let lease = f.get_u64("lease_epoch"@);
            let epoch = f.get_u64("authority_epoch"@);
            let fenced = src is Some && lease is Some && s.region_lease_epoch.contains_key(src->0)
                && lease->0 < s.region_lease_epoch[src->0];
            let sent_on = s.mesh_forwarded_epoch.contains_key(k);
            let newer = epoch is Some && epoch->0 > s.mesh_forwarded_epoch[k];
            let taken = k.len() > 0 && !fenced && !s.mesh_adopt_drop && !s.deleted_entities.contains(
                k,
            ) && (sent_on ==> newer) && !(!sent_on && s.pending_mesh.contains_key(k));
            &&& s.gate(f) == Gate::Stop <==> !taken
            &&& s.gate(f) == Gate::AckFirst <==> taken && s.pending_mesh.contains_key(k)
            &&& s.gate(f) == Gate::Go <==> taken && !s.pending_mesh.contains_key(k)
        }),
{
}

/// Where an arrival belongs: on a grid to the cell that it is addressed to, or else to the
/// one that it stands in, where this broker owns it; without a grid to this broker's region
/// where it has one, else to the region that it is addressed to where a worker holds that,
/// else to where it stands.
pub proof fn law_where_arrivals_belong(
    s: State,
    x: Option<u64>,
    target: Option<Seq<char>>,
    cell: Seq<char>,
)
    ensures
        ({
            let t = match target {
                Some(t) => trimmed(t),
                None => Seq::empty(),
            };
            let r = s.adopting_region(x, target, cell);
            let mine = |k: Seq<char>| s.region_worker.contains_key(k) || s.my_region == k;
            &&& s.grid2d is Some && cell_of_name(t) is Some ==> match cell_of_name(t)->0 {
                (col, row) => (r == Some(t) <==> mine(t) && 0 <= col < (s.grid2d->0).cols && 0 <= row
                    < (s.grid2d->0).rows) && (r is None || r == Some(t)),
            }
            &&& s.grid2d is Some && cell_of_name(t) is None ==> r == if mine(cell) {
                Some(cell)
            } else {
                None
            }
            &&& s.grid2d is None && s.my_region.len() > 0 ==> r == Some(s.my_region)
            &&& s.grid2d is None && s.my_region.len() == 0 && t.len() > 0
                && s.region_worker.contains_key(t) ==> r == Some(refined(coarse(t), x, s.splits))
            &&& s.grid2d is None && s.my_region.len() == 0 && !(t.len() > 0
                && s.region_worker.contains_key(t)) ==> r == Some(
                spawned_region(x, None, s.boundaries, s.splits),
            )
        }),
{
}

/// What waits to cross to a neighbour waits once, for the latest target.
pub proof fn law_one_crossing_for_each(s: State, eid: Seq<char>, target: Seq<char>, other: Seq<char>)
    requires
        s.entities.contains_key(eid),
        forall|i: int, j: int|
            0 <= i < j < s.pending_remote_handoffs.len() ==> (#[trigger] s.pending_remote_handoffs[i]).0
                != (#[trigger] s.pending_remote_handoffs[j]).0,
    ensures
        ({
            let q = s.pending_remote_handoffs;
            let r = s.crossing_queued(eid, target).pending_remote_handoffs;
            &&& r.contains((eid, target))
            &&& forall|i: int, j: int|
                0 <= i < j < r.len() ==> (#[trigger] r[i]).0 != (#[trigger] r[j]).0
            &&& forall|i: int|
                0 <= i < q.len() && (#[trigger] q[i]).0 != eid ==> i < r.len() && r[i] == q[i]
            &&& r.len() <= q.len() + 1
        }),
{
    lemma_remote_index(s, eid, 0);
    let q = s.pending_remote_handoffs;
    let i = s.remote_index(eid, 0);
    let r = s.crossing_queued(eid, target).pending_remote_handoffs;
    if i < q.len() {
        assert(r[i] == (eid, target));
    } else {
        assert(r[q.len() as int] == (eid, target));
    }
}

proof fn lemma_remote_index(s: State, eid: Seq<char>, i: int)
    requires
        0 <= i <= s.pending_remote_handoffs.len(),
    ensures
        ({
            let q = s.pending_remote_handoffs;
            let r = s.remote_index(eid, i);
            &&& i <= r <= q.len()
            &&& r < q.len() ==> q[r].0 == eid
            &&& forall|j: int| i <= j < r ==> (#[trigger] q[j]).0 != eid
        }),
    decreases s.pending_remote_handoffs.len() - i,
{
    if i < s.pending_remote_handoffs.len() && s.pending_remote_handoffs[i].0 != eid {
        lemma_remote_index(s, eid, i + 1);
    }
}

/// A crossing that waited is made where the entity still belongs to that neighbour.
pub proof fn law_crossings_are_looked_at_again(
    s: State,
    eid: Seq<char>,
    target: Seq<char>,
    cell: Seq<char>,
)
    ensures
        s.is_current(eid, target, cell) == (s.entities.contains_key(eid) && s.mesh_regions.contains(
            target,
        ) && !s.region_worker.contains_key(target) && target == if s.grid2d is Some {
            cell
        } else {
            crate::partition::moved_region(
                s.entities[eid].pos.x,
                s.entities[eid].region,
                s.boundaries,
                s.splits,
            )
        }),
{
}

/// A transfer to a neighbour's region waits until what was written before is applied, and one
/// to a region here goes to the log, once for each entity.
pub proof fn law_how_transfers_start(
    s: State,
    eid: Seq<char>,
    from: Seq<char>,
    to: Seq<char>,
)
    requires
        s.entities.contains_key(eid),
    ensures
        ({
            let remote = s.mesh_regions.contains(to) && !s.region_worker.contains_key(to);
            let queued = exists|i: int|
                0 <= i < s.pending_handoffs.len() && (#[trigger] s.pending_handoffs[i]).eid == eid;
            let b = s.begun(eid, from, to, None);
            let t = s.crossing_begun(eid, to);
            &&& remote ==> b == crate::moves::Begun::Done(true)
                && t.pending_remote_handoffs.contains((eid, to))
            &&& !remote ==> t == s
            &&& !remote && queued ==> b == crate::moves::Begun::Done(true)
            &&& !remote && !queued ==> match b {
                crate::moves::Begun::Log(h) => h.eid == eid && h.from == from && h.to == to && h.pos
                    is None && h.old_wid == at(s.region_worker, from) && h.new_wid == at(
                    s.region_worker,
                    to,
                ) && h.version == succ(s.entities[eid].version),
                _ => false,
            }
        }),
{
    lemma_remote_index(s, eid, 0);
    let i = s.remote_index(eid, 0);
    let q = s.pending_remote_handoffs;
    let r = s.crossing_queued(eid, to).pending_remote_handoffs;
    if i < q.len() {
        assert(r[i] == (eid, to));
    } else {
        assert(r[q.len() as int] == (eid, to));
    }
}

/// Who takes a step of a threshold transaction: the holder of the entity's region or an
/// administrator, under the current epoch, of an entity that is here, with a name and one of
/// the five phases.
pub proof fn law_who_steps(s: State, wid: Seq<char>, f: Doc, now_ms: u64)
    ensures
        ({
            let tx = tx_of(f, now_ms);
            let phase = f.get_str("phase"@);
            s.steps(wid, f, tx) <==> {
                &&& f.get_str("entity"@) is Some && tx.eid == f.get_str("entity"@)->0 && tx.eid.len() > 0
                &&& f.get_str("tx_id"@) is Some && (f.get_str("tx_id"@)->0).len() > 0
                &&& phase == Some("prepare"@) || phase == Some("preload_ready"@) || phase == Some(
                    "commit"@,
                ) || phase == Some("adopt"@) || phase == Some("abort"@)
                &&& !s.deleted_entities.contains(tx.eid)
                &&& s.entities.contains_key(tx.eid)
                &&& at(s.region_worker, s.entities[tx.eid].region) == Some(wid) || s.has_attr(
                    wid,
                    "kernel_admin"@,
                )
                &&& is_current(s, wid, tx.eid, "threshold.tx"@, value_epoch(f))
            }
        }),
{
    reveal_strlit("");
    reveal_strlit("prepare");
    reveal_strlit("preload_ready");
    reveal_strlit("commit");
    reveal_strlit("adopt");
    reveal_strlit("abort");
    assert(""@.len() == 0 && "prepare"@.len() == 7 && "preload_ready"@.len() == 13 && "commit"@.len()
        == 6 && "adopt"@.len() == 5 && "abort"@.len() == 5);
}

/// What a step does: a first phase puts the transaction on the entity and moves nothing; a
/// commit moves it to the region that the transaction names; the last phases take the
/// transaction off. Its place and its other components stay.
pub proof fn law_what_steps_do(s: State, tx: Tx)
    requires
        s.entities.contains_key(tx.eid),
        tx.phase == "prepare"@ || tx.phase == "preload_ready"@ || tx.phase == "commit"@ || tx.phase
            == "adopt"@ || tx.phase == "abort"@,
    ensures
        ({
            let e = s.entities[tx.eid];
            let r = stepped(e, s.step_of(tx));
            let over = tx.phase == "adopt"@ || tx.phase == "abort"@;
            &&& r.pos == e.pos && r.vel == e.vel && r.version == succ(e.version)
            &&& over ==> r.components == e.components.remove("threshold.tx"@)
            &&& !over ==> r.components == e.components.insert(
                "threshold.tx"@,
                r.components["threshold.tx"@],
            ) && r.components.contains_key("threshold.tx"@)
                && r.components["threshold.tx"@].get_str("phase"@) == Some(tx.phase)
                && r.components["threshold.tx"@].get_str("tx_id"@) == Some(tx.tx_id)
            &&& tx.phase != "commit"@ ==> r.region == e.region && r.authority == e.authority
            &&& tx.phase == "commit"@ ==> r.region == match tx.to.as_str() {
                Some(t) => if t.len() > 0 {
                    t
                } else {
                    e.region
                },
                None => e.region,
            }
        }),
{
    reveal_strlit("prepare");
    reveal_strlit("preload_ready");
    reveal_strlit("commit");
    reveal_strlit("adopt");
    reveal_strlit("abort");
    assert("prepare"@.len() == 7 && "preload_ready"@.len() == 13 && "commit"@.len() == 6
        && "adopt"@.len() == 5 && "abort"@.len() == 5);
    assert("adopt"@[1] == 'd' && "abort"@[1] == 'b');
    reveal_strlit("phase");
    reveal_strlit("tx_id");
    reveal_strlit("from");
    reveal_strlit("to");
    reveal_strlit("ts_ms");
    assert("phase"@.len() == 5 && "tx_id"@.len() == 5 && "from"@.len() == 4 && "to"@.len() == 2
        && "ts_ms"@.len() == 5);
    assert("phase"@[0] == 'p' && "tx_id"@[1] == 'x' && "ts_ms"@[1] == 's' && "tx_id"@[0] == 't');
}

/// A commit hands the entity over: its physics goes from the holder of the old region to that
/// of the new one, as with any transfer.
pub proof fn law_commit_changes_hands(s: State, tx: Tx, to: Seq<char>)
    requires
        s.entities.contains_key(tx.eid),
        is_finite(s.entities[tx.eid]),
        has_named_owners(s.entities[tx.eid]),
        tx.phase == "commit"@,
        tx.to == Doc::Str(to),
        to.len() > 0,
        s.region_worker.contains_key(to),
        s.region_worker[to].len() > 0,
        s.region_worker.contains_key(s.entities[tx.eid].region),
        s.region_worker[to] != s.region_worker[s.entities[tx.eid].region],
    ensures
        ({
            let e = s.entities[tx.eid];
            let r = stepped(e, s.step_of(tx));
            let n = Ent {
                components: e.components.insert("threshold.tx"@, r.components["threshold.tx"@]),
                region: to,
                ..e
            };
            is_taken_over(n, r, Some(s.region_worker[e.region]), s.region_worker[to])
        }),
{
    let e = s.entities[tx.eid];
    let p = s.step_of(tx);
    let r = stepped(e, p);
    let n = tx.on(e);
    let old = Some(s.region_worker[e.region]);
    let new = s.region_worker[to];
    reveal_strlit("commit");
    reveal_strlit("adopt");
    reveal_strlit("abort");
    assert("commit"@.len() == 6 && "adopt"@.len() == 5 && "abort"@.len() == 5);
    assert(n.components.dom() =~= e.components.dom().insert("threshold.tx"@));
    assert(is_finite(n));
    assert(has_named_owners(n));
    let g = crate::failover::grant_of(tx.eid, n, old, Some(new));
    crate::succession::lemma_regranted(n, g, old, new);
    let q = crate::failover::regranted(n, g);
    law_physics_changes_hands(n, old, Some(new));
    crate::succession::lemma_starts_named(n);
    let m = n.advanced(old, Some(new)).authority;
    assert forall|c: Seq<char>| #[trigger] m.contains_key(c) implies m[c].owner != Some(
        Seq::<char>::empty(),
    ) by {
        if is_physics(n, c) && !is_free_of(n.recorded(c), old) {
            if n.authority.contains_key(c) {
                assert(m[c] == n.authority[c]);
            }
        } else if !is_physics(n, c) {
            assert(n.authority.contains_key(c));
        }
    }
    law_snapshot_round_trip(n, m);
    law_snapshot_round_trip(Ent { version: g.version, ..n }, m);
    assert(r.authority == q.authority);
    assert(r == q);
    assert(n.components =~= e.components.insert("threshold.tx"@, r.components["threshold.tx"@]));
}

proof fn lemma_timed_out(s: State, now_ms: u64, names: Seq<Seq<char>>)
    ensures
        forall|k: Seq<char>| #[trigger]
            timed_out_among(s, now_ms, names).contains(k) == (names.contains(k)
                && s.entities.contains_key(k) && crate::threshold::timed_out(
                s.entities[k],
                s.threshold_ttl_ms,
                now_ms,
            )),
    decreases names.len(),
{
    let q = timed_out_among(s, now_ms, names);
    if names.len() > 0 {
        let d = names.drop_last();
        let l = names.last();
        lemma_timed_out(s, now_ms, d);
        let p = timed_out_among(s, now_ms, d);
        assert(names =~= d.push(l));
        assert forall|k: Seq<char>| #[trigger] q.contains(k) == (names.contains(k)
            && s.entities.contains_key(k) && crate::threshold::timed_out(
            s.entities[k],
            s.threshold_ttl_ms,
            now_ms,
        )) by {
            crate::json::lemma_push_contains(d, l, k);
            crate::json::lemma_push_contains(p, l, k);
        }
    } else {
        assert(forall|k: Seq<char>| !q.contains(k));
    }
}

/// A transaction times out where it has waited for its commit as long as is allowed; one that
/// is committed does not, and where no limit is set none does.
pub proof fn law_which_transactions_time_out(s: State, now_ms: u64, eid: Seq<char>, ts: u64)
    requires
        s.entities.dom().finite(),
        s.entities.contains_key(eid),
        s.entities[eid].components.contains_key("threshold.tx"@),
        s.entities[eid].components["threshold.tx"@].get_u64("ts_ms"@) == Some(ts),
    ensures
        ({
            let q = timed_out_among(s, now_ms, sorted(s.entities.dom()));
            let phase = s.entities[eid].components["threshold.tx"@].get_str("phase"@);
            &&& q.contains(eid) <==> s.threshold_ttl_ms > 0 && (phase == Some("prepare"@) || phase
                == Some("preload_ready"@)) && now_ms - ts >= s.threshold_ttl_ms
            &&& forall|k: Seq<char>| #[trigger]
                q.contains(k) ==> s.entities.contains_key(k) && s.entities[k].components.contains_key(
                    "threshold.tx"@,
                )
        }),
{
    lemma_all_names(s.entities.dom());
    lemma_timed_out(s, now_ms, sorted(s.entities.dom()));
    reveal_strlit("");
    reveal_strlit("prepare");
    reveal_strlit("preload_ready");
    assert(""@.len() == 0 && "prepare"@.len() == 7 && "preload_ready"@.len() == 13);
    assert(sorted(s.entities.dom()).contains(eid));
}

}

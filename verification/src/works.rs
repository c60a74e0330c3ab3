//! What the broker's work comes to: what is granted with a place, what is told when the log
//! fails or a request is refused, and how lists of work are gone through to their end.

use vstd::prelude::*;
use vstd::string::*;
use crate::attention::{
    lemma_all_names, lemma_ops, lemma_prefix, lemma_sent_on, tells, was_sent, was_told,
};
use crate::components::{named_comp, named_entity};
use crate::dispatch::{Around, Job, Reply, Want};
use crate::doc::Doc;
use crate::entity::{succ, Auth, AuthorityMode, Ent};
use crate::failover::{failover_event, migration_event};
use crate::grants::{authority_change, component_key, regional, update_rejected};
use crate::handoff::{at, handoff_event};
use crate::order::sorted;
use crate::recovery::Store;
use crate::rights::{acl_entry, is_current};
use crate::sight::{client_comps, component_update, entity_msg};
use crate::signals::lemma_filtered;
use crate::state::{Failover, Peer, Sent, State, Upd};
use crate::succession::{is_finite, is_physics, lemma_island};
use crate::threshold::{timeout_event, tx_of};
use crate::update::{max_gen, stated_arbiter, Near};

verus! {

broadcast use {crate::doc::group_json, crate::strmap::group_map};

/// Who is made the owner of a component owns it, under the epoch that it has, has that epoch
/// on record, and is told; and who loses it does so, has no record of it, and is told. Nothing
/// else changes.
pub proof fn law_granting_and_revoking(s: State, wid: Seq<char>, eid: Seq<char>, c: Seq<char>)
    requires
        s.entities.contains_key(eid),
        s.workers.contains_key(wid),
    ensures
        ({
            let t = s.granted(wid, eid, c);
            let u = s.revoked(wid, eid, c);
            let a = s.entities[eid].recorded(c);
            let key = component_key(eid, c);
            &&& t.entities == s.entities.insert(
                eid,
                Ent {
                    authority: s.entities[eid].authority.insert(c, Auth { owner: Some(wid), ..a }),
                    ..s.entities[eid]
                },
            )
            &&& t.workers == s.workers.insert(
                wid,
                Peer {
                    authority_epochs: s.workers[wid].authority_epochs.insert(key, a.epoch),
                    ..s.workers[wid]
                },
            )
            &&& t.outbox == s.outbox.push(
                Sent::Peer { wid, msg: authority_change(eid, c, true, a.epoch, a.mode.wire()) },
            )
            &&& u.entities == s.entities.insert(
                eid,
                Ent {
                    authority: s.entities[eid].authority.insert(
                        c,
                        Auth {
                            owner: if a.owner == Some(wid) {
                                None
                            } else {
                                a.owner
                            },
                            ..a
                        },
                    ),
                    ..s.entities[eid]
                },
            )
            &&& u.workers == s.workers.insert(
                wid,
                Peer {
                    authority_epochs: s.workers[wid].authority_epochs.remove(key),
                    ..s.workers[wid]
                },
            )
            &&& u.outbox == s.outbox.push(
                Sent::Peer { wid, msg: authority_change(eid, c, false, a.epoch, a.mode.wire()) },
            )
        }),
{
    let e = s.entities[eid];
    let a = e.recorded(c);
    assert(e.ensured(c).authority.insert(c, Auth { owner: Some(wid), ..a }) =~= e.authority.insert(
        c,
        Auth { owner: Some(wid), ..a },
    ));
    let b = Auth {
        owner: if a.owner == Some(wid) {
            None
        } else {
            a.owner
        },
        ..a
    };
    assert(e.ensured(c).authority.insert(c, b) =~= e.authority.insert(c, b));
}

proof fn lemma_regional(e: Ent, wid: Seq<char>, names: Seq<Seq<char>>)
    ensures
        regional(e, wid, names) == names.filter(|c: Seq<char>| e.comes_with_region(wid, c)),
    decreases names.len(),
{
    reveal(Seq::filter);
    if names.len() > 0 {
        lemma_regional(e, wid, names.drop_last());
    }
}

/// With a region come the physics of what is in it: its holder is granted those components of
/// an entity's physics that no client may write and that nobody else owns; nobody else is
/// granted any of them on that account.
pub proof fn law_regions_come_with_their_physics(
    s: State,
    wid: Seq<char>,
    eid: Seq<char>,
)
    requires
        s.entities.contains_key(eid),
        is_finite(s.entities[eid]),
    ensures
        ({
            let e = s.entities[eid];
            let q = s.regional_grants(wid, eid);
            let t = s.regionally_granted(wid, eid);
            &&& forall|c: Seq<char>| #[trigger]
                q.contains(c) == (at(s.region_worker, e.region) == Some(wid) && is_physics(e, c)
                    && e.mode(c) == AuthorityMode::ServerPhysicsIsland && acl_entry(
                    e,
                    "client_write"@,
                    c,
                ) is None && (e.owner(c) is None || e.owner(c) == Some(wid)))
            &&& forall|c: Seq<char>| #[trigger]
                q.contains(c) ==> t.entities[eid].authority.contains_key(c)
                    && t.entities[eid].authority[c].owner == Some(wid)
            &&& at(s.region_worker, e.region) != Some(wid) ==> t == s
        }),
{
    let e = s.entities[eid];
    let names = sorted(e.island());
    lemma_island(e);
    lemma_regional(e, wid, names);
    lemma_filtered(names, |c: Seq<char>| e.comes_with_region(wid, c));
    let q = s.regional_grants(wid, eid);
    assert forall|c: Seq<char>| #[trigger] q.contains(c) == (at(s.region_worker, e.region) == Some(
        wid,
    ) && is_physics(e, c) && e.mode(c) == AuthorityMode::ServerPhysicsIsland && acl_entry(
        e,
        "client_write"@,
        c,
    ) is None && (e.owner(c) is None || e.owner(c) == Some(wid))) by {
        assert(names.to_set().contains(c) == names.contains(c));
        assert(e.island().contains(c) == is_physics(e, c));
    }
    crate::succession::lemma_grants_given(s, wid, eid, q);
}

proof fn lemma_client_comps(
    table: Map<Seq<char>, Doc>,
    attrs: Set<Seq<char>>,
    names: Seq<Seq<char>>,
)
    ensures
        forall|c: Seq<char>| #[trigger]
            client_comps(table, attrs, names).contains(c) == (names.contains(c)
                && table[c].as_str() is Some && attrs.contains(table[c].as_str()->0)),
    decreases names.len(),
{
    let q = client_comps(table, attrs, names);
    if names.len() > 0 {
        let d = names.drop_last();
        let l = names.last();
        lemma_client_comps(table, attrs, d);
        let p = client_comps(table, attrs, d);
        assert(names =~= d.push(l));
        assert forall|c: Seq<char>| #[trigger] q.contains(c) == (names.contains(c)
            && table[c].as_str() is Some && attrs.contains(table[c].as_str()->0)) by {
            crate::json::lemma_push_contains(d, l, c);
            crate::json::lemma_push_contains(p, l, c);
        }
    } else {
        assert(forall|c: Seq<char>| !q.contains(c));
    }
}

/// A client is granted what it may write: of an entity that it is shown, exactly the
/// components for which the entity's `acl` names one of its attributes.
pub proof fn law_clients_get_what_they_may_write(
    s: State,
    wid: Seq<char>,
    eid: Seq<char>,
    table: Map<Seq<char>, Doc>,
)
    requires
        s.entities.contains_key(eid),
        s.workers.contains_key(wid),
        s.entities[eid].components.contains_key("acl"@),
        s.entities[eid].components["acl"@].get("client_write"@) == Some(Doc::Obj(table)),
        table.dom().finite(),
    ensures
        ({
            let q = s.client_grants(wid, eid);
            let t = s.client_granted(wid, eid);
            &&& forall|c: Seq<char>| #[trigger]
                q.contains(c) == (table.contains_key(c) && table[c].as_str() is Some
                    && s.workers[wid].attributes.contains(table[c].as_str()->0))
            &&& forall|c: Seq<char>| #[trigger]
                q.contains(c) ==> t.entities[eid].authority.contains_key(c)
                    && t.entities[eid].authority[c].owner == Some(wid)
        }),
{
    lemma_all_names(table.dom());
    lemma_client_comps(table, s.workers[wid].attributes, sorted(table.dom()));
    crate::succession::lemma_grants_given(s, wid, eid, s.client_grants(wid, eid));
    assert forall|c: Seq<char>| #[trigger] s.client_grants(wid, eid).contains(c) == (
    table.contains_key(c) && table[c].as_str() is Some && s.workers[wid].attributes.contains(
        table[c].as_str()->0,
    )) by {
        assert(sorted(table.dom()).contains(c) == table.contains_key(c));
    }
}

/// A mirror reaches a peer as an entity does: it is in the peer's view afterwards where the
/// peer sees it, and not where it does not; one that had it is sent where it is and how it
/// moves. It never comes with any authority.
pub proof fn law_mirrors_reach_those_who_see(
    s: State,
    wid: Seq<char>,
    eid: Seq<char>,
    near: bool,
    first: bool,
)
    requires
        s.workers.contains_key(wid),
        s.ghosts.contains_key(eid),
    ensures
        ({
            let t = s.mirror_told(wid, eid, near, first);
            let w = s.workers[wid];
            let g = s.ghosts[eid];
            let sees = w.interested(g.pos, near) && crate::entity::may_read(
                w.attributes,
                g.components,
            );
            let had = w.view.contains(eid);
            &&& t.entities == s.entities && t.ghosts == s.ghosts
            &&& t.workers == s.workers.insert(
                wid,
                Peer {
                    view: if sees {
                        w.view.insert(eid)
                    } else {
                        w.view.remove(eid)
                    },
                    ..w
                },
            )
            &&& was_told(s, t, wid, "AddEntity"@, eid) == (sees && !had)
            &&& was_told(s, t, wid, "RemoveEntity"@, eid) == (!sees && had)
            &&& sees && (!had || !first) ==> was_sent(
                s,
                t,
                wid,
                component_update(eid, "pos"@, g.pos.doc()),
            ) && was_sent(s, t, wid, component_update(eid, "vel"@, g.vel.doc()))
            &&& !sees && !had ==> t.outbox == s.outbox
        }),
{
    lemma_ops();
    let t = s.mirror_told(wid, eid, near, first);
    let w = s.workers[wid];
    let g = s.ghosts[eid];
    let sees = w.sees_mirror(g, near);
    let had = w.view.contains(eid);
    let n = s.outbox.len() as int;
    assert(s.workers.insert(wid, w) =~= s.workers);
    if sees && !had {
        let a = s.emitted(wid, crate::sight::critical_section(eid, "begin"@)).emitted(
            wid,
            entity_msg("AddEntity"@, eid),
        ).emitted(wid, component_update(eid, "ghost"@, Doc::Bool(true))).emitted(
            wid,
            component_update(eid, "owner_region"@, Doc::Str(g.owner_region)),
        ).emitted(wid, component_update(eid, "pos"@, g.pos.doc())).emitted(
            wid,
            component_update(eid, "vel"@, g.vel.doc()),
        );
        let names = sorted(g.components.dom());
        crate::attention::lemma_components_sight(a, wid, eid, g.components, names);
        let b = a.components_sent(wid, eid, g.components, names);
        assert(b.outbox.is_prefix_of(t.outbox));
        lemma_prefix(a.outbox, b.outbox, t.outbox);
        assert(a.outbox.len() == n + 6);
        assert(t.outbox[n + 1] == a.outbox[n + 1]);
        assert(tells(t.outbox[n + 1], wid, "AddEntity"@, eid));
        assert(t.outbox[n + 4] == a.outbox[n + 4]);
        assert(t.outbox[n + 5] == a.outbox[n + 5]);
        assert(!was_told(s, t, wid, "RemoveEntity"@, eid)) by {
            if was_told(s, t, wid, "RemoveEntity"@, eid) {
                let k = choose|k: int|
                    n <= k < t.outbox.len() && tells(
                        #[trigger] t.outbox[k],
                        wid,
                        "RemoveEntity"@,
                        eid,
                    );
                if k < a.outbox.len() {
                    assert(t.outbox[k] == a.outbox[k]);
                } else if k < b.outbox.len() {
                    assert(t.outbox[k] == b.outbox[k]);
                    assert(crate::attention::is_aside(b.outbox[k], wid));
                }
            }
        }
    } else if !sees && had {
        crate::attention::law_hidden(s, wid, eid);
    } else if sees && !first {
        assert(w.view.insert(eid) =~= w.view);
        assert(t.outbox[n] == (Sent::Peer {
            wid,
            msg: component_update(eid, "pos"@, g.pos.doc()),
        }));
        assert(t.outbox[n + 1] == (Sent::Peer {
            wid,
            msg: component_update(eid, "vel"@, g.vel.doc()),
        }));
    } else if sees {
        assert(w.view.insert(eid) =~= w.view);
    } else {
        assert(w.view.remove(eid) =~= w.view);
    }
}

/// A mirror that a neighbour sends is taken in, unless it names nothing or an entity that is
/// here.
pub proof fn law_mirrors_are_taken_in(s: State, f: Doc, near: Set<Seq<char>>, now_ms: u64)
    ensures
        ({
            let t = s.mirrored(f, near, now_ms);
            let k = crate::adopt::msg_entity(f);
            let taken = k.len() > 0 && !s.entities.contains_key(k);
            &&& t.entities == s.entities
            &&& taken ==> t.ghosts == s.ghosts.insert(k, crate::ghosts::mirror_of(f, now_ms))
            &&& !taken ==> t == s
        }),
{
    let k = crate::adopt::msg_entity(f);
    let a = State { ghosts: s.ghosts.insert(k, crate::ghosts::mirror_of(f, now_ms)), ..s };
    crate::ghosts::lemma_spread_keeps(
        a,
        sorted(a.workers.dom()),
        k,
        near,
        !s.ghosts.contains_key(k),
    );
}

proof fn lemma_writes_refused(s: State, us: Seq<Upd>)
    ensures
        ({
            let t = s.writes_refused(us);
            &&& t == (State { outbox: t.outbox, ..s })
            &&& s.outbox.is_prefix_of(t.outbox)
            &&& forall|i: int|
                0 <= i < us.len() && s.workers.contains_key((#[trigger] us[i]).writer) ==> exists|
                    reason: Seq<char>,
                | #[trigger]
                    was_sent(s, t, us[i].writer, update_rejected(us[i].eid, us[i].comp, reason))
        }),
    decreases us.len(),
{
    let t = s.writes_refused(us);
    if us.len() > 0 {
        let d = us.drop_last();
        lemma_writes_refused(s, d);
        let p = s.writes_refused(d);
        assert(p.outbox.is_prefix_of(t.outbox));
        lemma_prefix(s.outbox, p.outbox, t.outbox);
        assert forall|i: int| 0 <= i < us.len() && s.workers.contains_key((#[trigger] us[i]).writer) implies exists|
            reason: Seq<char>,
        | #[trigger]
            was_sent(s, t, us[i].writer, update_rejected(us[i].eid, us[i].comp, reason)) by {
            if i < d.len() {
                assert(d[i] == us[i]);
                let reason = choose|reason: Seq<char>| #[trigger]
                    was_sent(s, p, us[i].writer, update_rejected(us[i].eid, us[i].comp, reason));
                lemma_sent_on(s, p, t, us[i].writer, update_rejected(us[i].eid, us[i].comp, reason));
            } else {
                let m = update_rejected(us[i].eid, us[i].comp, crate::update::not_synced_reason());
                assert(t.outbox[p.outbox.len() as int] == (Sent::Peer {
                    wid: us[i].writer,
                    msg: m,
                }));
                assert(was_sent(s, t, us[i].writer, m));
            }
        }
    }
}

/// Writes that are not durable are nobody's: none is applied, none stays queued, and the
/// writer of each is told. Writes that are durable are taken off the queue to be applied, and
/// the durable generation is at least that of each.
pub proof fn law_writes_are_durable_or_refused(s: State)
    ensures
        ({
            let t = s.writes_synced(false);
            let u = s.writes_synced(true);
            let us = s.pending_updates;
            &&& t.entities == s.entities && t.workers == s.workers && t.wal == s.wal
            &&& t.pending_updates.len() == 0
            &&& forall|i: int|
                0 <= i < us.len() && s.workers.contains_key((#[trigger] us[i]).writer) ==> exists|
                    reason: Seq<char>,
                | #[trigger]
                    was_sent(s, t, us[i].writer, update_rejected(us[i].eid, us[i].comp, reason))
            &&& u.entities == s.entities && u.outbox == s.outbox && u.pending_updates.len() == 0
            &&& u.wal.durable_gen >= s.wal.durable_gen
            &&& forall|i: int|
                0 <= i < us.len() ==> u.wal.durable_gen >= (#[trigger] us[i]).gen
        }),
{
    let a = State { pending_updates: Seq::empty(), ..s };
    lemma_writes_refused(a, s.pending_updates);
    let t = s.writes_synced(false);
    let us = s.pending_updates;
    assert forall|i: int| 0 <= i < us.len() && s.workers.contains_key((#[trigger] us[i]).writer) implies exists|
        reason: Seq<char>,
    | #[trigger]
        was_sent(s, t, us[i].writer, update_rejected(us[i].eid, us[i].comp, reason)) by {
        let reason = choose|reason: Seq<char>| #[trigger]
            was_sent(a, t, us[i].writer, update_rejected(us[i].eid, us[i].comp, reason));
        assert(was_sent(s, t, us[i].writer, update_rejected(us[i].eid, us[i].comp, reason)));
    }
    lemma_max_gen(us, s.wal.durable_gen);
}

proof fn lemma_max_gen(us: Seq<Upd>, least: u64)
    ensures
        max_gen(us, least) >= least,
        forall|i: int| 0 <= i < us.len() ==> max_gen(us, least) >= (#[trigger] us[i]).gen,
    decreases us.len(),
{
    if us.len() > 0 {
        let d = us.drop_last();
        lemma_max_gen(d, least);
        assert forall|i: int| 0 <= i < us.len() implies max_gen(us, least) >= (#[trigger] us[i]).gen by {
            if i < d.len() {
                assert(d[i] == us[i]);
            }
        }
    }
}

/// Whether a message answers a request, and says that it failed.
pub open spec fn says_no(m: Sent, wid: Seq<char>, op: Seq<char>, f: Doc) -> bool {
    m matches Sent::Peer { wid: w, msg } && w == wid && msg.get_str("op"@) == Some(op) && msg.get(
        "request_id"@,
    ) == f.get("request_id"@) && msg.get("success"@) == Some(Doc::Bool(false))
}

/// A request that is refused, or whose change did not reach the log, is answered with that,
/// under its own name, and changes nothing.
pub proof fn law_refused_requests_are_answered(
    s: State,
    wid: Seq<char>,
    f: Doc,
    eid: Seq<char>,
)
    requires
        s.workers.contains_key(wid),
        f.get("request_id"@) is Some,
        f.get_str("entity"@) == Some(eid),
    ensures
        ({
            let a = s.create_answered(wid, f);
            let b = s.create_finished(wid, f, eid, false);
            let c = s.delete_answered(wid, f);
            let d = s.delete_finished(wid, f, eid, false);
            let no = |t: State, op: Seq<char>|
                t == (State { outbox: t.outbox, ..s }) && t.outbox.len() == s.outbox.len() + 1
                    && says_no(t.outbox.last(), wid, op, f);
            let may_delete = at(s.region_worker, s.entities[eid].region) == Some(wid) || s.has_attr(
                wid,
                "kernel_admin"@,
            );
            &&& no(a, "CreateEntityResponse"@)
            &&& no(b, "CreateEntityResponse"@)
            &&& !s.deleted_entities.contains(eid) && (!s.entities.contains_key(eid) || !may_delete)
                ==> no(c, "DeleteEntityResponse"@)
            &&& no(d, "DeleteEntityResponse"@)
        }),
{
    reveal_strlit("op");
    reveal_strlit("request_id");
    reveal_strlit("entity");
    reveal_strlit("success");
    reveal_strlit("reason");
    assert("op"@.len() == 2 && "request_id"@.len() == 10 && "entity"@.len() == 6 && "success"@.len()
        == 7 && "reason"@.len() == 6);
    assert("entity"@[0] == 'e' && "reason"@[0] == 'r');
}

/// The same of a change of owners and of a step of a transaction.
pub proof fn law_refused_changes_are_answered(
    s: State,
    wid: Seq<char>,
    f: Doc,
    now_ms: u64,
    req: Doc,
)
    requires
        s.workers.contains_key(wid),
        f.get("request_id"@) == Some(req),
    ensures
        ({
            let tx = tx_of(f, now_ms);
            let a = s.change_answered(wid, f);
            let b = s.change_finished(wid, f, s.change_of(f), false);
            let c = s.step_refused(wid, f, tx);
            let d = s.step_finished(wid, f, s.step_of(tx), false);
            let no = |t: State, op: Seq<char>|
                t == (State { outbox: t.outbox, ..s }) && t.outbox.len() == s.outbox.len() + 1
                    && says_no(t.outbox.last(), wid, op, f);
            &&& !s.has_attr(wid, "kernel_admin"@) ==> no(a, "SetComponentAuthorityResponse"@)
            &&& no(b, "SetComponentAuthorityResponse"@)
            &&& !tx.is_valid() || s.deleted_entities.contains(tx.eid) || !s.entities.contains_key(
                tx.eid,
            ) || (at(s.region_worker, s.entities[tx.eid].region) != Some(wid) && !s.has_attr(
                wid,
                "kernel_admin"@,
            )) ==> no(c, "ThresholdTxResponse"@)
            &&& no(d, "ThresholdTxResponse"@)
        }),
{
    reveal_strlit("op");
    reveal_strlit("request_id");
    reveal_strlit("entity");
    reveal_strlit("comp");
    reveal_strlit("success");
    reveal_strlit("reason");
    reveal_strlit("tx_id");
    reveal_strlit("phase");
    assert("op"@.len() == 2 && "request_id"@.len() == 10 && "entity"@.len() == 6 && "success"@.len()
        == 7 && "reason"@.len() == 6 && "comp"@.len() == 4 && "tx_id"@.len() == 5 && "phase"@.len()
        == 5);
    assert("entity"@[0] == 'e' && "reason"@[0] == 'r');
}

/// A component that may not come or go stays as it is, and its sender is told which one.
pub proof fn law_refused_components_are_told(s: State, wid: Seq<char>, f: Doc)
    requires
        s.workers.contains_key(wid),
        s.entities.contains_key(named_entity(f)),
        !s.may_alter(wid, f),
    ensures
        ({
            let t = s.alter_refused(wid, f);
            &&& t == (State { outbox: t.outbox, ..s })
            &&& t.outbox.len() == s.outbox.len() + 1
            &&& t.outbox.last() matches Sent::Peer { wid: w, msg } && w == wid && msg.get_str(
                "op"@,
            ) == Some("UpdateRejected"@) && msg.get_str("entity"@) == Some(named_entity(f))
                && msg.get_str("comp"@) == Some(named_comp(f))
        }),
{
    reveal_strlit("op");
    reveal_strlit("entity");
    reveal_strlit("comp");
    reveal_strlit("reason");
    reveal_strlit("authority_epoch");
    assert("op"@.len() == 2 && "entity"@.len() == 6 && "comp"@.len() == 4 && "reason"@.len() == 6
        && "authority_epoch"@.len() == 15);
    assert("entity"@[0] == 'e' && "reason"@[0] == 'r');
}

/// Lists of work are gone through to their end: each takes up its next piece and goes on with
/// the one behind it, until there is none.
pub proof fn law_lists_are_gone_through(
    s: State,
    jobs: Seq<Job>,
    list: Seq<(Seq<char>, Seq<char>)>,
    ids: Seq<Seq<char>>,
    next: nat,
    a: Reply,
    env: Around,
)
    ensures
        ({
            let t = s.stepped(jobs.push(Job::Depart { list, next }), a, env);
            let u = s.stepped(jobs.push(Job::Reroute { eids: ids, next }), a, env);
            let v = s.stepped(jobs.push(Job::Timeouts { ids, next }), a, env);
            let w = s.stepped(jobs.push(Job::Cross { list, next }), a, env);
            &&& t.0 == s && u.0 == s && v.0 == s && w.0 == s
            &&& next >= list.len() ==> t.1 == jobs && w.1 == jobs
            &&& next >= ids.len() ==> u.1 == jobs && v.1 == jobs
            &&& next < list.len() ==> {
                let (eid, target) = list[next as int];
                let more = jobs.push(Job::Depart { list, next: next + 1 });
                let d = s.departure_of(eid, target);
                &&& s.can_leave(eid, target) ==> t.1 == more.push(Job::Leaving { d }) && t.2
                    == Want::Append(d.event)
                &&& !s.can_leave(eid, target) ==> t.1 == more
                &&& w.1 == jobs.push(Job::CrossAt { list, next }) && w.2 == Want::Cell(eid)
            }
            &&& next < ids.len() ==> {
                let k = ids[next as int];
                let more = jobs.push(Job::Timeouts { ids, next: next + 1 });
                let open = s.entities.contains_key(k) && s.entities[k].components.contains_key(
                    "threshold.tx"@,
                );
                &&& u.1 == jobs.push(Job::Reroute { eids: ids, next: next + 1 }).push(
                    Job::RerouteAt { eid: k },
                ) && u.2 == Want::Cell(k)
                &&& open ==> v.1 == more.push(Job::TimedOut { eid: k }) && v.2 == Want::Commit(
                    timeout_event(k, s.entities[k]),
                )
                &&& !open ==> v.1 == more
            }
        }),
{
    reveal(State::on_depart);
    reveal(State::on_reroute);
    reveal(State::on_timeouts);
    reveal(State::on_cross);
    assert(jobs.push(Job::Depart { list, next }).drop_last() =~= jobs);
    assert(jobs.push(Job::Reroute { eids: ids, next }).drop_last() =~= jobs);
    assert(jobs.push(Job::Timeouts { ids, next }).drop_last() =~= jobs);
    assert(jobs.push(Job::Cross { list, next }).drop_last() =~= jobs);
}

/// A crossing that waited is made where the entity still belongs there, and left where it
/// does not; either way the next is looked at.
pub proof fn law_crossings_go_on(
    s: State,
    jobs: Seq<Job>,
    list: Seq<(Seq<char>, Seq<char>)>,
    next: nat,
    a: Reply,
    env: Around,
)
    requires
        next < list.len(),
    ensures
        ({
            let t = s.stepped(jobs.push(Job::CrossAt { list, next }), a, env);
            let (eid, target) = list[next as int];
            let more = jobs.push(Job::Cross { list, next: next + 1 });
            let goes = s.is_current(eid, target, a.cell()) && s.can_leave(eid, target);
            &&& t.0 == s
            &&& goes ==> t.1 == more.push(Job::Leaving { d: s.departure_of(eid, target) })
            &&& !goes ==> t.1 == more
        }),
{
    reveal(State::on_cross_at);
    assert(jobs.push(Job::CrossAt { list, next }).drop_last() =~= jobs);
}

/// A departure is durable before the entity goes: it is put on the log, then synced, and only
/// then is the entity gone from here.
pub proof fn law_departures_are_durable_first(
    s: State,
    jobs: Seq<Job>,
    eid: Seq<char>,
    target: Seq<char>,
    env: Around,
)
    ensures
        ({
            let d = s.departure_of(eid, target);
            let t = s.stepped(jobs.push(Job::Leaving { d }), Reply::Went(true), env);
            let u = t.0.stepped(t.1, Reply::Went(true), env);
            let v = t.0.stepped(t.1, Reply::Went(false), env);
            let w = s.stepped(jobs.push(Job::Leaving { d }), Reply::Went(false), env);
            &&& t.0.entities == s.entities && t.2 == Want::Sync
            &&& u.0 == t.0.departed(d, env.gauges.now_ms) && u.1 == jobs
            &&& v.0.entities == s.entities && v.0.pending_mesh == s.pending_mesh && v.0.outbox
                == s.outbox && v.1 == jobs
            &&& w.0 == s && w.1 == jobs
        }),
{
    reveal(State::on_leaving);
    reveal(State::on_left);
    let d = s.departure_of(eid, target);
    assert(jobs.push(Job::Leaving { d }).drop_last() =~= jobs);
    assert(jobs.push(Job::Left { d }).drop_last() =~= jobs);
}

/// A failover that is found goes to the log and is then queued; where the log does not take
/// it, the standby stands by again in its place. A migration likewise.
pub proof fn law_failovers_are_logged_first(
    s: State,
    jobs: Seq<Job>,
    regions: Seq<Seq<char>>,
    next: nat,
    a: Reply,
    env: Around,
)
    requires
        next <= regions.len(),
    ensures
        ({
            let (after, i, f) = s.leases_checked(regions, next as int, env.gauges.now_ms);
            let t = s.stepped(jobs.push(Job::Leases { regions, next }), a, env);
            let u = t.0.stepped(t.1, Reply::Went(true), env);
            let v = t.0.stepped(t.1, Reply::Went(false), env);
            &&& t.0 == after
            &&& f is None ==> t.1 == jobs
            &&& f is Some ==> {
                &&& t.2 == Want::Append(failover_event(f->0))
                &&& u.1 == jobs.push(Job::Leases { regions, next: i as nat })
                &&& u.0.pending_failovers == after.pending_failovers.push(f->0)
                &&& u.0.entities == after.entities
                &&& v.1 == u.1
                &&& v.0 == (State { standbys: after.standbys.insert(0, (f->0).new_wid), ..after })
            }
        }),
{
    reveal(State::on_leases);
    reveal(State::on_failover);
    assert(jobs.push(Job::Leases { regions, next }).drop_last() =~= jobs);
    let (after, i, f) = s.leases_checked(regions, next as int, env.gauges.now_ms);
    if f is Some {
        let more = jobs.push(Job::Leases { regions, next: i as nat });
        assert(more.push(Job::Failover { failover: f->0 }).drop_last() =~= more);
    }
}

/// The move of a block that evens out the grid goes to the log once, and is then queued; an
/// entity whose turn it is to be routed anew is handed to where it belongs.
pub proof fn law_rebalancing_goes_on(
    s: State,
    jobs: Seq<Job>,
    eid: Seq<char>,
    a: Reply,
    env: Around,
)
    ensures
        ({
            let t = s.stepped(jobs.push(Job::Rebalance2d), a, env);
            let u = t.0.stepped(t.1, Reply::Went(true), env);
            let v = s.stepped(jobs.push(Job::RerouteAt { eid }), a, env);
            let under_way = s.evening_move() is Some && exists|i: int|
                0 <= i < s.pending_block_migrations.len() && (
                #[trigger] s.pending_block_migrations[i]).block == (s.evening_move()->0).0;
            &&& t.0 == s
            &&& s.evening_move() is None || under_way ==> t.1 == jobs
            &&& s.evening_move() is Some && !under_way ==> {
                let (block, hot, cold) = s.evening_move()->0;
                let m = s.migration_of(block, hot, cold);
                &&& t.2 == Want::Append(migration_event(m))
                &&& u.1 == jobs
                &&& u.0.pending_block_migrations == s.pending_block_migrations.push(m)
                &&& u.0.entities == s.entities
            }
            &&& s.route_of(eid, a.cell()) is None ==> v.0 == s && v.1 == jobs
            &&& s.route_of(eid, a.cell()) is Some ==> {
                let to = s.route_of(eid, a.cell())->0;
                let from = s.entities[eid].region;
                &&& v.0 == s.crossing_begun(eid, to)
                &&& s.begun(eid, from, to, None) matches crate::moves::Begun::Log(h) ==> v.1
                    == jobs.push(Job::Handoff { h }) && v.2 == Want::Append(handoff_event(h))
            }
        }),
{
    reveal(State::on_rebalance_2d);
    reveal(State::on_migration);
    reveal(State::on_reroute_at);
    assert(jobs.push(Job::Rebalance2d).drop_last() =~= jobs);
    assert(jobs.push(Job::RerouteAt { eid }).drop_last() =~= jobs);
    if s.evening_move() is Some {
        let (block, hot, cold) = s.evening_move()->0;
        let m = s.migration_of(block, hot, cold);
        assert(jobs.push(Job::Migration { m }).drop_last() =~= jobs);
    }
}

/// A write that is applied is shown: it is in the entity, the entity is placed by it, and
/// what that starts goes on before those who see it are told; then the next write follows.
pub proof fn law_applied_writes_are_shown(
    s: State,
    jobs: Seq<Job>,
    updates: Seq<Upd>,
    next: nat,
    a: Reply,
    b: Reply,
    env: Around,
)
    requires
        next < updates.len(),
        s.entities.contains_key(updates[next as int].eid),
    ensures
        ({
            let u = updates[next as int];
            let t = s.stepped(jobs.push(Job::Publish { updates, next }), a, env);
            let more = jobs.push(Job::Publish { updates, next: next + 1 });
            let z = Job::Zone { eid: u.eid, comp: u.comp, value: u.value };
            let show = Job::Show { eid: u.eid, comp: u.comp, value: u.value };
            let v = t.0.stepped(t.1, b, env);
            let to = t.0.zone_target(u.eid, u.comp, b.cell());
            &&& t.1 == more.push(z)
            &&& u.comp == "pos"@ ==> t.2 == Want::Cell(u.eid)
            &&& t.0.entities == s.entities.insert(
                u.eid,
                crate::update::written(s.entities[u.eid], u),
            )
            &&& to is None ==> v.1 == more.push(show)
            &&& to is Some ==> match t.0.zoned(u.eid, u.comp, b.cell()).begun(
                u.eid,
                t.0.entities[u.eid].region,
                to->0,
                None,
            ) {
                crate::moves::Begun::Log(h) => v.1 == more.push(show).push(Job::Handoff { h })
                    && v.2 == Want::Append(handoff_event(h)),
                crate::moves::Begun::Done(_) => v.1 == more.push(show),
            }
        }),
{
    reveal(State::on_publish);
    reveal(State::on_zone);
    let u = updates[next as int];
    let q = jobs.push(Job::Publish { updates, next });
    assert(q.drop_last() =~= jobs);
    let more = jobs.push(Job::Publish { updates, next: next + 1 });
    let z = Job::Zone { eid: u.eid, comp: u.comp, value: u.value };
    assert(more.push(z).drop_last() =~= more);
}

/// A restart has what was stored: its entities, what was deleted, the mark of reserved
/// numbers, the fences, and every departure that nobody confirmed, to be sent again.
pub proof fn law_restart_has_what_was_stored(s: State, st: Store, now_ms: u64, k: Seq<char>)
    ensures
        ({
            let t = s.recovered(st, now_ms);
            &&& t.entities == st.entities
            &&& t.deleted_entities == st.tombstones
            &&& t.entity_id_reservations == st.id_hwm
            &&& t.mesh_forwarded_epoch == st.forwarded
            &&& st.pending.contains_key(k) ==> t.pending_mesh.contains_key(k)
                && t.pending_mesh[k].frame.get_str("entity"@) == Some(k)
                && t.pending_mesh[k].frame.get_str("op"@) == Some("MeshHandoff"@)
            &&& !st.pending.contains_key(k) ==> t.pending_mesh.contains_key(k)
                == s.pending_mesh.contains_key(k)
        }),
{
    reveal_strlit("op");
    reveal_strlit("entity");
    reveal_strlit("target");
    reveal_strlit("pos");
    reveal_strlit("vel");
    reveal_strlit("authority_epoch");
    reveal_strlit("authority");
    reveal_strlit("src_region");
    reveal_strlit("lease_epoch");
    reveal_strlit("source_durable_gen");
    reveal_strlit("components");
    assert("op"@.len() == 2 && "entity"@.len() == 6 && "target"@.len() == 6 && "pos"@.len() == 3
        && "vel"@.len() == 3 && "authority_epoch"@.len() == 15 && "authority"@.len() == 9
        && "src_region"@.len() == 10 && "lease_epoch"@.len() == 11 && "source_durable_gen"@.len()
        == 18 && "components"@.len() == 10);
    assert("entity"@[0] == 'e' && "target"@[0] == 't');
}

/// Who drains the broker: whoever has one of three attributes. It then makes no entities any
/// more, and is done once nothing is here or on its way and there is a neighbour.
pub proof fn law_who_drains_the_broker(s: State, wid: Seq<char>, f: Doc)
    ensures
        ({
            let may = s.has_attr(wid, "kernel_admin"@) || s.has_attr(wid, "inspector"@) || s.has_attr(
                wid,
                "ops"@,
            );
            let t = s.drain_begun(wid, f);
            &&& t.draining == (s.draining || may)
            &&& t.entities == s.entities
            &&& s.is_drained() == (s.draining && s.entities.dom().len() == 0
                && s.pending_mesh.dom().len() == 0 && s.mesh.len() > 0)
        }),
{
}

/// A contact is arbitrated: both components go to whom the first entity names, else to whom
/// the second names, else to the holder of the first one's region, under the server's
/// arbitration and a higher epoch; the sender of the move is told.
pub proof fn law_contacts_are_arbitrated(
    s: State,
    wid: Seq<char>,
    eid: Seq<char>,
    comp: Seq<char>,
    g: Near,
)
    requires
        s.entities.contains_key(eid),
        s.entities.contains_key(g.other),
        eid != g.other,
    ensures
        ({
            let t = s.contact_escalated(wid, eid, comp, g);
            let first = stated_arbiter(s.entities[eid], comp);
            let second = stated_arbiter(s.entities[g.other], comp);
            let owner = if first is Some {
                first
            } else if second is Some {
                second
            } else {
                at(s.region_worker, s.entities[eid].region)
            };
            &&& s.arbiter(eid, g.other, comp) == owner
            &&& forall|k: Seq<char>|
                k == eid || k == g.other ==> (#[trigger] t.entities[k]).authority.contains_key(comp)
                    && t.entities[k].authority[comp].mode == AuthorityMode::ServerArbitrated
                    && t.entities[k].authority[comp].owner == owner
                    && t.entities[k].authority[comp].epoch == succ(s.entities[k].recorded(comp).epoch)
            &&& forall|k: Seq<char>|
                k != eid && k != g.other ==> #[trigger] t.entities[k] == s.entities[k]
        }),
{
    let owner = s.arbiter(eid, g.other, comp);
    let reason = crate::update::contact_reason(g.words, g.threshold_words);
    lemma_one_arbitrated(s, eid, comp, owner, reason);
    let a = s.escalated(eid, comp, owner, reason);
    lemma_one_arbitrated(a, g.other, comp, owner, reason);
}

proof fn lemma_one_arbitrated(
    s: State,
    eid: Seq<char>,
    comp: Seq<char>,
    owner: Option<Seq<char>>,
    reason: Seq<char>,
)
    requires
        s.entities.contains_key(eid),
    ensures
        ({
            let t = s.escalated(eid, comp, owner, reason);
            &&& t.entities.dom() == s.entities.dom()
            &&& t.entities[eid].authority.contains_key(comp)
            &&& t.entities[eid].authority[comp].mode == AuthorityMode::ServerArbitrated
            &&& t.entities[eid].authority[comp].owner == owner
            &&& t.entities[eid].authority[comp].epoch == succ(s.entities[eid].recorded(comp).epoch)
            &&& forall|k: Seq<char>| k != eid ==> #[trigger] t.entities[k] == s.entities[k]
        }),
{
    let t = s.escalated(eid, comp, owner, reason);
    assert(t.entities.dom() =~= s.entities.dom());
}

}

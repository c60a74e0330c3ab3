//! Who comes after whom: what changes hands when a region fails over, a block migrates or an
//! entity crosses a border, and what stays.

use vstd::prelude::*;
use vstd::string::*;
use crate::authority::{island, law_snapshot_round_trip};
use crate::doc::Doc;
use crate::entity::{default_mode, succ, Auth, AuthorityMode, Ent};
use crate::failover::{grant_of, regranted};
use crate::grants::component_key;
use crate::handoff::{at, moved};
use crate::order::{lemma_sorted_of, sorted};
use crate::state::{Grant, Hand, Metrics, State};

verus! {

broadcast use {crate::doc::group_json, crate::strmap::group_map};

/// Whether a component belongs to the physics of an entity: the position, the velocity,
/// whatever the entity has, by the mode on record or else by the mode that it starts with.
pub open spec fn is_physics(e: Ent, c: Seq<char>) -> bool {
    if e.authority.contains_key(c) {
        e.authority[c].mode == AuthorityMode::ServerPhysicsIsland
    } else {
        (e.components.contains_key(c) || c == "pos"@ || c == "vel"@) && default_mode(
            e.components,
            c,
        ) == AuthorityMode::ServerPhysicsIsland
    }
}

/// Whether an entity has finitely many components and authorities, as every entity does.
pub open spec fn is_finite(e: Ent) -> bool {
    e.authority.dom().finite() && e.components.dom().finite()
}

/// Whether no owner on record is the empty text, which the log cannot tell from none.
pub open spec fn has_named_owners(e: Ent) -> bool {
    forall|c: Seq<char>|
        #[trigger] e.authority.contains_key(c) ==> e.authority[c].owner != Some(Seq::<char>::empty())
}

/// Whether nobody owns a component, or the given peer does.
pub open spec fn is_free_of(a: Auth, old: Option<Seq<char>>) -> bool {
    a.owner is None || (old is Some && a.owner == old)
}

pub proof fn lemma_island(e: Ent)
    requires
        is_finite(e),
    ensures
        e.island().finite(),
        forall|c: Seq<char>| #[trigger] e.island().contains(c) == is_physics(e, c),
        sorted(e.island()).no_duplicates(),
        sorted(e.island()).to_set() == e.island(),
{
    let all = e.authority.dom().union(e.components.dom()).insert("pos"@).insert("vel"@);
    assert(e.island().subset_of(all));
    vstd::set_lib::lemma_set_subset_finite(all, e.island());
    lemma_sorted_of(e.island());
    let q = sorted(e.island());
    assert forall|i: int, j: int| 0 <= i < q.len() && 0 <= j < q.len() && i != j implies q[i]
        != q[j] by {
        if i < j {
            crate::order::lemma_lt_irreflexive(q[i], q[j]);
        } else {
            crate::order::lemma_lt_irreflexive(q[j], q[i]);
        }
    }
}

pub proof fn lemma_last_is_new(names: Seq<Seq<char>>)
    requires
        names.len() > 0,
        names.no_duplicates(),
    ensures
        names.drop_last().no_duplicates(),
        !names.drop_last().contains(names.last()),
        forall|k: Seq<char>| #[trigger]
            names.contains(k) == (names.drop_last().contains(k) || k == names.last()),
{
    let d = names.drop_last();
    assert forall|i: int, j: int| 0 <= i < d.len() && 0 <= j < d.len() && i != j implies d[i]
        != d[j] by {
        assert(d[i] == names[i] && d[j] == names[j]);
    }
    if d.contains(names.last()) {
        let j = choose|j: int| 0 <= j < d.len() && d[j] == names.last();
        assert(names[j] == names[names.len() - 1]);
    }
    assert(names =~= d.push(names.last()));
    assert forall|k: Seq<char>| #[trigger] names.contains(k) == (d.contains(k) || k
        == names.last()) by {
        crate::json::lemma_push_contains(d, names.last(), k);
    }
}

proof fn lemma_all_handed(
    e: Ent,
    names: Seq<Seq<char>>,
    epoch: u64,
    old: Option<Seq<char>>,
    new: Option<Seq<char>>,
)
    requires
        names.no_duplicates(),
    ensures
        ({
            let r = e.all_handed_on(names, epoch, old, new);
            let m = e.moved(names, epoch, old, new);
            &&& r == (Ent { authority: r.authority, ..e })
            &&& forall|k: Seq<char>| #[trigger]
                r.authority.contains_key(k) == (e.authority.contains_key(k) || names.contains(k))
            &&& forall|k: Seq<char>|
                e.authority.contains_key(k) && !names.contains(k) ==> #[trigger] r.authority[k]
                    == e.authority[k]
            &&& forall|k: Seq<char>| #[trigger]
                names.contains(k) ==> {
                    let a = e.recorded(k);
                    &&& r.authority[k].mode == a.mode
                    &&& r.authority[k].owner == if a.mode == AuthorityMode::ServerPhysicsIsland
                        && is_free_of(a, old) {
                        new
                    } else {
                        a.owner
                    }
                    &&& a.mode == AuthorityMode::ServerPhysicsIsland && is_free_of(a, old)
                        ==> r.authority[k].epoch == epoch
                    &&& !(a.mode == AuthorityMode::ServerPhysicsIsland && is_free_of(a, old))
                        && e.authority.contains_key(k) ==> r.authority[k] == e.authority[k]
                }
            &&& m.no_duplicates()
            &&& forall|k: Seq<char>| #[trigger]
                m.contains(k) == (names.contains(k) && e.recorded(k).mode
                    == AuthorityMode::ServerPhysicsIsland && is_free_of(e.recorded(k), old))
        }),
    decreases names.len(),
{
    let r = e.all_handed_on(names, epoch, old, new);
    let m = e.moved(names, epoch, old, new);
    if names.len() > 0 {
        let d = names.drop_last();
        let c = names.last();
        lemma_last_is_new(names);
        lemma_all_handed(e, d, epoch, old, new);
        let p = e.all_handed_on(d, epoch, old, new);
        let before = e.moved(d, epoch, old, new);
        let q = p.ensured(c);
        assert(q.authority[c].mode == e.recorded(c).mode);
        assert(q.authority[c].owner == e.recorded(c).owner);
        if q.moves(c, old) {
            assert(m == before.push(c));
            assert forall|k: Seq<char>| #[trigger] m.contains(k) == (before.contains(k) || k == c) by {
                crate::json::lemma_push_contains(before, c, k);
            }
            assert(!before.contains(c));
            assert forall|i: int, j: int| 0 <= i < m.len() && 0 <= j < m.len() && i != j implies m[i]
                != m[j] by {
                if i < before.len() && j < before.len() {
                    assert(m[i] == before[i] && m[j] == before[j]);
                } else if i < before.len() {
                    assert(before.contains(m[i]));
                } else {
                    assert(before.contains(m[j]));
                }
            }
        }
    } else {
        assert(forall|k: Seq<char>| !m.contains(k));
    }
}

proof fn lemma_max_epoch(e: Ent, names: Seq<Seq<char>>, least: u64)
    ensures
        e.max_epoch(names, least) >= least,
        forall|k: Seq<char>| #[trigger] names.contains(k) ==> e.epoch(k) <= e.max_epoch(names, least),
    decreases names.len(),
{
    if names.len() > 0 {
        let d = names.drop_last();
        lemma_max_epoch(e, d, least);
        assert forall|k: Seq<char>| #[trigger] names.contains(k) implies e.epoch(k) <= e.max_epoch(
            names,
            least,
        ) by {
            assert(names =~= d.push(names.last()));
            crate::json::lemma_push_contains(d, names.last(), k);
        }
    }
}

/// The physics of an entity changes hands as a whole: of what belongs to it, all that the
/// old owner had or that nobody had is the new owner's, under one epoch that is higher than
/// any before (as long as epochs go), and what somebody else has stays theirs. Nothing else
/// of the entity changes.
pub proof fn law_physics_changes_hands(e: Ent, old: Option<Seq<char>>, new: Option<Seq<char>>)
    requires
        is_finite(e),
    ensures
        ({
            let r = e.advanced(old, new);
            let m = e.advanced_names(old, new);
            let epoch = e.next_island_epoch();
            &&& r == (Ent { authority: r.authority, ..e })
            &&& forall|c: Seq<char>| #[trigger]
                is_physics(e, c) && is_free_of(e.recorded(c), old) ==> r.authority.contains_key(c)
                    && r.authority[c] == (Auth {
                    owner: new,
                    epoch,
                    mode: AuthorityMode::ServerPhysicsIsland,
                })
            &&& forall|c: Seq<char>| #[trigger]
                is_physics(e, c) && !is_free_of(e.recorded(c), old) ==> r.authority.contains_key(c)
                    && r.authority[c].owner == e.recorded(c).owner
            &&& forall|c: Seq<char>| #[trigger]
                e.authority.contains_key(c) && !(is_physics(e, c) && is_free_of(e.recorded(c), old))
                    ==> r.authority.contains_key(c) && r.authority[c] == e.authority[c]
            &&& forall|c: Seq<char>| #[trigger]
                r.authority.contains_key(c) ==> e.authority.contains_key(c) || is_physics(e, c)
            &&& forall|c: Seq<char>| #[trigger]
                is_physics(e, c) ==> epoch > e.epoch(c) || epoch == u64::MAX
            &&& m.no_duplicates()
            &&& forall|c: Seq<char>| #[trigger]
                m.contains(c) == (is_physics(e, c) && is_free_of(e.recorded(c), old))
        }),
{
    lemma_island(e);
    let names = sorted(e.island());
    lemma_all_handed(e, names, e.next_island_epoch(), old, new);
    assert forall|c: Seq<char>| #[trigger] names.contains(c) == is_physics(e, c) by {
        assert(names.to_set().contains(c) == names.contains(c));
        assert(e.island().contains(c) == is_physics(e, c));
    }
    assert forall|c: Seq<char>| is_physics(e, c) implies e.recorded(c).mode
        == AuthorityMode::ServerPhysicsIsland by {}
    lemma_max_epoch(e, names, 0);
    assert forall|c: Seq<char>| #[trigger] is_physics(e, c) implies e.next_island_epoch() > e.epoch(
        c,
    ) || e.next_island_epoch() == u64::MAX by {
        assert(names.contains(c));
    }
    assert forall|c: Seq<char>| #[trigger]
        is_physics(e, c) && is_free_of(e.recorded(c), old) implies e.advanced(old, new).authority[c]
        == (Auth { owner: new, epoch: e.next_island_epoch(), mode: AuthorityMode::ServerPhysicsIsland }) by {
        assert(names.contains(c));
    }
    assert forall|c: Seq<char>| #[trigger]
        is_physics(e, c) && !is_free_of(e.recorded(c), old) implies e.advanced(
        old,
        new,
    ).authority[c].owner == e.recorded(c).owner by {
        assert(names.contains(c));
    }
}

/// Whether an entity is another of which a peer was given something: what was on record is,
/// under the same epoch and mode, and has the same owner or the peer.
pub open spec fn is_given(e: Ent, f: Ent, wid: Seq<char>) -> bool {
    &&& f == (Ent { authority: f.authority, ..e })
    &&& forall|c: Seq<char>| #[trigger]
        e.authority.contains_key(c) ==> f.authority.contains_key(c) && f.authority[c].epoch
            == e.authority[c].epoch && f.authority[c].mode == e.authority[c].mode && (
        f.authority[c].owner == e.authority[c].owner || f.authority[c].owner == Some(wid))
}

/// Whether two states differ in one entity at most, of which a peer was given something.
pub open spec fn only_given(s: State, t: State, eid: Seq<char>, wid: Seq<char>) -> bool {
    &&& t.entities.dom() == s.entities.dom()
    &&& forall|k: Seq<char>| k != eid ==> #[trigger] t.entities[k] == s.entities[k]
    &&& s.entities.contains_key(eid) ==> is_given(s.entities[eid], t.entities[eid], wid)
    &&& t.region_worker == s.region_worker
    &&& t.region_expires == s.region_expires
    &&& t.workers.dom() == s.workers.dom()
}

proof fn lemma_given_twice(s: State, t: State, u: State, eid: Seq<char>, wid: Seq<char>)
    requires
        only_given(s, t, eid, wid),
        only_given(t, u, eid, wid),
    ensures
        only_given(s, u, eid, wid),
{
    if s.entities.contains_key(eid) {
        assert(t.entities.dom().contains(eid));
        assert(t.entities.contains_key(eid));
    }
    assert forall|k: Seq<char>| k != eid implies #[trigger] u.entities[k] == s.entities[k] by {
        assert(t.entities[k] == s.entities[k]);
    }
}

pub proof fn lemma_one_grant(s: State, wid: Seq<char>, eid: Seq<char>, c: Seq<char>)
    ensures
        ({
            let t = s.granted(wid, eid, c);
            &&& only_given(s, t, eid, wid)
            &&& s.entities.contains_key(eid) ==> t.entities[eid].authority.contains_key(c)
                && t.entities[eid].authority[c].owner == Some(wid)
        }),
{
    let t = s.granted(wid, eid, c);
    assert(t.entities.dom() =~= s.entities.dom());
    assert(t.workers.dom() =~= s.workers.dom());
}

pub proof fn lemma_grants_given(s: State, wid: Seq<char>, eid: Seq<char>, comps: Seq<Seq<char>>)
    ensures
        ({
            let t = s.all_granted(wid, eid, comps);
            &&& only_given(s, t, eid, wid)
            &&& s.entities.contains_key(eid) ==> forall|c: Seq<char>| #[trigger]
                comps.contains(c) ==> t.entities[eid].authority.contains_key(c)
                    && t.entities[eid].authority[c].owner == Some(wid)
        }),
    decreases comps.len(),
{
    if comps.len() > 0 {
        let d = comps.drop_last();
        let p = s.all_granted(wid, eid, d);
        lemma_grants_given(s, wid, eid, d);
        lemma_one_grant(p, wid, eid, comps.last());
        let t = s.all_granted(wid, eid, comps);
        lemma_given_twice(s, p, t, eid, wid);
        if s.entities.contains_key(eid) {
            assert(p.entities.dom().contains(eid));
            assert forall|c: Seq<char>| #[trigger] comps.contains(c) implies t.entities[eid].authority.contains_key(
                c,
            ) && t.entities[eid].authority[c].owner == Some(wid) by {
                assert(comps =~= d.push(comps.last()));
                crate::json::lemma_push_contains(d, comps.last(), c);
                if d.contains(c) {
                    assert(p.entities[eid].authority.contains_key(c));
                }
            }
        }
    }
}

proof fn lemma_components_sent_only(
    s: State,
    wid: Seq<char>,
    eid: Seq<char>,
    comps: Map<Seq<char>, Doc>,
    names: Seq<Seq<char>>,
)
    ensures
        s.components_sent(wid, eid, comps, names) == (State {
            outbox: s.components_sent(wid, eid, comps, names).outbox,
            ..s
        }),
    decreases names.len(),
{
    if names.len() > 0 {
        lemma_components_sent_only(s, wid, eid, comps, names.drop_last());
    }
}

pub proof fn lemma_shown_given(s: State, wid: Seq<char>, eid: Seq<char>)
    ensures
        only_given(s, s.shown(wid, eid), eid, wid),
        s.entities.contains_key(eid) && s.workers.contains_key(wid) ==> s.shown(
            wid,
            eid,
        ).workers[wid].view.contains(eid),
{
    if s.entities.contains_key(eid) {
        let e = s.entities[eid];
        let a = s.emitted(wid, crate::sight::critical_section(eid, "begin"@)).emitted(
            wid,
            crate::sight::entity_msg("AddEntity"@, eid),
        ).emitted(wid, crate::sight::component_update(eid, "pos"@, e.pos.doc())).emitted(
            wid,
            crate::sight::component_update(eid, "vel"@, e.vel.doc()),
        );
        lemma_components_sent_only(a, wid, eid, e.components, sorted(e.components.dom()));
        let b = a.components_sent(wid, eid, e.components, sorted(e.components.dom())).emitted(
            wid,
            crate::sight::critical_section(eid, "end"@),
        ).view_added(wid, eid);
        assert(b.workers.dom() =~= s.workers.dom());
        assert(only_given(s, b, eid, wid));
        lemma_grants_given(b, wid, eid, b.client_grants(wid, eid));
        lemma_given_twice(s, b, s.shown(wid, eid), eid, wid);
        lemma_grants_keep_views(b, wid, eid, b.client_grants(wid, eid));
    }
}

pub proof fn lemma_grants_keep_views(s: State, wid: Seq<char>, eid: Seq<char>, comps: Seq<Seq<char>>)
    ensures
        ({
            let t = s.all_granted(wid, eid, comps);
            &&& t.workers.dom() == s.workers.dom()
            &&& forall|w: Seq<char>| #[trigger] s.workers.contains_key(w) ==> t.workers[w].view
                == s.workers[w].view
            &&& s.entities.contains_key(eid) && s.workers.contains_key(wid) ==> forall|
                c: Seq<char>,
            | #[trigger]
                comps.contains(c) ==> t.entities.contains_key(eid)
                    && t.workers[wid].authority_epochs.contains_key(component_key(eid, c))
                    && t.workers[wid].authority_epochs[component_key(eid, c)]
                    == t.entities[eid].authority[c].epoch
        }),
    decreases comps.len(),
{
    if comps.len() > 0 {
        let d = comps.drop_last();
        let l = comps.last();
        let p = s.all_granted(wid, eid, d);
        lemma_grants_keep_views(s, wid, eid, d);
        lemma_grants_given(s, wid, eid, d);
        lemma_one_grant(p, wid, eid, l);
        let t = p.granted(wid, eid, l);
        assert(t.workers.dom() =~= s.workers.dom());
        if s.entities.contains_key(eid) && s.workers.contains_key(wid) {
            assert(p.entities.dom().contains(eid));
            assert(p.workers.dom().contains(wid));
            assert forall|c: Seq<char>| #[trigger] comps.contains(c) implies t.entities.contains_key(
                eid,
            ) && t.workers[wid].authority_epochs.contains_key(component_key(eid, c))
                && t.workers[wid].authority_epochs[component_key(eid, c)]
                == t.entities[eid].authority[c].epoch by {
                assert(comps =~= d.push(l));
                crate::json::lemma_push_contains(d, l, c);
                lemma_keys_differ(eid, c, l);
                assert(t.entities.dom().contains(eid));
                if c != l {
                    assert(d.contains(c));
                    assert(p.entities[eid].authority.contains_key(c));
                }
            }
        }
    }
}

proof fn lemma_keys_differ(eid: Seq<char>, a: Seq<char>, b: Seq<char>)
    ensures
        component_key(eid, a) == component_key(eid, b) ==> a == b,
{
    let x = component_key(eid, a);
    let y = component_key(eid, b);
    if x == y {
        let n = eid.len() + ":"@.len();
        assert(a =~= x.skip(n as int));
        assert(b =~= y.skip(n as int));
    }
}

pub proof fn lemma_received_given(s: State, wid: Seq<char>, eid: Seq<char>, comps: Seq<Seq<char>>)
    ensures
        ({
            let t = s.received(wid, eid, comps);
            &&& only_given(s, t, eid, wid)
            &&& s.entities.contains_key(eid) && s.workers.contains_key(wid) ==> {
                &&& t.workers[wid].view.contains(eid)
                &&& forall|c: Seq<char>| #[trigger]
                    comps.contains(c) ==> t.entities[eid].authority.contains_key(c)
                        && t.entities[eid].authority[c].owner == Some(wid)
                        && t.workers[wid].authority_epochs.contains_key(component_key(eid, c))
                        && t.workers[wid].authority_epochs[component_key(eid, c)]
                        == t.entities[eid].authority[c].epoch
            }
        }),
{
    let t = s.received(wid, eid, comps);
    if s.workers.contains_key(wid) {
        lemma_shown_given(s, wid, eid);
        let p = if s.workers[wid].view.contains(eid) {
            s
        } else {
            s.shown(wid, eid)
        };
        assert(only_given(s, p, eid, wid));
        lemma_grants_given(p, wid, eid, comps);
        lemma_grants_keep_views(p, wid, eid, comps);
        lemma_given_twice(s, p, t, eid, wid);
        assert(p.workers.dom().contains(wid));
        if s.entities.contains_key(eid) {
            assert(p.entities.dom().contains(eid));
        }
    }
}

/// Whether two states differ in one entity at most, of which a peer lost something.
pub open spec fn only_lost(
    s: State,
    t: State,
    eid: Seq<char>,
    wid: Seq<char>,
    comps: Seq<Seq<char>>,
) -> bool {
    &&& t.entities.dom() == s.entities.dom()
    &&& forall|k: Seq<char>| k != eid ==> #[trigger] t.entities[k] == s.entities[k]
    &&& t.region_worker == s.region_worker
    &&& t.region_expires == s.region_expires
    &&& t.workers.dom() == s.workers.dom()
    &&& s.entities.contains_key(eid) ==> {
        let e = s.entities[eid];
        let f = t.entities[eid];
        &&& f == (Ent { authority: f.authority, ..e })
        &&& forall|c: Seq<char>| #[trigger]
            e.authority.contains_key(c) ==> f.authority.contains_key(c) && f.authority[c].epoch
                == e.authority[c].epoch && f.authority[c].mode == e.authority[c].mode
                && f.authority[c].owner == if comps.contains(c) && e.authority[c].owner == Some(wid) {
                None
            } else {
                e.authority[c].owner
            }
    }
    &&& s.workers.contains_key(wid) ==> forall|c: Seq<char>|
        comps.contains(c) ==> !t.workers[wid].authority_epochs.contains_key(
            #[trigger] component_key(eid, c),
        )
}

pub proof fn lemma_revokes_lose(s: State, wid: Seq<char>, eid: Seq<char>, comps: Seq<Seq<char>>)
    ensures
        only_lost(s, s.all_revoked(wid, eid, comps), eid, wid, comps),
    decreases comps.len(),
{
    let t = s.all_revoked(wid, eid, comps);
    if comps.len() > 0 {
        let d = comps.drop_last();
        let l = comps.last();
        lemma_revokes_lose(s, wid, eid, d);
        let p = s.all_revoked(wid, eid, d);
        assert(t.entities.dom() =~= s.entities.dom());
        assert(t.workers.dom() =~= s.workers.dom());
        assert(comps =~= d.push(l));
        assert forall|c: Seq<char>| #[trigger] comps.contains(c) == (d.contains(c) || c == l) by {
            crate::json::lemma_push_contains(d, l, c);
        }
        if s.entities.contains_key(eid) {
            assert(p.entities.dom().contains(eid));
            let e = s.entities[eid];
            let f = t.entities[eid];
            assert forall|c: Seq<char>| #[trigger] e.authority.contains_key(c) implies f.authority.contains_key(
                c,
            ) && f.authority[c].epoch == e.authority[c].epoch && f.authority[c].mode
                == e.authority[c].mode && f.authority[c].owner == if comps.contains(c)
                && e.authority[c].owner == Some(wid) {
                None
            } else {
                e.authority[c].owner
            } by {
                assert(p.entities[eid].authority.contains_key(c));
            }
        }
        if s.workers.contains_key(wid) {
            assert(p.workers.dom().contains(wid));
            assert forall|c: Seq<char>| comps.contains(c) implies !t.workers[wid].authority_epochs.contains_key(
                #[trigger] component_key(eid, c),
            ) by {
                lemma_keys_differ(eid, c, l);
            }
        }
    } else {
        assert(forall|c: Seq<char>| !comps.contains(c));
    }
}

proof fn lemma_region_grants(
    s: State,
    region: Seq<char>,
    old: Option<Seq<char>>,
    new: Option<Seq<char>>,
    names: Seq<Seq<char>>,
)
    requires
        names.no_duplicates(),
    ensures
        ({
            let gs = s.region_grants(region, old, new, names);
            &&& forall|i: int|
                0 <= i < gs.len() ==> {
                    let k = (#[trigger] gs[i]).eid;
                    &&& names.contains(k)
                    &&& s.entities.contains_key(k)
                    &&& s.entities[k].region == region
                    &&& gs[i] == grant_of(k, s.entities[k], old, new)
                    &&& gs[i].moved_comps.len() > 0
                }
            &&& forall|i: int, j: int|
                0 <= i < j < gs.len() ==> (#[trigger] gs[i]).eid != (#[trigger] gs[j]).eid
            &&& forall|k: Seq<char>|
                names.contains(k) && s.entities.contains_key(k) && s.entities[k].region == region
                    && s.entities[k].advanced_names(old, new).len() > 0 ==> #[trigger] has_grant(gs, k)
        }),
    decreases names.len(),
{
    let gs = s.region_grants(region, old, new, names);
    if names.len() > 0 {
        let d = names.drop_last();
        let l = names.last();
        lemma_last_is_new(names);
        lemma_region_grants(s, region, old, new, d);
        let p = s.region_grants(region, old, new, d);
        assert forall|k: Seq<char>| has_grant(p, k) implies #[trigger] has_grant(gs, k) by {
            let i = choose|i: int| 0 <= i < p.len() && (#[trigger] p[i]).eid == k;
            assert(gs[i] == p[i]);
        }
        if gs.len() > p.len() {
            assert(gs[p.len() as int].eid == l);
            assert(has_grant(gs, l));
            assert forall|i: int, j: int| 0 <= i < j < gs.len() implies (#[trigger] gs[i]).eid != (
            #[trigger] gs[j]).eid by {
                assert(gs[i] == p[i]);
                if j < p.len() {
                    assert(gs[j] == p[j]);
                }
            }
        }
        assert forall|i: int| 0 <= i < gs.len() implies {
            let k = (#[trigger] gs[i]).eid;
            &&& names.contains(k)
            &&& s.entities.contains_key(k)
            &&& s.entities[k].region == region
            &&& gs[i] == grant_of(k, s.entities[k], old, new)
            &&& gs[i].moved_comps.len() > 0
        } by {
            if i < p.len() {
                assert(gs[i] == p[i]);
            }
        }
    }
}

/// Whether one of some grants is of an entity.
pub open spec fn has_grant(gs: Seq<Grant>, eid: Seq<char>) -> bool {
    exists|i: int| 0 <= i < gs.len() && (#[trigger] gs[i]).eid == eid
}

proof fn lemma_ids(s: State)
    requires
        s.entities.dom().finite(),
    ensures
        sorted(s.entities.dom()).no_duplicates(),
        forall|k: Seq<char>| #[trigger]
            sorted(s.entities.dom()).contains(k) == s.entities.contains_key(k),
{
    let q = sorted(s.entities.dom());
    lemma_sorted_of(s.entities.dom());
    assert forall|i: int, j: int| 0 <= i < q.len() && 0 <= j < q.len() && i != j implies q[i]
        != q[j] by {
        if i < j {
            crate::order::lemma_lt_irreflexive(q[i], q[j]);
        } else {
            crate::order::lemma_lt_irreflexive(q[j], q[i]);
        }
    }
    assert forall|k: Seq<char>| #[trigger] q.contains(k) == s.entities.contains_key(k) by {
        assert(q.to_set().contains(k) == q.contains(k));
    }
}

/// Whether the physics of an entity went from one owner to another: what the old one had or
/// nobody had is the new one's under a higher epoch, nothing of it is left to the old one,
/// and the entity is where it was and what it was.
pub open spec fn is_taken_over(
    e: Ent,
    f: Ent,
    old: Option<Seq<char>>,
    new: Seq<char>,
) -> bool {
    &&& f.pos == e.pos
    &&& f.vel == e.vel
    &&& f.region == e.region
    &&& f.components == e.components
    &&& forall|c: Seq<char>| #[trigger]
        is_physics(e, c) && is_free_of(e.recorded(c), old) ==> f.authority.contains_key(c)
            && f.authority[c].owner == Some(new) && (f.authority[c].epoch > e.epoch(c)
            || f.authority[c].epoch == u64::MAX)
    &&& forall|c: Seq<char>| #[trigger]
        is_physics(e, c) && old is Some ==> f.recorded(c).owner != old
}

pub proof fn lemma_regranted(e: Ent, g: Grant, old: Option<Seq<char>>, new: Seq<char>)
    requires
        is_finite(e),
        has_named_owners(e),
        new.len() > 0,
        old != Some(new),
        g == grant_of(g.eid, e, old, Some(new)),
    ensures
        is_taken_over(e, regranted(e, g), old, new),
        regranted(e, g).version == succ(e.version),
        forall|c: Seq<char>| #[trigger]
            is_physics(e, c) ==> regranted(e, g).authority.contains_key(c),
        forall|c: Seq<char>| #[trigger]
            g.moved_comps.contains(c) ==> is_physics(e, c) && is_free_of(e.recorded(c), old),
{
    law_physics_changes_hands(e, old, Some(new));
    lemma_starts_named(e);
    let m = e.advanced(old, Some(new)).authority;
    assert forall|c: Seq<char>| #[trigger] m.contains_key(c) implies m[c].owner != Some(
        Seq::<char>::empty(),
    ) by {
        if is_physics(e, c) && !is_free_of(e.recorded(c), old) {
            if e.authority.contains_key(c) {
                assert(m[c] == e.authority[c]);
            }
        } else if !is_physics(e, c) {
            assert(e.authority.contains_key(c));
        }
    }
    law_snapshot_round_trip(Ent { version: g.version, ..e }, m);
    let r = regranted(e, g);
    assert forall|c: Seq<char>| #[trigger] is_physics(e, c) && old is Some implies r.recorded(
        c,
    ).owner != old by {
        if is_free_of(e.recorded(c), old) {
            assert(r.authority[c].owner == Some(new));
        } else {
            assert(r.authority[c].owner == e.recorded(c).owner);
        }
    }
}

/// The owners that an entity's components start with are named, too.
pub proof fn lemma_starts_named(e: Ent)
    requires
        has_named_owners(e),
    ensures
        forall|c: Seq<char>| (#[trigger] e.recorded(c)).owner != Some(Seq::<char>::empty()),
{
}

proof fn lemma_taken_then_given(
    e: Ent,
    f: Ent,
    g: Ent,
    old: Option<Seq<char>>,
    new: Seq<char>,
)
    requires
        is_taken_over(e, f, old, new),
        is_given(f, g, new),
        old != Some(new),
        forall|c: Seq<char>| #[trigger] is_physics(e, c) ==> f.authority.contains_key(c),
    ensures
        is_taken_over(e, g, old, new),
{
    assert forall|c: Seq<char>| #[trigger] is_physics(e, c) && is_free_of(e.recorded(c), old) implies
        g.authority.contains_key(c) && g.authority[c].owner == Some(new) && (g.authority[c].epoch
        > e.epoch(c) || g.authority[c].epoch == u64::MAX) by {
        assert(f.authority.contains_key(c));
    }
    assert forall|c: Seq<char>| #[trigger] is_physics(e, c) && old is Some implies g.recorded(
        c,
    ).owner != old by {
        assert(f.authority.contains_key(c));
        assert(f.recorded(c).owner != old);
    }
}

proof fn lemma_grant_applied(
    s: State,
    g: Grant,
    told: Option<Seq<char>>,
    old: Option<Seq<char>>,
    new: Seq<char>,
)
    requires
        s.entities.contains_key(g.eid),
        is_finite(s.entities[g.eid]),
        has_named_owners(s.entities[g.eid]),
        new.len() > 0,
        old != Some(new),
        told is None || told == old,
        g == grant_of(g.eid, s.entities[g.eid], old, Some(new)),
    ensures
        ({
            let t = s.grant_applied(g, told, new);
            &&& t.entities.dom() == s.entities.dom()
            &&& forall|k: Seq<char>| k != g.eid ==> #[trigger] t.entities[k] == s.entities[k]
            &&& t.region_worker == s.region_worker
            &&& t.region_expires == s.region_expires
            &&& t.workers.dom() == s.workers.dom()
            &&& is_taken_over(s.entities[g.eid], t.entities[g.eid], old, new)
            &&& t.entities[g.eid].version == succ(s.entities[g.eid].version)
            &&& s.workers.contains_key(new) ==> t.workers[new].view.contains(g.eid)
        }),
{
    let e = s.entities[g.eid];
    lemma_regranted(e, g, old, new);
    let r = regranted(e, g);
    let a = s.with_entity(g.eid, r);
    assert(a.entities.dom() =~= s.entities.dom());
    let b = match told {
        Some(o) => a.all_revoked(o, g.eid, g.moved_comps),
        None => a,
    };
    if told is Some {
        lemma_revokes_lose(a, told->0, g.eid, g.moved_comps);
        let q = b.entities[g.eid];
        assert(is_given(r, q, new)) by {
            assert forall|c: Seq<char>| #[trigger] r.authority.contains_key(c) implies q.authority.contains_key(
                c,
            ) && q.authority[c].epoch == r.authority[c].epoch && q.authority[c].mode
                == r.authority[c].mode && (q.authority[c].owner == r.authority[c].owner
                || q.authority[c].owner == Some(new)) by {
                if g.moved_comps.contains(c) {
                    assert(is_physics(e, c));
                }
            }
        }
    } else {
        assert(is_given(r, b.entities[g.eid], new));
    }
    assert(b.entities.dom().contains(g.eid));
    let q = b.entities[g.eid];
    lemma_taken_then_given(e, r, q, old, new);
    lemma_received_given(b, new, g.eid, g.moved_comps);
    let t = s.grant_applied(g, told, new);
    assert forall|c: Seq<char>| #[trigger] is_physics(e, c) implies q.authority.contains_key(c) by {
        assert(r.authority.contains_key(c));
    }
    lemma_taken_then_given(e, q, t.entities[g.eid], old, new);
    if s.workers.contains_key(new) {
        assert(s.workers.dom().contains(new));
        assert(b.workers.dom().contains(new));
    }
}

proof fn lemma_grants_applied(
    s: State,
    gs: Seq<Grant>,
    told: Option<Seq<char>>,
    old: Option<Seq<char>>,
    new: Seq<char>,
)
    requires
        forall|i: int|
            0 <= i < gs.len() ==> {
                let k = (#[trigger] gs[i]).eid;
                &&& s.entities.contains_key(k)
                &&& is_finite(s.entities[k])
                &&& has_named_owners(s.entities[k])
                &&& gs[i] == grant_of(k, s.entities[k], old, Some(new))
            },
        forall|i: int, j: int|
            0 <= i < j < gs.len() ==> (#[trigger] gs[i]).eid != (#[trigger] gs[j]).eid,
        new.len() > 0,
        old != Some(new),
        told is None || told == old,
    ensures
        ({
            let t = s.grants_applied(gs, told, new);
            &&& t.entities.dom() == s.entities.dom()
            &&& t.region_worker == s.region_worker
            &&& t.region_expires == s.region_expires
            &&& t.workers.dom() == s.workers.dom()
            &&& forall|k: Seq<char>| !has_grant(gs, k) ==> #[trigger] t.entities[k] == s.entities[k]
            &&& forall|k: Seq<char>|
                has_grant(gs, k) ==> is_taken_over(s.entities[k], #[trigger] t.entities[k], old, new)
                    && t.entities[k].version == succ(s.entities[k].version)
        }),
    decreases gs.len(),
{
    let t = s.grants_applied(gs, told, new);
    if gs.len() > 0 {
        let d = gs.drop_last();
        let g = gs.last();
        assert(gs[gs.len() - 1] == g);
        assert forall|i: int| 0 <= i < d.len() implies {
            let k = (#[trigger] d[i]).eid;
            &&& s.entities.contains_key(k)
            &&& is_finite(s.entities[k])
            &&& has_named_owners(s.entities[k])
            &&& d[i] == grant_of(k, s.entities[k], old, Some(new))
        } by {
            assert(d[i] == gs[i]);
        }
        assert forall|i: int, j: int| 0 <= i < j < d.len() implies (#[trigger] d[i]).eid != (
        #[trigger] d[j]).eid by {
            assert(d[i] == gs[i] && d[j] == gs[j]);
        }
        lemma_grants_applied(s, d, told, old, new);
        let p = s.grants_applied(d, told, new);
        assert(!has_grant(d, g.eid)) by {
            if has_grant(d, g.eid) {
                let i = choose|i: int| 0 <= i < d.len() && (#[trigger] d[i]).eid == g.eid;
                assert(gs[i].eid != gs[gs.len() - 1].eid);
            }
        }
        assert(p.entities[g.eid] == s.entities[g.eid]);
        assert(p.entities.dom().contains(g.eid));
        lemma_grant_applied(p, g, told, old, new);
        assert forall|k: Seq<char>| #[trigger] has_grant(gs, k) == (has_grant(d, k) || k == g.eid) by {
            if has_grant(gs, k) {
                let i = choose|i: int| 0 <= i < gs.len() && (#[trigger] gs[i]).eid == k;
                if i < d.len() {
                    assert(d[i] == gs[i]);
                }
            }
            if has_grant(d, k) {
                let i = choose|i: int| 0 <= i < d.len() && (#[trigger] d[i]).eid == k;
                assert(gs[i].eid == k);
            }
            if k == g.eid {
                assert(gs[gs.len() - 1].eid == k);
            }
        }
        assert forall|k: Seq<char>| !has_grant(gs, k) implies #[trigger] t.entities[k]
            == s.entities[k] by {
            assert(p.entities[k] == s.entities[k]);
        }
        assert forall|k: Seq<char>| has_grant(gs, k) implies is_taken_over(
            s.entities[k],
            #[trigger] t.entities[k],
            old,
            new,
        ) && t.entities[k].version == succ(s.entities[k].version) by {
            if k != g.eid {
                assert(t.entities[k] == p.entities[k]);
            }
        }
    } else {
        assert(forall|k: Seq<char>| !has_grant(gs, k));
    }
}

/// Whether all entities are finite and have named owners.
pub open spec fn is_sound(s: State) -> bool {
    &&& s.entities.dom().finite()
    &&& forall|k: Seq<char>| #[trigger]
        s.entities.contains_key(k) ==> is_finite(s.entities[k]) && has_named_owners(s.entities[k])
}

/// Whether an entity of a region has physics that the old holder had, or nobody.
pub open spec fn has_to_go(e: Ent, region: Seq<char>, old: Option<Seq<char>>) -> bool {
    e.region == region && exists|c: Seq<char>| #[trigger]
        is_physics(e, c) && is_free_of(e.recorded(c), old)
}

proof fn lemma_names_to_go(e: Ent, region: Seq<char>, old: Option<Seq<char>>, new: Seq<char>)
    requires
        is_finite(e),
        e.region == region,
    ensures
        has_to_go(e, region, old) == (e.advanced_names(old, Some(new)).len() > 0),
{
    law_physics_changes_hands(e, old, Some(new));
    let m = e.advanced_names(old, Some(new));
    if m.len() > 0 {
        assert(m.contains(m[0]));
        assert(is_physics(e, m[0]) && is_free_of(e.recorded(m[0]), old));
    }
    if has_to_go(e, region, old) {
        let c = choose|c: Seq<char>| #[trigger] is_physics(e, c) && is_free_of(e.recorded(c), old);
        assert(m.contains(c));
    }
}

/// What becomes of the entities when a region goes from one worker to another: every entity
/// of the region is taken over, and every other is left alone.
pub open spec fn region_goes(
    s: State,
    t: State,
    region: Seq<char>,
    old: Option<Seq<char>>,
    new: Seq<char>,
) -> bool {
    &&& t.region_worker == s.region_worker.insert(region, new)
    &&& t.entities.dom() == s.entities.dom()
    &&& forall|k: Seq<char>|
        s.entities.contains_key(k) && s.entities[k].region == region ==> is_taken_over(
            s.entities[k],
            #[trigger] t.entities[k],
            old,
            new,
        )
    &&& forall|k: Seq<char>|
        s.entities.contains_key(k) && !has_to_go(s.entities[k], region, old)
            ==> #[trigger] t.entities[k] == s.entities[k]
}

proof fn lemma_region_goes(
    s: State,
    t: State,
    region: Seq<char>,
    told: Option<Seq<char>>,
    old: Option<Seq<char>>,
    new: Seq<char>,
)
    requires
        is_sound(s),
        t.entities == s.entities,
        t.region_worker == s.region_worker.insert(region, new),
        new.len() > 0,
        old != Some(new),
        told is None || told == old,
    ensures
        ({
            let gs = s.grants_of_region(region, old, Some(new));
            let u = t.grants_applied(gs, told, new);
            &&& region_goes(s, u, region, old, new)
            &&& u.region_expires == t.region_expires
            &&& forall|k: Seq<char>| #[trigger]
                has_grant(gs, k) == (s.entities.contains_key(k) && has_to_go(
                    s.entities[k],
                    region,
                    old,
                ))
        }),
{
    let ids = sorted(s.entities.dom());
    let gs = s.grants_of_region(region, old, Some(new));
    lemma_ids(s);
    lemma_region_grants(s, region, old, Some(new), ids);
    assert forall|i: int| 0 <= i < gs.len() implies {
        let k = (#[trigger] gs[i]).eid;
        &&& t.entities.contains_key(k)
        &&& is_finite(t.entities[k])
        &&& has_named_owners(t.entities[k])
        &&& gs[i] == grant_of(k, t.entities[k], old, Some(new))
    } by {
        assert(s.entities.contains_key(gs[i].eid));
    }
    lemma_grants_applied(t, gs, told, old, new);
    let u = t.grants_applied(gs, told, new);
    assert forall|k: Seq<char>| #[trigger] has_grant(gs, k) == (s.entities.contains_key(k)
        && has_to_go(s.entities[k], region, old)) by {
        if s.entities.contains_key(k) && s.entities[k].region == region {
            lemma_names_to_go(s.entities[k], region, old, new);
            assert(ids.contains(k));
        }
        if has_grant(gs, k) {
            let i = choose|i: int| 0 <= i < gs.len() && (#[trigger] gs[i]).eid == k;
            assert(s.entities[k].region == region);
        }
    }
    assert forall|k: Seq<char>| s.entities.contains_key(k) && s.entities[k].region == region implies
        is_taken_over(s.entities[k], #[trigger] u.entities[k], old, new) by {
        if !has_grant(gs, k) {
            let e = s.entities[k];
            assert(!has_to_go(e, region, old));
            assert(u.entities[k] == e);
            assert forall|c: Seq<char>| #[trigger] is_physics(e, c) && old is Some implies e.recorded(
                c,
            ).owner != old by {
                assert(!is_free_of(e.recorded(c), old));
            }
        }
    }
}

/// A region that fails over goes with all its entities: once the failover is applied, the
/// standby holds the region until the lease that it was given ends, has the physics of every
/// entity there that the lapsed worker had or nobody had, under epochs that fence the lapsed
/// worker, and nothing of an entity's physics is left to that worker. Entities elsewhere, and
/// what others own, stay as they were.
pub proof fn law_failover_takes_the_whole_region(
    s: State,
    t: State,
    region: Seq<char>,
    old: Option<Seq<char>>,
    new: Seq<char>,
    until_ms: u64,
)
    requires
        is_sound(s),
        t.entities == s.entities,
        t.region_worker == s.region_worker,
        new.len() > 0,
        old != Some(new),
    ensures
        ({
            let f = s.failover_of(region, old, new, until_ms);
            let u = t.failover_applied(f);
            &&& f.region == region && f.new_wid == new && f.old_wid == old
            &&& forall|k: Seq<char>| #[trigger]
                has_grant(f.grants, k) == (s.entities.contains_key(k) && has_to_go(
                    s.entities[k],
                    region,
                    old,
                ))
            &&& region_goes(s, u, region, old, new)
            &&& u.region_expires == t.region_expires.insert(region, until_ms)
        }),
{
    let a = (State {
        region_worker: t.region_worker.insert(region, new),
        region_expires: t.region_expires.insert(region, until_ms),
        metrics: Metrics { failovers: succ(t.metrics.failovers), ..t.metrics },
        ..t
    }).peer_moved(new, region);
    lemma_region_goes(s, a, region, None, old, new);
}

/// A block that migrates goes with all its entities, as a region does that fails over; the
/// worker that had it is told.
pub proof fn law_migration_takes_the_whole_block(
    s: State,
    t: State,
    block: Seq<char>,
    old: Seq<char>,
    new: Seq<char>,
)
    requires
        is_sound(s),
        t.entities == s.entities,
        t.region_worker == s.region_worker,
        new.len() > 0,
        old != new,
    ensures
        ({
            let m = s.migration_of(block, old, new);
            let u = t.migration_applied(m);
            &&& m.block == block && m.new_wid == new && m.old_wid == old
            &&& forall|k: Seq<char>| #[trigger]
                has_grant(m.grants, k) == (s.entities.contains_key(k) && has_to_go(
                    s.entities[k],
                    block,
                    Some(old),
                ))
            &&& region_goes(s, u, block, Some(old), new)
            &&& u.region_expires == t.region_expires
        }),
{
    let a = (State { region_worker: t.region_worker.insert(block, new), ..t }).peer_moved(
        new,
        block,
    );
    lemma_region_goes(s, a, block, Some(old), Some(old), new);
}

/// An entity that is handed to another region goes with its authority and all that was
/// written of it: it is in that region, where it was, with its components as they were; the
/// physics that the old region's worker had is the new region's worker's, under a higher
/// epoch, and none of it is left to the old one. Other entities stay as they were.
pub proof fn law_handoff_gives_the_entity(
    s: State,
    eid: Seq<char>,
    from: Seq<char>,
    to: Seq<char>,
    reason: Seq<char>,
)
    requires
        is_sound(s),
        s.entities.contains_key(eid),
        s.region_worker.contains_key(to),
        s.region_worker[to].len() > 0,
        at(s.region_worker, from) != Some(s.region_worker[to]),
    ensures
        ({
            let h = s.handoff_of(eid, from, to, None, reason);
            let t = s.handoff_applied(h);
            let e = s.entities[eid];
            let f = t.entities[eid];
            let old = at(s.region_worker, from);
            let new = s.region_worker[to];
            &&& h.eid == eid && h.from == from && h.to == to && h.old_wid == old && h.new_wid == Some(new)
            &&& t.entities.dom() == s.entities.dom()
            &&& forall|k: Seq<char>| k != eid ==> #[trigger] t.entities[k] == s.entities[k]
            &&& f.region == to
            &&& is_taken_over(e, (Ent { region: e.region, ..f }), old, new)
            &&& s.workers.contains_key(new) ==> t.workers[new].view.contains(eid) && forall|
                c: Seq<char>,
            | #[trigger]
                is_physics(e, c) && is_free_of(e.recorded(c), old)
                    ==> t.workers[new].authority_epochs.contains_key(component_key(eid, c))
                    && t.workers[new].authority_epochs[component_key(eid, c)] == f.authority[c].epoch
        }),
{
    let h = s.handoff_of(eid, from, to, None, reason);
    let e = s.entities[eid];
    let old = at(s.region_worker, from);
    let new = s.region_worker[to];
    let g = grant_of(eid, e, old, Some(new));
    lemma_regranted(e, g, old, new);
    law_physics_changes_hands(e, old, Some(new));
    let r = moved(e, h);
    let back = Ent { region: e.region, ..r };
    assert(back == regranted(e, g)) by {
        assert(h.authority == g.authority);
        crate::authority::law_snapshot_round_trip(Ent { version: g.version, ..e }, e.advanced(
            old,
            Some(new),
        ).authority);
        lemma_same_snapshot(e, h, g);
    }
    let a = State {
        metrics: Metrics { handoffs: succ(s.metrics.handoffs), ..s.metrics },
        ..s.with_entity(eid, r)
    };
    assert(a.entities.dom() =~= s.entities.dom());
    let b = if old is Some && a.workers.contains_key(old->0) {
        a.all_revoked(old->0, eid, h.moved_comps)
    } else {
        a
    };
    if old is Some && a.workers.contains_key(old->0) {
        lemma_revokes_lose(a, old->0, eid, h.moved_comps);
    }
    let q = b.entities[eid];
    assert(is_given(r, q, new)) by {
        assert forall|c: Seq<char>| #[trigger] r.authority.contains_key(c) implies q.authority.contains_key(
            c,
        ) && q.authority[c].epoch == r.authority[c].epoch && q.authority[c].mode
            == r.authority[c].mode && (q.authority[c].owner == r.authority[c].owner
            || q.authority[c].owner == Some(new)) by {
            if h.moved_comps.contains(c) {
                assert(is_physics(e, c));
            }
        }
    }
    assert(b.entities.dom().contains(eid));
    lemma_received_given(b, new, eid, h.moved_comps);
    let t = s.handoff_applied(h);
    let f = t.entities[eid];
    let q2 = Ent { region: e.region, ..q };
    let f2 = Ent { region: e.region, ..f };
    lemma_taken_then_given(e, back, q2, old, new);
    assert forall|c: Seq<char>| #[trigger] is_physics(e, c) implies q2.authority.contains_key(c) by {
        assert(back.authority.contains_key(c));
    }
    lemma_taken_then_given(e, q2, f2, old, new);
    if s.workers.contains_key(new) {
        assert(a.workers.dom().contains(new));
        assert(b.workers.dom().contains(new));
        assert forall|c: Seq<char>| #[trigger] is_physics(e, c) && is_free_of(e.recorded(c), old) implies
            t.workers[new].authority_epochs.contains_key(component_key(eid, c))
            && t.workers[new].authority_epochs[component_key(eid, c)] == f.authority[c].epoch by {
            assert(h.moved_comps.contains(c));
        }
    }
}

proof fn lemma_same_snapshot(e: Ent, h: Hand, g: Grant)
    requires
        h.pos is None,
        h.version == g.version,
        h.authority == g.authority,
    ensures
        (Ent { region: e.region, ..moved(e, h) }) == regranted(e, g),
{
    let a = Ent { region: h.to, version: h.version, ..e };
    let b = Ent { version: g.version, ..e };
    match g.authority {
        Doc::Obj(m) => {
            assert(a.snapshot_applied(g.authority).authority =~= b.snapshot_applied(
                g.authority,
            ).authority) by {
                assert forall|c: Seq<char>| m.contains_key(c) implies a.snapshot_auth(m, c)
                    == b.snapshot_auth(m, c) by {}
            }
        },
        _ => {},
    }
}

}

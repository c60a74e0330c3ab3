//! What peers are shown: exactly what lies in the area that they look at and what they may
//! read, as long as it does.

use vstd::prelude::*;
use vstd::string::*;
use crate::claims::PeerRole;
use crate::doc::Doc;
use crate::entity::{may_read, Ent};
use crate::fidelity::coarsened;
use crate::float::float_lt;
use crate::grants::{authority_change, component_key};
use crate::order::{lemma_sorted_of, sorted};
use crate::publish::Glance;
use crate::sight::{component_update, critical_section, entity_msg};
use crate::state::{Peer, Sent, State};
use crate::world::{bodies, lemma_same_keys, lemma_shown, same_world};

verus! {

broadcast use {crate::doc::group_json, crate::strmap::group_map};

/// Who may read: everybody, where the `acl` lists no readers; and else whoever has an
/// attribute that it lists.
pub proof fn law_readers(attrs: Set<Seq<char>>, comps: Map<Seq<char>, Doc>, readers: Seq<Doc>)
    ensures
        !comps.contains_key("acl"@) ==> may_read(attrs, comps),
        comps.contains_key("acl"@) && comps["acl"@].get("read"@) is None ==> may_read(attrs, comps),
        comps.contains_key("acl"@) && comps["acl"@].get("read"@) == Some(Doc::Arr(readers)) ==> (
        may_read(attrs, comps) <==> readers.len() == 0 || exists|a: Seq<char>| #[trigger]
            attrs.contains(a) && readers.contains(Doc::Str(a))),
{
    if comps.contains_key("acl"@) && comps["acl"@].get("read"@) == Some(Doc::Arr(readers)) {
        if may_read(attrs, comps) && readers.len() > 0 {
            let i = choose|i: int|
                0 <= i < readers.len() && crate::entity::names_one(#[trigger] readers[i], attrs);
            assert(readers.contains(readers[i]));
            assert(attrs.contains(readers[i]->Str_0));
        }
        if exists|a: Seq<char>| #[trigger] attrs.contains(a) && readers.contains(Doc::Str(a)) {
            let a = choose|a: Seq<char>| #[trigger]
                attrs.contains(a) && readers.contains(Doc::Str(a));
            let i = choose|i: int| 0 <= i < readers.len() && readers[i] == Doc::Str(a);
            assert(crate::entity::names_one(readers[i], attrs));
        }
    }
}

/// What a peer looks at: the area that it asked for, and only that, once it asked for one;
/// before that a worker looks at its side of the world, a client and a link at nothing, and
/// an observer at everything where it has a claim to and else at nothing.
pub proof fn law_where_peers_look(w: Peer, e: Ent, near: bool)
    ensures
        w.aoi_center is Some ==> (w.sees(e, near) <==> near && may_read(w.attributes, e.components)),
        w.aoi_center is None ==> w.sees(e, near) == w.sees(e, !near),
        w.aoi_center is None && (w.role == PeerRole::Client || w.role == PeerRole::Mesh) ==> !w.sees(
            e,
            near,
        ),
        w.aoi_center is None && w.role == PeerRole::Observer && may_read(
            w.attributes,
            e.components,
        ) ==> (w.sees(e, near) <==> w.attributes.contains("observer"@) || w.attributes.contains(
            "debug"@,
        ) || w.attributes.contains("inspector"@)),
        w.aoi_center is None && w.role == PeerRole::Worker && e.pos.x is Some && may_read(
            w.attributes,
            e.components,
        ) ==> (w.sees(e, near) <==> if w.region == "W"@ {
            float_lt(e.pos.x->0, 0x3FF8_0000_0000_0000)
        } else {
            !float_lt(e.pos.x->0, 0xBFF8_0000_0000_0000)
        }),
        !may_read(w.attributes, e.components) ==> !w.sees(e, near),
{
}

/// Whether a message tells a peer something of an entity.
pub open spec fn tells(m: Sent, wid: Seq<char>, op: Seq<char>, eid: Seq<char>) -> bool {
    m matches Sent::Peer { wid: w, msg } && w == wid && msg.get_str("op"@) == Some(op)
        && msg.get_str("entity"@) == Some(eid)
}

/// Whether a peer was told something of an entity since.
pub open spec fn was_told(
    s: State,
    t: State,
    wid: Seq<char>,
    op: Seq<char>,
    eid: Seq<char>,
) -> bool {
    exists|k: int| s.outbox.len() <= k < t.outbox.len() && tells(#[trigger] t.outbox[k], wid, op, eid)
}

/// Whether a message is to a peer, and tells neither that an entity comes in sight nor that
/// one goes.
pub open spec fn is_aside(m: Sent, wid: Seq<char>) -> bool {
    m matches Sent::Peer { wid: w, msg } && w == wid && msg.get_str("op"@) != Some("AddEntity"@)
        && msg.get_str("op"@) != Some("RemoveEntity"@)
}

/// Whether nobody but one peer was told anything since, and that peer of nothing that comes
/// or goes.
pub open spec fn only_asides(s: State, t: State, wid: Seq<char>) -> bool {
    &&& s.outbox.is_prefix_of(t.outbox)
    &&& forall|k: int| s.outbox.len() <= k < t.outbox.len() ==> is_aside(#[trigger] t.outbox[k], wid)
}

/// Whether a state is another in which one peer's view and its record of epochs may differ,
/// and who owns what.
pub open spec fn only_sight(s: State, t: State, wid: Seq<char>) -> bool {
    &&& same_world(s, t)
    &&& t.ghosts == s.ghosts
    &&& t.region_worker == s.region_worker
    &&& t.workers.dom() == s.workers.dom()
    &&& forall|w: Seq<char>| w != wid ==> #[trigger] t.workers[w] == s.workers[w]
    &&& s.workers.contains_key(wid) ==> t.workers[wid] == (Peer {
        view: t.workers[wid].view,
        authority_epochs: t.workers[wid].authority_epochs,
        ..s.workers[wid]
    })
    &&& s.outbox.is_prefix_of(t.outbox)
    &&& forall|k: int|
        s.outbox.len() <= k < t.outbox.len() ==> (#[trigger] t.outbox[k] matches Sent::Peer {
            wid: w,
            ..
        } && w == wid)
}

pub proof fn lemma_ops()
    ensures
        "AddEntity"@ != "RemoveEntity"@,
        "AddEntity"@ != "CriticalSection"@,
        "AddEntity"@ != "ComponentUpdate"@,
        "AddEntity"@ != "AuthorityChange"@,
        "RemoveEntity"@ != "CriticalSection"@,
        "RemoveEntity"@ != "ComponentUpdate"@,
        "RemoveEntity"@ != "AuthorityChange"@,
        "ComponentUpdate"@ != "CriticalSection"@,
        "ComponentUpdate"@ != "AuthorityChange"@,
        forall|eid: Seq<char>, op: Seq<char>|
            (#[trigger] entity_msg(op, eid)).get_str("op"@) == Some(op) && entity_msg(
                op,
                eid,
            ).get_str("entity"@) == Some(eid),
        forall|eid: Seq<char>, phase: Seq<char>|
            (#[trigger] critical_section(eid, phase)).get_str("op"@) == Some("CriticalSection"@),
        forall|eid: Seq<char>, comp: Seq<char>, v: Doc|
            {
                let m = #[trigger] component_update(eid, comp, v);
                &&& m.get_str("op"@) == Some("ComponentUpdate"@)
                &&& m.get_str("entity"@) == Some(eid)
                &&& m.get_str("comp"@) == Some(comp)
                &&& m.get("value"@) == Some(v)
            },
        forall|eid: Seq<char>, comp: Seq<char>, yes: bool, n: u64, mode: Seq<char>|
            {
                let m = #[trigger] authority_change(eid, comp, yes, n, mode);
                &&& m.get_str("op"@) == Some("AuthorityChange"@)
                &&& m.get_str("entity"@) == Some(eid)
                &&& m.get_str("comp"@) == Some(comp)
                &&& m.get("authoritative"@) == Some(Doc::Bool(yes))
                &&& m.get_u64("authority_epoch"@) == Some(n)
                &&& m.get_str("mode"@) == Some(mode)
            },
{
    reveal_strlit("AddEntity");
    reveal_strlit("RemoveEntity");
    reveal_strlit("CriticalSection");
    reveal_strlit("ComponentUpdate");
    reveal_strlit("AuthorityChange");
    reveal_strlit("op");
    reveal_strlit("entity");
    reveal_strlit("phase");
    reveal_strlit("comp");
    reveal_strlit("value");
    reveal_strlit("authoritative");
    reveal_strlit("authority_epoch");
    reveal_strlit("mode");
    assert("AddEntity"@.len() == 9 && "RemoveEntity"@.len() == 12 && "CriticalSection"@.len() == 15
        && "ComponentUpdate"@.len() == 15 && "AuthorityChange"@.len() == 15);
    assert("CriticalSection"@[1] == 'r' && "ComponentUpdate"@[1] == 'o' && "AuthorityChange"@[0]
        == 'A' && "ComponentUpdate"@[0] == 'C');
    assert("op"@.len() == 2 && "entity"@.len() == 6 && "phase"@.len() == 5 && "comp"@.len() == 4
        && "value"@.len() == 5 && "authoritative"@.len() == 13 && "authority_epoch"@.len() == 15
        && "mode"@.len() == 4);
    assert("comp"@[0] == 'c' && "mode"@[0] == 'm');
}

pub proof fn lemma_prefix(a: Seq<Sent>, b: Seq<Sent>, c: Seq<Sent>)
    requires
        a.is_prefix_of(b),
        b.is_prefix_of(c),
    ensures
        a.is_prefix_of(c),
        forall|k: int| 0 <= k < b.len() ==> #[trigger] c[k] == b[k],
        forall|k: int| 0 <= k < a.len() ==> #[trigger] c[k] == a[k],
{
    assert forall|k: int| 0 <= k < b.len() implies #[trigger] c[k] == b[k] by {
        assert(c.subrange(0, b.len() as int)[k] == c[k]);
    }
    assert forall|k: int| 0 <= k < a.len() implies #[trigger] c[k] == a[k] by {
        assert(b.subrange(0, a.len() as int)[k] == b[k]);
        assert(c.subrange(0, b.len() as int)[k] == c[k]);
    }
    assert(a =~= c.subrange(0, a.len() as int));
}

proof fn lemma_sight_twice(s: State, t: State, u: State, wid: Seq<char>)
    requires
        only_sight(s, t, wid),
        only_sight(t, u, wid),
    ensures
        only_sight(s, u, wid),
{
    assert forall|w: Seq<char>| w != wid implies #[trigger] u.workers[w] == s.workers[w] by {
        assert(t.workers[w] == s.workers[w]);
    }
    if s.workers.contains_key(wid) {
        assert(t.workers.dom().contains(wid));
    }
    assert forall|k: int| s.outbox.len() <= k < u.outbox.len() implies (#[trigger] u.outbox[k] matches Sent::Peer {
        wid: w,
        ..
    } && w == wid) by {
        if k < t.outbox.len() {
            assert(u.outbox[k] == t.outbox[k]);
        }
    }
}

proof fn lemma_told_twice(s: State, t: State, u: State, wid: Seq<char>, op: Seq<char>, eid: Seq<char>)
    requires
        s.outbox.is_prefix_of(t.outbox),
        t.outbox.is_prefix_of(u.outbox),
    ensures
        was_told(s, u, wid, op, eid) == (was_told(s, t, wid, op, eid) || was_told(
            t,
            u,
            wid,
            op,
            eid,
        )),
{
    if was_told(s, u, wid, op, eid) {
        let k = choose|k: int|
            s.outbox.len() <= k < u.outbox.len() && tells(#[trigger] u.outbox[k], wid, op, eid);
        if k < t.outbox.len() {
            assert(t.outbox[k] == u.outbox[k]);
        }
    }
    if was_told(s, t, wid, op, eid) {
        let k = choose|k: int|
            s.outbox.len() <= k < t.outbox.len() && tells(#[trigger] t.outbox[k], wid, op, eid);
        assert(u.outbox[k] == t.outbox[k]);
    }
}

proof fn lemma_asides_tell_nothing(s: State, t: State, wid: Seq<char>)
    requires
        only_asides(s, t, wid),
    ensures
        forall|w: Seq<char>, eid: Seq<char>| !#[trigger] was_told(s, t, w, "AddEntity"@, eid),
        forall|w: Seq<char>, eid: Seq<char>| !#[trigger] was_told(s, t, w, "RemoveEntity"@, eid),
{
}

pub proof fn lemma_grants_sight(s: State, wid: Seq<char>, eid: Seq<char>, comps: Seq<Seq<char>>)
    ensures
        only_sight(s, s.all_granted(wid, eid, comps), wid),
        only_asides(s, s.all_granted(wid, eid, comps), wid),
        s.workers.contains_key(wid) ==> s.all_granted(wid, eid, comps).workers[wid].view
            == s.workers[wid].view,
    decreases comps.len(),
{
    if comps.len() > 0 {
        let d = comps.drop_last();
        lemma_grants_sight(s, wid, eid, d);
        let p = s.all_granted(wid, eid, d);
        let t = p.granted(wid, eid, comps.last());
        lemma_ops();
        crate::world::lemma_granted(p, wid, eid, comps.last());
        assert(t.workers.dom() =~= p.workers.dom());
        assert(only_sight(p, t, wid));
        lemma_sight_twice(s, p, t, wid);
        assert forall|k: int| s.outbox.len() <= k < t.outbox.len() implies is_aside(
            #[trigger] t.outbox[k],
            wid,
        ) by {
            if k < p.outbox.len() {
                assert(t.outbox[k] == p.outbox[k]);
            }
        }
        if s.workers.contains_key(wid) {
            assert(p.workers.dom().contains(wid));
        }
    }
}

pub proof fn lemma_components_sight(
    s: State,
    wid: Seq<char>,
    eid: Seq<char>,
    comps: Map<Seq<char>, Doc>,
    names: Seq<Seq<char>>,
)
    ensures
        ({
            let t = s.components_sent(wid, eid, comps, names);
            &&& t == (State { outbox: t.outbox, ..s })
            &&& only_asides(s, t, wid)
            &&& s.workers.contains_key(wid) ==> forall|c: Seq<char>| #[trigger]
                names.contains(c) ==> was_sent(s, t, wid, component_update(eid, c, comps[c]))
        }),
    decreases names.len(),
{
    let t = s.components_sent(wid, eid, comps, names);
    if names.len() > 0 {
        let d = names.drop_last();
        let l = names.last();
        lemma_components_sight(s, wid, eid, comps, d);
        let p = s.components_sent(wid, eid, comps, d);
        lemma_ops();
        assert forall|k: int| s.outbox.len() <= k < t.outbox.len() implies is_aside(
            #[trigger] t.outbox[k],
            wid,
        ) by {
            if k < p.outbox.len() {
                assert(t.outbox[k] == p.outbox[k]);
            }
        }
        if s.workers.contains_key(wid) {
            assert forall|c: Seq<char>| #[trigger] names.contains(c) implies was_sent(
                s,
                t,
                wid,
                component_update(eid, c, comps[c]),
            ) by {
                assert(names =~= d.push(l));
                crate::json::lemma_push_contains(d, l, c);
                let m = component_update(eid, c, comps[c]);
                if d.contains(c) {
                    assert(was_sent(s, p, wid, m));
                    let k = choose|k: int|
                        s.outbox.len() <= k < p.outbox.len() && #[trigger] p.outbox[k]
                            == (Sent::Peer { wid, msg: m });
                    assert(t.outbox[k] == p.outbox[k]);
                } else {
                    assert(t.outbox[p.outbox.len() as int] == (Sent::Peer { wid, msg: m }));
                }
            }
        }
    }
}

/// Whether a peer was sent a message since.
pub open spec fn was_sent(s: State, t: State, wid: Seq<char>, msg: Doc) -> bool {
    exists|k: int|
        s.outbox.len() <= k < t.outbox.len() && #[trigger] t.outbox[k] == (Sent::Peer { wid, msg })
}

pub proof fn lemma_sent_on(s: State, t: State, u: State, wid: Seq<char>, msg: Doc)
    requires
        s.outbox.is_prefix_of(t.outbox),
        t.outbox.is_prefix_of(u.outbox),
        was_sent(s, t, wid, msg) || was_sent(t, u, wid, msg),
    ensures
        was_sent(s, u, wid, msg),
{
    if was_sent(s, t, wid, msg) {
        let k = choose|k: int|
            s.outbox.len() <= k < t.outbox.len() && #[trigger] t.outbox[k] == (Sent::Peer {
                wid,
                msg,
            });
        assert(u.outbox[k] == t.outbox[k]);
    }
}

/// An entity that comes in sight is shown whole: the peer is told that it is there, where it
/// is, how it moves, and every component that it has; from then on it is in the peer's view.
/// It is told of no other entity, and nobody else is told anything.
pub proof fn law_shown_whole(s: State, wid: Seq<char>, eid: Seq<char>)
    requires
        s.workers.contains_key(wid),
        s.entities.contains_key(eid),
        s.entities[eid].components.dom().finite(),
    ensures
        ({
            let t = s.shown(wid, eid);
            let e = s.entities[eid];
            &&& only_sight(s, t, wid)
            &&& t.workers[wid].view == s.workers[wid].view.insert(eid)
            &&& forall|x: Seq<char>| #[trigger]
                was_told(s, t, wid, "AddEntity"@, x) == (x == eid)
            &&& forall|x: Seq<char>| !#[trigger] was_told(s, t, wid, "RemoveEntity"@, x)
            &&& was_sent(s, t, wid, component_update(eid, "pos"@, e.pos.doc()))
            &&& was_sent(s, t, wid, component_update(eid, "vel"@, e.vel.doc()))
            &&& forall|c: Seq<char>| #[trigger]
                e.components.contains_key(c) ==> was_sent(
                    s,
                    t,
                    wid,
                    component_update(eid, c, e.components[c]),
                )
        }),
{
    lemma_ops();
    lemma_shown_tells(s, wid, eid);
    let t = s.shown(wid, eid);
    let e = s.entities[eid];
    let names = sorted(e.components.dom());
    lemma_sorted_of(e.components.dom());
    let a = s.emitted(wid, critical_section(eid, "begin"@)).emitted(
        wid,
        entity_msg("AddEntity"@, eid),
    ).emitted(wid, component_update(eid, "pos"@, e.pos.doc())).emitted(
        wid,
        component_update(eid, "vel"@, e.vel.doc()),
    );
    lemma_components_sight(a, wid, eid, e.components, names);
    let b = a.components_sent(wid, eid, e.components, names);
    let c = b.emitted(wid, critical_section(eid, "end"@)).view_added(wid, eid);
    lemma_grants_sight(c, wid, eid, c.client_grants(wid, eid));
    assert(b.outbox.is_prefix_of(c.outbox));
    lemma_prefix(a.outbox, b.outbox, c.outbox);
    lemma_prefix(a.outbox, c.outbox, t.outbox);
    lemma_prefix(b.outbox, c.outbox, t.outbox);
    let n = s.outbox.len() as int;
    assert(a.outbox[n + 2] == (Sent::Peer {
        wid,
        msg: component_update(eid, "pos"@, e.pos.doc()),
    }));
    assert(a.outbox[n + 3] == (Sent::Peer {
        wid,
        msg: component_update(eid, "vel"@, e.vel.doc()),
    }));
    assert(t.outbox[n + 2] == a.outbox[n + 2] && t.outbox[n + 3] == a.outbox[n + 3]);
    assert forall|k: Seq<char>| #[trigger] e.components.contains_key(k) implies was_sent(
        s,
        t,
        wid,
        component_update(eid, k, e.components[k]),
    ) by {
        let m = component_update(eid, k, e.components[k]);
        assert(names.to_set().contains(k) == names.contains(k));
        assert(was_sent(a, b, wid, m));
        lemma_sent_on(a, b, t, wid, m);
        lemma_sent_on(s, a, t, wid, m);
    }
}

pub proof fn lemma_shown_tells(s: State, wid: Seq<char>, eid: Seq<char>)
    requires
        s.workers.contains_key(wid),
        s.entities.contains_key(eid),
    ensures
        ({
            let t = s.shown(wid, eid);
            &&& only_sight(s, t, wid)
            &&& t.workers[wid].view == s.workers[wid].view.insert(eid)
            &&& forall|x: Seq<char>| #[trigger]
                was_told(s, t, wid, "AddEntity"@, x) == (x == eid)
            &&& forall|x: Seq<char>| !#[trigger] was_told(s, t, wid, "RemoveEntity"@, x)
        }),
{
    lemma_ops();
    let t = s.shown(wid, eid);
    let e = s.entities[eid];
    let names = sorted(e.components.dom());
    let z = s.emitted(wid, critical_section(eid, "begin"@)).emitted(
        wid,
        entity_msg("AddEntity"@, eid),
    );
    let a = z.emitted(wid, component_update(eid, "pos"@, e.pos.doc())).emitted(
        wid,
        component_update(eid, "vel"@, e.vel.doc()),
    );
    lemma_components_sight(a, wid, eid, e.components, names);
    let b = a.components_sent(wid, eid, e.components, names);
    let c = b.emitted(wid, critical_section(eid, "end"@)).view_added(wid, eid);
    lemma_grants_sight(c, wid, eid, c.client_grants(wid, eid));
    assert(c.workers.dom() =~= s.workers.dom());
    let n = s.outbox.len() as int;
    assert(b.outbox.is_prefix_of(c.outbox));
    lemma_prefix(a.outbox, b.outbox, c.outbox);
    lemma_prefix(a.outbox, c.outbox, t.outbox);
    lemma_prefix(b.outbox, c.outbox, t.outbox);
    assert(a.outbox.len() == n + 4);
    assert forall|k: int| n <= k < t.outbox.len() && k != n + 1 implies is_aside(
        #[trigger] t.outbox[k],
        wid,
    ) by {
        if k < a.outbox.len() {
            assert(t.outbox[k] == a.outbox[k]);
        } else if k < b.outbox.len() {
            assert(t.outbox[k] == b.outbox[k]);
        } else if k < c.outbox.len() {
            assert(t.outbox[k] == c.outbox[k]);
        }
    }
    assert(t.outbox[n + 1] == z.outbox[n + 1]);
    assert(tells(t.outbox[n + 1], wid, "AddEntity"@, eid));
    lemma_shown(s, wid, eid);
    assert forall|k: int| s.outbox.len() <= k < t.outbox.len() implies (#[trigger] t.outbox[k] matches Sent::Peer {
        wid: w,
        ..
    } && w == wid) by {
        if k != n + 1 {
            assert(is_aside(t.outbox[k], wid));
        }
    }
    assert(s.outbox.is_prefix_of(t.outbox)) by {
        assert(s.outbox.is_prefix_of(a.outbox));
        assert(a.outbox.is_prefix_of(b.outbox));
        assert(b.outbox.is_prefix_of(c.outbox));
        assert(c.outbox.is_prefix_of(t.outbox));
    }
}

/// An entity that goes out of sight is taken away: the peer is told so, once and of nothing
/// else, and it is no longer in the peer's view.
pub proof fn law_hidden(s: State, wid: Seq<char>, eid: Seq<char>)
    requires
        s.workers.contains_key(wid),
    ensures
        ({
            let t = s.hidden(wid, eid);
            &&& only_sight(s, t, wid)
            &&& t.entities == s.entities
            &&& t.workers[wid].view == s.workers[wid].view.remove(eid)
            &&& t.workers[wid].authority_epochs == s.workers[wid].authority_epochs
            &&& t.outbox.len() == s.outbox.len() + 1
            &&& forall|x: Seq<char>| #[trigger]
                was_told(s, t, wid, "RemoveEntity"@, x) == (x == eid)
            &&& forall|x: Seq<char>| !#[trigger] was_told(s, t, wid, "AddEntity"@, x)
        }),
{
    lemma_ops();
    let t = s.hidden(wid, eid);
    assert(t.workers.dom() =~= s.workers.dom());
    assert(tells(t.outbox[s.outbox.len() as int], wid, "RemoveEntity"@, eid));
}

proof fn lemma_same_seen(s: State, t: State, wid: Seq<char>, eid: Seq<char>, near: bool)
    requires
        only_sight(s, t, wid),
        s.workers.contains_key(wid),
        s.entities.contains_key(eid),
    ensures
        t.workers.contains_key(wid),
        t.entities.contains_key(eid),
        t.workers[wid].sees(t.entities[eid], near) == s.workers[wid].sees(s.entities[eid], near),
        t.entities[eid].body() == s.entities[eid].body(),
{
    assert(t.workers.dom().contains(wid));
    assert(bodies(s.entities).contains_key(eid));
    assert(bodies(t.entities).contains_key(eid));
    assert(bodies(s.entities)[eid] == s.entities[eid].body());
    assert(bodies(t.entities)[eid] == t.entities[eid].body());
}

proof fn lemma_refocused(s: State, wid: Seq<char>, names: Seq<Seq<char>>, near: Set<Seq<char>>)
    requires
        s.workers.contains_key(wid),
        names.no_duplicates(),
        forall|i: int| 0 <= i < names.len() ==> s.entities.contains_key(#[trigger] names[i]),
    ensures
        ({
            let t = s.refocused(wid, names, near);
            let w = s.workers[wid];
            &&& only_sight(s, t, wid)
            &&& forall|x: Seq<char>| #[trigger]
                t.workers[wid].view.contains(x) == if names.contains(x) {
                    w.sees(s.entities[x], near.contains(x))
                } else {
                    w.view.contains(x)
                }
            &&& forall|x: Seq<char>| #[trigger]
                was_told(s, t, wid, "AddEntity"@, x) == (names.contains(x) && !w.view.contains(x)
                    && w.sees(s.entities[x], near.contains(x)))
            &&& forall|x: Seq<char>| #[trigger]
                was_told(s, t, wid, "RemoveEntity"@, x) == (names.contains(x) && w.view.contains(x)
                    && !w.sees(s.entities[x], near.contains(x)))
        }),
    decreases names.len(),
{
    let t = s.refocused(wid, names, near);
    let w = s.workers[wid];
    if names.len() > 0 {
        let d = names.drop_last();
        let eid = names.last();
        assert forall|i: int, j: int| 0 <= i < d.len() && 0 <= j < d.len() && i != j implies d[i]
            != d[j] by {
            assert(d[i] == names[i] && d[j] == names[j]);
        }
        assert forall|i: int| 0 <= i < d.len() implies s.entities.contains_key(#[trigger] d[i]) by {
            assert(d[i] == names[i]);
        }
        assert(s.entities.contains_key(names[names.len() - 1]));
        lemma_refocused(s, wid, d, near);
        let p = s.refocused(wid, d, near);
        lemma_same_seen(s, p, wid, eid, near.contains(eid));
        assert(!d.contains(eid)) by {
            if d.contains(eid) {
                let j = choose|j: int| 0 <= j < d.len() && d[j] == eid;
                assert(names[j] == names[names.len() - 1]);
            }
        }
        assert(names =~= d.push(eid));
        assert forall|x: Seq<char>| #[trigger] names.contains(x) == (d.contains(x) || x == eid) by {
            crate::json::lemma_push_contains(d, eid, x);
        }
        let inside = w.sees(s.entities[eid], near.contains(eid));
        let had = w.view.contains(eid);
        assert(p.workers[wid].view.contains(eid) == had);
        if inside && !had {
            lemma_shown_tells(p, wid, eid);
        } else if !inside && had {
            law_hidden(p, wid, eid);
        }
        assert(only_sight(p, t, wid));
        lemma_sight_twice(s, p, t, wid);
        assert forall|x: Seq<char>| #[trigger] was_told(s, t, wid, "AddEntity"@, x) == (
        names.contains(x) && !w.view.contains(x) && w.sees(s.entities[x], near.contains(x))) by {
            lemma_told_twice(s, p, t, wid, "AddEntity"@, x);
            assert(was_told(p, t, wid, "AddEntity"@, x) == (x == eid && inside && !had));
        }
        assert forall|x: Seq<char>| #[trigger] was_told(s, t, wid, "RemoveEntity"@, x) == (
        names.contains(x) && w.view.contains(x) && !w.sees(s.entities[x], near.contains(x))) by {
            lemma_told_twice(s, p, t, wid, "RemoveEntity"@, x);
            assert(was_told(p, t, wid, "RemoveEntity"@, x) == (x == eid && !inside && had));
        }
    } else {
        assert(forall|x: Seq<char>| !names.contains(x));
    }
}

pub proof fn lemma_all_names(d: Set<Seq<char>>)
    requires
        d.finite(),
    ensures
        sorted(d).no_duplicates(),
        forall|k: Seq<char>| #[trigger] sorted(d).contains(k) == d.contains(k),
        forall|i: int| 0 <= i < sorted(d).len() ==> d.contains(#[trigger] sorted(d)[i]),
{
    let q = sorted(d);
    lemma_sorted_of(d);
    assert forall|i: int, j: int| 0 <= i < q.len() && 0 <= j < q.len() && i != j implies q[i]
        != q[j] by {
        if i < j {
            crate::order::lemma_lt_irreflexive(q[i], q[j]);
        } else {
            crate::order::lemma_lt_irreflexive(q[j], q[i]);
        }
    }
    assert forall|k: Seq<char>| #[trigger] q.contains(k) == d.contains(k) by {
        assert(q.to_set().contains(k) == q.contains(k));
    }
    assert forall|i: int| 0 <= i < q.len() implies d.contains(#[trigger] q[i]) by {
        assert(q.contains(q[i]));
    }
}

/// A peer that asks for an area sees what is in it, and only that: afterwards its view holds,
/// of the entities, exactly those that lie in the area and that it may read. It is told of
/// those that are new to it and of those that it lost, and of no others; what is no entity
/// here stays in its view.
pub proof fn law_area_is_what_is_seen(
    s: State,
    wid: Seq<char>,
    f: Doc,
    near: Set<Seq<char>>,
)
    requires
        s.workers.contains_key(wid),
        s.entities.dom().finite(),
        f.get("center"@) is Some && f.get("center"@)->0 is Arr,
    ensures
        ({
            let t = s.focused(wid, f, near);
            let w = s.workers[wid];
            let old = w.view;
            let new = t.workers[wid].view;
            &&& bodies(t.entities) == bodies(s.entities)
            &&& t.workers.dom() == s.workers.dom()
            &&& forall|x: Seq<char>|
                s.entities.contains_key(x) ==> (#[trigger] new.contains(x) <==> near.contains(x)
                    && may_read(w.attributes, s.entities[x].components))
            &&& forall|x: Seq<char>|
                !s.entities.contains_key(x) ==> #[trigger] new.contains(x) == old.contains(x)
            &&& forall|x: Seq<char>| #[trigger]
                was_told(s, t, wid, "AddEntity"@, x) == (new.contains(x) && !old.contains(x))
            &&& forall|x: Seq<char>| #[trigger]
                was_told(s, t, wid, "RemoveEntity"@, x) == (old.contains(x) && !new.contains(x))
            &&& forall|v: Seq<char>| v != wid ==> #[trigger] t.workers[v] == s.workers[v]
        }),
{
    let w = s.workers[wid];
    let a = State { workers: s.workers.insert(wid, crate::control::attentive(w, f)), ..s };
    let ids = sorted(s.entities.dom());
    lemma_all_names(s.entities.dom());
    assert forall|i: int| 0 <= i < ids.len() implies a.entities.contains_key(#[trigger] ids[i]) by {
        assert(s.entities.dom().contains(ids[i]));
    }
    lemma_refocused(a, wid, ids, near);
    let t = s.focused(wid, f, near);
    assert(a.workers.dom() =~= s.workers.dom());
    assert forall|x: Seq<char>| ids.contains(x) == s.entities.contains_key(x) by {}
    assert forall|x: Seq<char>| #[trigger] was_told(s, t, wid, "AddEntity"@, x) == was_told(
        a,
        t,
        wid,
        "AddEntity"@,
        x,
    ) by {}
    assert forall|x: Seq<char>| #[trigger] was_told(s, t, wid, "RemoveEntity"@, x) == was_told(
        a,
        t,
        wid,
        "RemoveEntity"@,
        x,
    ) by {}
    assert forall|v: Seq<char>| v != wid implies #[trigger] t.workers[v] == s.workers[v] by {
        assert(a.workers[v] == s.workers[v]);
    }
}

/// A value that was written reaches a peer as far as it sees the entity: afterwards the
/// entity is in its view where it sees it and not where it does not. One that had it in view
/// and gets it in full is sent the value, once; from afar it is sent every so many times a
/// value marked as coarse; one that sees it for the first time is shown it whole, and one
/// that lost it is told so.
pub proof fn law_values_reach_those_who_see(
    s: State,
    g: Glance,
    eid: Seq<char>,
    comp: Seq<char>,
    value: Doc,
)
    requires
        s.workers.contains_key(g.wid),
        s.entities.contains_key(eid),
    ensures
        ({
            let t = s.told(g, eid, comp, value);
            let w = s.workers[g.wid];
            let sees = w.sees(s.entities[eid], g.near);
            let had = w.view.contains(eid);
            let full = w.aoi_center is None || w.full_radius is None || g.full;
            let key = component_key(eid, comp);
            let count = if w.fidelity_seq.contains_key(key) {
                w.fidelity_seq[key]
            } else {
                0
            };
            let every = if w.coarse_rate == 0 {
                1
            } else {
                w.coarse_rate
            };
            let coarse = component_update(eid, comp, coarsened(comp, value, w.coarse_grid, g.rounded));
            &&& t.workers[g.wid].view == if sees {
                w.view.insert(eid)
            } else {
                w.view.remove(eid)
            }
            &&& forall|v: Seq<char>| v != g.wid ==> #[trigger] t.workers[v] == s.workers[v]
            &&& same_world(s, t)
            &&& sees && had && full ==> t.outbox == s.outbox.push(
                Sent::Peer { wid: g.wid, msg: component_update(eid, comp, value) },
            )
            &&& sees && had && !full && count < u64::MAX && count as int % every as int == 0
                ==> t.outbox == s.outbox.push(
                Sent::Peer {
                    wid: g.wid,
                    msg: Doc::Obj(coarse->Obj_0.insert("fidelity"@, Doc::Str("coarse"@))),
                },
            )
            &&& sees && had && !full && count < u64::MAX && count as int % every as int != 0
                ==> t.outbox == s.outbox
            &&& sees && had && !full && count < u64::MAX ==> t.workers[g.wid].fidelity_seq
                == w.fidelity_seq.insert(key, (count + 1) as u64)
            &&& was_told(s, t, g.wid, "AddEntity"@, eid) == (sees && !had)
            &&& was_told(s, t, g.wid, "RemoveEntity"@, eid) == (!sees && had)
            &&& !sees && !had ==> t == s
        }),
{
    lemma_ops();
    let t = s.told(g, eid, comp, value);
    let w = s.workers[g.wid];
    let sees = w.sees(s.entities[eid], g.near);
    let had = w.view.contains(eid);
    if sees && !had {
        lemma_shown_tells(s, g.wid, eid);
    } else if !sees && had {
        law_hidden(s, g.wid, eid);
    } else if sees {
        assert(t.workers[g.wid].view =~= w.view.insert(eid));
        let n = s.outbox.len() as int;
        let m = component_update(eid, comp, value);
        let c = component_update(eid, comp, coarsened(comp, value, w.coarse_grid, g.rounded));
        let d = Doc::Obj(c->Obj_0.insert("fidelity"@, Doc::Str("coarse"@)));
        reveal_strlit("fidelity");
        reveal_strlit("op");
        assert("fidelity"@.len() == 8 && "op"@.len() == 2);
        assert(c.get_str("op"@) == Some("ComponentUpdate"@));
        assert(d.get("op"@) == c.get("op"@));
    } else {
        assert(w.view =~= w.view.remove(eid));
    }
}

/// Everybody who has an entity in view is sent a message about it, once, and nobody else is.
pub proof fn law_viewers_are_told(s: State, eid: Seq<char>, msg: Doc)
    requires
        s.workers.dom().finite(),
    ensures
        ({
            let t = s.viewers_told(eid, msg);
            &&& t == (State { outbox: t.outbox, ..s })
            &&& s.outbox.is_prefix_of(t.outbox)
            &&& forall|w: Seq<char>| #[trigger]
                was_sent(s, t, w, msg) == (s.workers.contains_key(w) && s.workers[w].view.contains(eid))
            &&& forall|k: int|
                s.outbox.len() <= k < t.outbox.len() ==> (#[trigger] t.outbox[k] matches Sent::Peer {
                    wid,
                    msg: m,
                } && m == msg && s.workers.contains_key(wid) && s.workers[wid].view.contains(eid))
            &&& forall|j: int, k: int|
                s.outbox.len() <= j < k < t.outbox.len() ==> #[trigger] t.outbox[j]
                    != #[trigger] t.outbox[k]
        }),
{
    let names = sorted(s.workers.dom());
    lemma_all_names(s.workers.dom());
    lemma_told_viewers(s, names, eid, msg);
    let t = s.viewers_told(eid, msg);
    assert forall|w: Seq<char>| #[trigger] was_sent(s, t, w, msg) == (s.workers.contains_key(w)
        && s.workers[w].view.contains(eid)) by {
        assert(names.contains(w) == s.workers.contains_key(w));
    }
}

proof fn lemma_told_viewers(s: State, names: Seq<Seq<char>>, eid: Seq<char>, msg: Doc)
    requires
        names.no_duplicates(),
    ensures
        ({
            let t = s.told_viewers(names, eid, msg);
            &&& t == (State { outbox: t.outbox, ..s })
            &&& s.outbox.is_prefix_of(t.outbox)
            &&& forall|w: Seq<char>| #[trigger]
                was_sent(s, t, w, msg) == (names.contains(w) && s.workers.contains_key(w)
                    && s.workers[w].view.contains(eid))
            &&& forall|k: int|
                s.outbox.len() <= k < t.outbox.len() ==> (#[trigger] t.outbox[k] matches Sent::Peer {
                    wid,
                    msg: m,
                } && m == msg && names.contains(wid) && s.workers.contains_key(wid)
                    && s.workers[wid].view.contains(eid))
            &&& forall|j: int, k: int|
                s.outbox.len() <= j < k < t.outbox.len() ==> #[trigger] t.outbox[j]
                    != #[trigger] t.outbox[k]
        }),
    decreases names.len(),
{
    let t = s.told_viewers(names, eid, msg);
    if names.len() > 0 {
        let d = names.drop_last();
        let l = names.last();
        crate::succession::lemma_last_is_new(names);
        lemma_told_viewers(s, d, eid, msg);
        let p = s.told_viewers(d, eid, msg);
        if s.workers.contains_key(l) && s.workers[l].view.contains(eid) {
            let n = p.outbox.len() as int;
            assert(t.outbox[n] == (Sent::Peer { wid: l, msg }));
            assert forall|k: int| 0 <= k < n implies #[trigger] t.outbox[k] == p.outbox[k] by {}
            assert forall|w: Seq<char>| #[trigger] was_sent(s, t, w, msg) == (names.contains(w)
                && s.workers.contains_key(w) && s.workers[w].view.contains(eid)) by {
                if w == l {
                    assert(was_sent(s, t, w, msg));
                } else {
                    assert(was_sent(s, t, w, msg) == was_sent(s, p, w, msg)) by {
                        if was_sent(s, t, w, msg) {
                            let k = choose|k: int|
                                s.outbox.len() <= k < t.outbox.len() && #[trigger] t.outbox[k]
                                    == (Sent::Peer { wid: w, msg });
                            assert(p.outbox[k] == t.outbox[k]);
                        }
                        if was_sent(s, p, w, msg) {
                            let k = choose|k: int|
                                s.outbox.len() <= k < p.outbox.len() && #[trigger] p.outbox[k]
                                    == (Sent::Peer { wid: w, msg });
                            assert(t.outbox[k] == p.outbox[k]);
                        }
                    }
                }
            }
            assert forall|j: int, k: int| s.outbox.len() <= j < k < t.outbox.len() implies
                #[trigger] t.outbox[j] != #[trigger] t.outbox[k] by {
                assert(t.outbox[j] == p.outbox[j]);
                if k < n {
                    assert(t.outbox[k] == p.outbox[k]);
                }
            }
        }
    } else {
        assert(forall|w: Seq<char>| !names.contains(w));
        assert(forall|w: Seq<char>| !was_sent(s, t, w, msg));
    }
}

/// What goes, goes from everybody's sight: nobody has it in view any more, those who had it
/// are told that it is gone, nobody else is told anything, and what else they have in view
/// they keep.
pub proof fn law_gone_from_all_views(s: State, eid: Seq<char>)
    requires
        s.workers.dom().finite(),
    ensures
        ({
            let t = s.hidden_from_all(eid);
            &&& t.entities == s.entities
            &&& t.workers.dom() == s.workers.dom()
            &&& forall|w: Seq<char>| #[trigger]
                s.workers.contains_key(w) ==> t.workers[w] == (Peer {
                    view: s.workers[w].view.remove(eid),
                    ..s.workers[w]
                })
            &&& forall|w: Seq<char>| #[trigger]
                was_told(s, t, w, "RemoveEntity"@, eid) == (s.workers.contains_key(w)
                    && s.workers[w].view.contains(eid))
            &&& forall|k: int|
                s.outbox.len() <= k < t.outbox.len() ==> (#[trigger] t.outbox[k] matches Sent::Peer {
                    wid,
                    msg,
                } && msg == entity_msg("RemoveEntity"@, eid) && s.workers.contains_key(wid)
                    && s.workers[wid].view.contains(eid))
        }),
{
    let names = sorted(s.workers.dom());
    lemma_all_names(s.workers.dom());
    lemma_hidden_from(s, names, eid);
    let t = s.hidden_from_all(eid);
    assert forall|w: Seq<char>| #[trigger] was_told(s, t, w, "RemoveEntity"@, eid) == (
    s.workers.contains_key(w) && s.workers[w].view.contains(eid)) by {
        assert(names.contains(w) == s.workers.contains_key(w));
    }
    assert forall|w: Seq<char>| #[trigger] s.workers.contains_key(w) implies t.workers[w] == (Peer {
        view: s.workers[w].view.remove(eid),
        ..s.workers[w]
    }) by {
        assert(names.contains(w));
        if !s.workers[w].view.contains(eid) {
            assert(s.workers[w].view.remove(eid) =~= s.workers[w].view);
        }
    }
}

pub proof fn lemma_hidden_from(s: State, names: Seq<Seq<char>>, eid: Seq<char>)
    requires
        names.no_duplicates(),
    ensures
        ({
            let t = s.hidden_from(names, eid);
            &&& t.entities == s.entities
            &&& t.workers.dom() == s.workers.dom()
            &&& s.outbox.is_prefix_of(t.outbox)
            &&& forall|w: Seq<char>| #[trigger]
                s.workers.contains_key(w) ==> t.workers[w] == if names.contains(w) {
                    Peer { view: t.workers[w].view, ..s.workers[w] }
                } else {
                    s.workers[w]
                }
            &&& forall|w: Seq<char>| #[trigger]
                s.workers.contains_key(w) && names.contains(w) ==> t.workers[w].view
                    == s.workers[w].view.remove(eid)
            &&& forall|w: Seq<char>| #[trigger]
                was_told(s, t, w, "RemoveEntity"@, eid) == (names.contains(w)
                    && s.workers.contains_key(w) && s.workers[w].view.contains(eid))
            &&& forall|k: int|
                s.outbox.len() <= k < t.outbox.len() ==> (#[trigger] t.outbox[k] matches Sent::Peer {
                    wid,
                    msg,
                } && msg == entity_msg("RemoveEntity"@, eid) && s.workers.contains_key(wid)
                    && s.workers[wid].view.contains(eid))
        }),
    decreases names.len(),
{
    let t = s.hidden_from(names, eid);
    if names.len() > 0 {
        let d = names.drop_last();
        let l = names.last();
        crate::succession::lemma_last_is_new(names);
        lemma_hidden_from(s, d, eid);
        let p = s.hidden_from(d, eid);
        lemma_ops();
        assert(p.workers.contains_key(l) == s.workers.contains_key(l)) by {
            assert(p.workers.dom().contains(l) == s.workers.dom().contains(l));
        }
        if s.workers.contains_key(l) {
            assert(p.workers[l] == s.workers[l]);
            if s.workers[l].view.contains(eid) {
                law_hidden(p, l, eid);
                let n = p.outbox.len() as int;
                assert(tells(t.outbox[n], l, "RemoveEntity"@, eid));
                assert forall|w: Seq<char>| #[trigger] was_told(s, t, w, "RemoveEntity"@, eid) == (
                names.contains(w) && s.workers.contains_key(w) && s.workers[w].view.contains(eid)) by {
                    lemma_told_twice(s, p, t, w, "RemoveEntity"@, eid);
                    assert(was_told(p, t, w, "RemoveEntity"@, eid) == (w == l)) by {
                        if was_told(p, t, w, "RemoveEntity"@, eid) {
                            let k = choose|k: int|
                                p.outbox.len() <= k < t.outbox.len() && tells(
                                    #[trigger] t.outbox[k],
                                    w,
                                    "RemoveEntity"@,
                                    eid,
                                );
                            assert(k == n);
                        }
                    }
                }
                assert forall|k: int| s.outbox.len() <= k < t.outbox.len() implies (
                #[trigger] t.outbox[k] matches Sent::Peer { wid, msg } && msg == entity_msg(
                    "RemoveEntity"@,
                    eid,
                ) && s.workers.contains_key(wid) && s.workers[wid].view.contains(eid)) by {
                    if k < n {
                        assert(t.outbox[k] == p.outbox[k]);
                    }
                }
                assert(t.workers.dom() =~= s.workers.dom());
            } else {
                assert(s.workers[l].view.remove(eid) =~= s.workers[l].view);
            }
        }
    } else {
        assert(forall|w: Seq<char>| !names.contains(w));
        assert(forall|w: Seq<char>| !was_told(s, t, w, "RemoveEntity"@, eid));
    }
}

/// An entity that comes is shown to everybody who sees it, and to nobody else: it is in the
/// view of those, and nothing else is in anybody's view that was not.
pub proof fn law_announced_to_those_who_see(s: State, eid: Seq<char>, near: Set<Seq<char>>)
    requires
        s.workers.dom().finite(),
        s.entities.contains_key(eid),
    ensures
        ({
            let t = s.announced(sorted(s.workers.dom()), eid, near);
            &&& bodies(t.entities) == bodies(s.entities)
            &&& t.workers.dom() == s.workers.dom()
            &&& forall|w: Seq<char>| #[trigger]
                s.workers.contains_key(w) ==> {
                    let sees = s.workers[w].sees(s.entities[eid], near.contains(w));
                    &&& t.workers[w].view == if sees {
                        s.workers[w].view.insert(eid)
                    } else {
                        s.workers[w].view
                    }
                    &&& was_told(s, t, w, "AddEntity"@, eid) == sees
                    &&& !was_told(s, t, w, "RemoveEntity"@, eid)
                }
        }),
{
    let names = sorted(s.workers.dom());
    lemma_all_names(s.workers.dom());
    lemma_announced(s, names, eid, near);
    let t = s.announced(names, eid, near);
    assert forall|w: Seq<char>| #[trigger] s.workers.contains_key(w) implies {
        let sees = s.workers[w].sees(s.entities[eid], near.contains(w));
        &&& t.workers[w].view == if sees {
            s.workers[w].view.insert(eid)
        } else {
            s.workers[w].view
        }
        &&& was_told(s, t, w, "AddEntity"@, eid) == sees
        &&& !was_told(s, t, w, "RemoveEntity"@, eid)
    } by {
        assert(names.contains(w));
    }
}

proof fn lemma_announced(s: State, names: Seq<Seq<char>>, eid: Seq<char>, near: Set<Seq<char>>)
    requires
        names.no_duplicates(),
        s.entities.contains_key(eid),
    ensures
        ({
            let t = s.announced(names, eid, near);
            &&& same_world(s, t)
            &&& t.workers.dom() == s.workers.dom()
            &&& s.outbox.is_prefix_of(t.outbox)
            &&& forall|w: Seq<char>| #[trigger]
                s.workers.contains_key(w) ==> {
                    let sees = names.contains(w) && s.workers[w].sees(
                        s.entities[eid],
                        near.contains(w),
                    );
                    &&& t.workers[w].view == if sees {
                        s.workers[w].view.insert(eid)
                    } else {
                        s.workers[w].view
                    }
                    &&& t.workers[w] == (Peer {
                        view: t.workers[w].view,
                        authority_epochs: t.workers[w].authority_epochs,
                        ..s.workers[w]
                    })
                    &&& was_told(s, t, w, "AddEntity"@, eid) == sees
                    &&& !was_told(s, t, w, "RemoveEntity"@, eid)
                }
            &&& forall|w: Seq<char>|
                !names.contains(w) ==> #[trigger] t.workers[w] == s.workers[w]
        }),
    decreases names.len(),
{
    let t = s.announced(names, eid, near);
    if names.len() > 0 {
        let d = names.drop_last();
        let l = names.last();
        crate::succession::lemma_last_is_new(names);
        lemma_announced(s, d, eid, near);
        let p = s.announced(d, eid, near);
        assert(p.workers.contains_key(l) == s.workers.contains_key(l)) by {
            assert(p.workers.dom().contains(l) == s.workers.dom().contains(l));
        }
        lemma_same_keys(s, p);
        assert(bodies(s.entities).contains_key(eid));
        assert(bodies(p.entities).contains_key(eid));
        assert(bodies(s.entities)[eid] == s.entities[eid].body());
        assert(bodies(p.entities)[eid] == p.entities[eid].body());
        assert(p.workers[l] == s.workers[l]);
        if s.workers.contains_key(l) && s.workers[l].sees(s.entities[eid], near.contains(l)) {
            lemma_shown_tells(p, l, eid);
            let q = p.shown(l, eid);
            lemma_grants_sight(q, l, eid, q.regional_grants(l, eid));
            lemma_asides_tell_nothing(q, t, l);
            lemma_sight_twice(p, q, t, l);
            assert(t.workers.dom() =~= s.workers.dom());
            assert(q.workers.dom().contains(l));
            assert forall|w: Seq<char>| #[trigger] s.workers.contains_key(w) implies {
                let sees = names.contains(w) && s.workers[w].sees(s.entities[eid], near.contains(w));
                &&& t.workers[w].view == if sees {
                    s.workers[w].view.insert(eid)
                } else {
                    s.workers[w].view
                }
                &&& t.workers[w] == (Peer {
                    view: t.workers[w].view,
                    authority_epochs: t.workers[w].authority_epochs,
                    ..s.workers[w]
                })
                &&& was_told(s, t, w, "AddEntity"@, eid) == sees
                &&& !was_told(s, t, w, "RemoveEntity"@, eid)
            } by {
                lemma_told_twice(s, p, t, w, "AddEntity"@, eid);
                lemma_told_twice(s, p, t, w, "RemoveEntity"@, eid);
                lemma_told_twice(p, q, t, w, "AddEntity"@, eid);
                lemma_told_twice(p, q, t, w, "RemoveEntity"@, eid);
                if w != l {
                    assert(t.workers[w] == p.workers[w]);
                    assert(!was_told(p, t, w, "AddEntity"@, eid)) by {
                        lemma_only_to(p, t, l, w, "AddEntity"@, eid);
                    }
                    assert(!was_told(p, t, w, "RemoveEntity"@, eid)) by {
                        lemma_only_to(p, t, l, w, "RemoveEntity"@, eid);
                    }
                }
            }
            assert forall|w: Seq<char>| !names.contains(w) implies #[trigger] t.workers[w]
                == s.workers[w] by {
                assert(t.workers[w] == p.workers[w]);
            }
        }
    } else {
        assert(forall|w: Seq<char>| !names.contains(w));
    }
}

proof fn lemma_only_to(
    s: State,
    t: State,
    wid: Seq<char>,
    other: Seq<char>,
    op: Seq<char>,
    eid: Seq<char>,
)
    requires
        only_sight(s, t, wid),
        other != wid,
    ensures
        !was_told(s, t, other, op, eid),
{
}

pub proof fn lemma_checked_out(s: State, wid: Seq<char>, names: Seq<Seq<char>>, near: Set<Seq<char>>)
    requires
        s.workers.contains_key(wid),
        forall|i: int| 0 <= i < names.len() ==> s.entities.contains_key(#[trigger] names[i]),
    ensures
        ({
            let t = s.checked_out(wid, names, near);
            let w = s.workers[wid];
            &&& only_sight(s, t, wid)
            &&& forall|x: Seq<char>| #[trigger]
                t.workers[wid].view.contains(x) == (w.view.contains(x) || (names.contains(x)
                    && w.sees(s.entities[x], near.contains(x))))
            &&& forall|x: Seq<char>| #[trigger]
                was_told(s, t, wid, "AddEntity"@, x) == (names.contains(x) && w.sees(
                    s.entities[x],
                    near.contains(x),
                ))
            &&& forall|x: Seq<char>| !#[trigger] was_told(s, t, wid, "RemoveEntity"@, x)
        }),
    decreases names.len(),
{
    let t = s.checked_out(wid, names, near);
    let w = s.workers[wid];
    if names.len() > 0 {
        let d = names.drop_last();
        let eid = names.last();
        assert forall|i: int| 0 <= i < d.len() implies s.entities.contains_key(#[trigger] d[i]) by {
            assert(d[i] == names[i]);
        }
        assert(s.entities.contains_key(names[names.len() - 1]));
        lemma_checked_out(s, wid, d, near);
        let p = s.checked_out(wid, d, near);
        lemma_same_seen(s, p, wid, eid, near.contains(eid));
        assert(names =~= d.push(eid));
        assert forall|x: Seq<char>| #[trigger] names.contains(x) == (d.contains(x) || x == eid) by {
            crate::json::lemma_push_contains(d, eid, x);
        }
        let inside = w.sees(s.entities[eid], near.contains(eid));
        if inside {
            lemma_shown_tells(p, wid, eid);
            let q = p.shown(wid, eid);
            lemma_grants_sight(q, wid, eid, q.regional_grants(wid, eid));
            lemma_asides_tell_nothing(q, t, wid);
            lemma_sight_twice(p, q, t, wid);
            assert(q.workers.dom().contains(wid));
            assert forall|x: Seq<char>| #[trigger] was_told(p, t, wid, "AddEntity"@, x) == (x == eid) by {
                lemma_told_twice(p, q, t, wid, "AddEntity"@, x);
            }
            assert forall|x: Seq<char>| !#[trigger] was_told(p, t, wid, "RemoveEntity"@, x) by {
                lemma_told_twice(p, q, t, wid, "RemoveEntity"@, x);
            }
        }
        assert(only_sight(p, t, wid));
        lemma_sight_twice(s, p, t, wid);
        assert forall|x: Seq<char>| #[trigger] was_told(s, t, wid, "AddEntity"@, x) == (
        names.contains(x) && w.sees(s.entities[x], near.contains(x))) by {
            lemma_told_twice(s, p, t, wid, "AddEntity"@, x);
            assert(was_told(p, t, wid, "AddEntity"@, x) == (x == eid && inside));
        }
        assert forall|x: Seq<char>| !#[trigger] was_told(s, t, wid, "RemoveEntity"@, x) by {
            lemma_told_twice(s, p, t, wid, "RemoveEntity"@, x);
            assert(!was_told(p, t, wid, "RemoveEntity"@, x));
        }
    } else {
        assert(forall|x: Seq<char>| !names.contains(x));
    }
}

/// A peer that comes is shown what it sees, and only that.
pub proof fn law_newcomers_see_what_is_there(s: State, wid: Seq<char>, near: Set<Seq<char>>)
    requires
        s.workers.contains_key(wid),
        s.entities.dom().finite(),
        s.workers[wid].view == Set::<Seq<char>>::empty(),
    ensures
        ({
            let t = s.checked_out(wid, sorted(s.entities.dom()), near);
            &&& bodies(t.entities) == bodies(s.entities)
            &&& forall|x: Seq<char>| #[trigger]
                t.workers[wid].view.contains(x) == (s.entities.contains_key(x) && s.workers[wid].sees(
                    s.entities[x],
                    near.contains(x),
                ))
            &&& forall|x: Seq<char>| #[trigger]
                was_told(s, t, wid, "AddEntity"@, x) == t.workers[wid].view.contains(x)
            &&& forall|x: Seq<char>| !#[trigger] was_told(s, t, wid, "RemoveEntity"@, x)
        }),
{
    let ids = sorted(s.entities.dom());
    lemma_all_names(s.entities.dom());
    assert forall|i: int| 0 <= i < ids.len() implies s.entities.contains_key(#[trigger] ids[i]) by {
        assert(s.entities.dom().contains(ids[i]));
    }
    lemma_checked_out(s, wid, ids, near);
    assert forall|x: Seq<char>| ids.contains(x) == s.entities.contains_key(x) by {}
}

}

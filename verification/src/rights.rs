//! Who may do what: which writes are accepted, who makes and ends entities and components,
//! who changes owners, and whom commands reach.

use vstd::prelude::*;
use vstd::string::*;
use crate::attention::{law_gone_from_all_views, law_viewers_are_told, was_sent};
use crate::clock::{normalized, stored_physics};
use crate::commands::{command_failed, command_msg, request_name, response_msg};
use crate::components::{named_comp, named_entity, reassigned, Change};
use crate::doc::Doc;
use crate::entity::{succ, value_epoch, Auth, AuthorityMode, Ent};
use crate::float::{float_lt, Vec2};
use crate::grants::component_key;
use crate::handoff::at;
use crate::lifecycle::{asked_components, asked_entity, planar, without};
use crate::recovery::ev_components;
use crate::state::{Hand, Routed, Sent, State, Upd};
use crate::text::begins;
use crate::update::{writes_of, Ask, Judged, Near};

verus! {

broadcast use {crate::doc::group_json, crate::strmap::group_map};

/// The attribute that a table of an entity's `acl` names for a component.
pub open spec fn acl_entry(e: Ent, table: Seq<char>, comp: Seq<char>) -> Option<Seq<char>> {
    if e.components.contains_key("acl"@) && e.components["acl"@].get(table) is Some {
        (e.components["acl"@].get(table)->0).get_str(comp)
    } else {
        None
    }
}

/// Whether a component is kept from everybody but the kernel's administrators.
pub open spec fn is_kept_back(comp: Seq<char>) -> bool {
    ||| comp == "kernel"@
    ||| "kernel."@.is_prefix_of(comp)
    ||| comp == "ownership"@
    ||| "ownership."@.is_prefix_of(comp)
    ||| comp == "zone.law"@
    ||| comp == "threshold.tx"@
    ||| comp == "authority.mode"@
}

/// Whether a peer writes for a component: as an administrator of the kernel; as a client that
/// the entity lets move it; as its owner; or, where it has none, as the holder of the
/// entity's region.
pub open spec fn writes_for(s: State, wid: Seq<char>, eid: Seq<char>, comp: Seq<char>) -> bool {
    let e = s.entities[eid];
    let client = acl_entry(e, "client_write"@, comp);
    ||| s.has_attr(wid, "kernel_admin"@)
    ||| e.mode(comp) == AuthorityMode::ClientForwardSparse && client is Some && s.has_attr(
        wid,
        client->0,
    )
    ||| e.owner(comp) == Some(wid)
    ||| e.owner(comp) is None && at(s.region_worker, e.region) == Some(wid)
}

/// Whether a peer acts under the current epoch of a component: the one that it states, or
/// else the one that it was last granted, is the entity's; without either it may act.
pub open spec fn is_current(
    s: State,
    wid: Seq<char>,
    eid: Seq<char>,
    comp: Seq<char>,
    stated: Option<u64>,
) -> bool {
    let now = s.entities[eid].epoch(comp);
    match stated {
        Some(n) => n == now,
        None => s.workers.contains_key(wid) && s.workers[wid].authority_epochs.contains_key(
            component_key(eid, comp),
        ) ==> s.workers[wid].authority_epochs[component_key(eid, comp)] == now,
    }
}

proof fn lemma_prefixes(comp: Seq<char>)
    ensures
        crate::entity::platform_reserved(comp) == is_kept_back(comp),
{
    assert(begins(comp, "kernel."@) == "kernel."@.is_prefix_of(comp));
    assert(begins(comp, "ownership."@) == "ownership."@.is_prefix_of(comp));
}

/// A write is accepted from a peer that writes for the component, has the attribute that the
/// entity's `acl` asks of its writers, is the administrator that the component needs, and
/// acts under the current epoch; and from nobody else. A client that moves its entity is held
/// to distances as well.
pub proof fn law_who_may_write(s: State, a: Ask, v: Judged)
    ensures
        ({
            let e = s.entities[a.eid];
            let asked = acl_entry(e, "write"@, a.comp);
            let may = {
                &&& s.entities.contains_key(a.eid)
                &&& writes_for(s, a.wid, a.eid, a.comp)
                &&& asked is Some ==> s.has_attr(a.wid, asked->0)
                &&& a.comp == "acl"@ ==> s.has_attr(a.wid, "acl_admin"@)
                &&& is_kept_back(a.comp) ==> s.has_attr(a.wid, "kernel_admin"@)
                &&& is_current(s, a.wid, a.eid, a.comp, a.epoch)
            };
            &&& s.accepts(a, v) ==> may
            &&& may && v.stride is None && v.gaps.len() == 0 ==> s.accepts(a, v)
            &&& may && (a.comp != "pos"@ || e.mode(a.comp) != AuthorityMode::ClientForwardSparse)
                ==> s.accepts(a, v)
        }),
{
    lemma_prefixes(a.comp);
}

/// A client's move is accepted where it is not too long and comes not too close to what
/// another client moves, and not otherwise.
pub proof fn law_client_moves_keep_their_distance(s: State, a: Ask, v: Judged, limit: u64, i: int)
    requires
        s.entities.contains_key(a.eid),
        a.comp == "pos"@,
        s.entities[a.eid].mode("pos"@) == AuthorityMode::ClientForwardSparse,
    ensures
        crate::update::stated_bound(s.entities[a.eid], a.comp, crate::update::stride_keys()) == Some(
            limit,
        ) && v.stride is Some && float_lt(limit, (v.stride->0).0) ==> !s.accepts(a, v),
        crate::update::stated_bound(
            s.entities[a.eid],
            a.comp,
            crate::update::contact_keys(),
        ) is Some && 0 <= i < v.gaps.len() && v.gaps[i].other != a.eid && s.entities.contains_key(
            v.gaps[i].other,
        ) && s.entities[v.gaps[i].other].mode("pos"@) == AuthorityMode::ClientForwardSparse
            && float_lt(0, v.gaps[i].threshold) && !float_lt(v.gaps[i].threshold, v.gaps[i].distance)
            ==> !s.accepts(a, v),
{
    if 0 <= i < v.gaps.len() {
        lemma_touched(s, a.eid, a.comp, v.gaps, i);
    }
}

proof fn lemma_touched(s: State, eid: Seq<char>, comp: Seq<char>, gaps: Seq<Near>, i: int)
    requires
        0 <= i < gaps.len(),
    ensures
        s.touches(eid, comp, gaps[i]) ==> s.first_touched(eid, comp, gaps) is Some,
    decreases gaps.len(),
{
    let d = gaps.drop_last();
    if i < d.len() {
        assert(d[i] == gaps[i]);
        lemma_touched(s, eid, comp, d, i);
    }
}

/// A refused write changes nothing, and its sender is told: one rejection, which names the
/// entity and the component, goes to it and nothing to anybody else. (A move that came too
/// close is another matter: it ends the clients' right to move both entities.)
pub proof fn law_refused_writes_change_nothing(s: State, a: Ask, v: Judged)
    requires
        !s.accepts(a, v),
        s.contact(a.eid, a.comp, v) is None || !s.entities.contains_key(a.eid),
        s.workers.contains_key(a.wid),
    ensures
        ({
            let t = s.refused(a, v);
            &&& t == (State { outbox: t.outbox, rejected: t.rejected, ..s })
            &&& t.outbox.len() == s.outbox.len() + 1
            &&& t.outbox.drop_last() == s.outbox
            &&& t.outbox.last() matches Sent::Peer { wid, msg } && wid == a.wid && msg.get_str(
                "op"@,
            ) == Some("UpdateRejected"@) && msg.get_str("entity"@) == Some(a.eid) && msg.get_str(
                "comp"@,
            ) == Some(a.comp)
        }),
{
    let t = s.refused(a, v);
    assert(t.outbox.drop_last() =~= s.outbox);
    reveal_strlit("op");
    reveal_strlit("entity");
    reveal_strlit("comp");
    reveal_strlit("reason");
    reveal_strlit("ghost");
    reveal_strlit("owner_region");
    reveal_strlit("authority_epoch");
    reveal_strlit("mode");
    assert("op"@.len() == 2 && "entity"@.len() == 6 && "comp"@.len() == 4 && "reason"@.len() == 6
        && "ghost"@.len() == 5 && "owner_region"@.len() == 12 && "authority_epoch"@.len() == 15
        && "mode"@.len() == 4);
    assert("entity"@[0] == 'e' && "reason"@[0] == 'r' && "comp"@[0] == 'c' && "mode"@[0] == 'm');
}

/// An accepted write is what was asked for: of that entity and component, by its sender, with
/// the value that was sent, unless it is a clock, which the broker sets. It is the next
/// version after those of all writes of the entity that are queued, and the next generation.
pub proof fn law_accepted_writes_are_what_was_asked(s: State, a: Ask, now_ms: u64)
    ensures
        ({
            let u = s.write_of(a, now_ms);
            let e = s.entities[a.eid];
            let queued = s.pending_updates.filter(|p: Upd| p.eid == a.eid).len();
            &&& u.eid == a.eid && u.comp == a.comp && u.writer == a.wid
            &&& a.comp != "gen"@ && a.comp != "t_server"@ && a.comp != "sim_time"@ && a.comp
                != "physics"@ ==> u.value == a.value
            &&& a.comp == "physics"@ && a.value is Obj ==> u.value is Obj && forall|k: Seq<char>|
                k != "gen"@ && k != "t_server"@ && k != "sim_time"@ ==> #[trigger] u.value.get(k)
                    == a.value.get(k)
            &&& e.version + queued + 1 <= u64::MAX ==> u.version == e.version + queued + 1
            &&& s.wal.pending_gen < u64::MAX ==> u.gen == s.wal.pending_gen + 1
        }),
{
    lemma_queued(s.pending_updates, a.eid);
    reveal_strlit("gen");
    reveal_strlit("t_server");
    reveal_strlit("sim_time");
    reveal_strlit("physics");
    assert("gen"@.len() == 3 && "t_server"@.len() == 8 && "sim_time"@.len() == 8 && "physics"@.len()
        == 7);
}

proof fn lemma_queued(us: Seq<Upd>, eid: Seq<char>)
    ensures
        writes_of(us, eid) == us.filter(|p: Upd| p.eid == eid).len(),
    decreases us.len(),
{
    reveal(Seq::filter);
    if us.len() > 0 {
        lemma_queued(us.drop_last(), eid);
    }
}

/// The clocks inside `physics` do not run back either.
pub proof fn law_physics_clocks_advance(e: Ent, value: Doc, now_ms: u64)
    requires
        value is Obj,
    ensures
        ({
            let r = normalized(e, "physics"@, value, now_ms);
            &&& forall|n: u64|
                stored_physics(e, "gen"@) == Some(n) && n < u64::MAX ==> r.get_u64("gen"@)->0 > n
            &&& forall|n: u64|
                stored_physics(e, "t_server"@) == Some(n) && n < u64::MAX ==> r.get_u64(
                    "t_server"@,
                )->0 > n
            &&& forall|n: u64|
                stored_physics(e, "sim_time"@) == Some(n) && n <= u64::MAX - crate::clock::SIM_DT_MS
                    ==> r.get_u64("sim_time"@)->0 >= n + crate::clock::SIM_DT_MS
        }),
{
    reveal_strlit("gen");
    reveal_strlit("t_server");
    reveal_strlit("sim_time");
    reveal_strlit("physics");
    assert("gen"@.len() == 3 && "t_server"@.len() == 8 && "sim_time"@.len() == 8 && "physics"@.len()
        == 7);
    assert("t_server"@[0] != "sim_time"@[0]);
}

/// Whether a peer may have a component of an entity come or go.
pub open spec fn alters(s: State, wid: Seq<char>, f: Doc) -> bool {
    let eid = named_entity(f);
    let comp = named_comp(f);
    &&& s.entities.contains_key(eid)
    &&& writes_for(s, wid, eid, comp)
    &&& comp == "acl"@ ==> s.has_attr(wid, "acl_admin"@)
    &&& is_kept_back(comp) ==> s.has_attr(wid, "kernel_admin"@)
    &&& is_current(s, wid, eid, comp, value_epoch(f))
}

/// A component comes to an entity that lacks it, from a peer that writes for it, and goes
/// from one that has it; and in no other case.
pub proof fn law_who_adds_and_removes_components(s: State, wid: Seq<char>, f: Doc)
    ensures
        s.adds_component(wid, f) == (alters(s, wid, f)
            && !s.entities[named_entity(f)].components.contains_key(named_comp(f))),
        s.removes_component(wid, f) == (alters(s, wid, f)
            && s.entities[named_entity(f)].components.contains_key(named_comp(f))),
{
    lemma_prefixes(named_comp(f));
}

/// A component that comes is there with its value, and everybody who has the entity in view
/// is sent it; one that goes is gone, and they are told. Nothing else of the world changes,
/// and without the log nothing does.
pub proof fn law_components_come_and_go(s: State, wid: Seq<char>, f: Doc)
    requires
        s.workers.dom().finite(),
        s.entities.contains_key(named_entity(f)),
    ensures
        ({
            let k = named_entity(f);
            let c = named_comp(f);
            let e = s.entities[k];
            let v = match f.get("value"@) {
                Some(v) => v,
                None => Doc::Null,
            };
            let t = s.component_added(wid, f, true);
            let u = s.component_removed(wid, f, true);
            let come = Doc::Obj(
                map![
                    "op"@ => Doc::Str("AddComponent"@),
                    "entity"@ => Doc::Str(k),
                    "comp"@ => Doc::Str(c),
                    "value"@ => v],
            );
            let gone = Doc::Obj(
                map![
                    "op"@ => Doc::Str("RemoveComponent"@),
                    "entity"@ => Doc::Str(k),
                    "comp"@ => Doc::Str(c)],
            );
            &&& t.entities.dom() == s.entities.dom()
            &&& forall|x: Seq<char>| x != k ==> #[trigger] t.entities[x] == s.entities[x]
            &&& t.entities[k] == (Ent {
                components: e.components.insert(c, v),
                version: succ(e.version),
                authority: t.entities[k].authority,
                ..e
            })
            &&& t.entities[k].authority.contains_key(c)
            &&& forall|w: Seq<char>| #[trigger]
                was_sent(s, t, w, come) == (s.workers.contains_key(w) && s.workers[w].view.contains(k))
            &&& u.entities.dom() == s.entities.dom()
            &&& forall|x: Seq<char>| x != k ==> #[trigger] u.entities[x] == s.entities[x]
            &&& u.entities[k] == (Ent {
                components: e.components.remove(c),
                version: succ(e.version),
                ..e
            })
            &&& forall|w: Seq<char>| #[trigger]
                was_sent(s, u, w, gone) == (s.workers.contains_key(w) && s.workers[w].view.contains(k))
            &&& s.component_added(wid, f, false).entities == s.entities
            &&& s.component_removed(wid, f, false).entities == s.entities
        }),
{
    let k = named_entity(f);
    let c = named_comp(f);
    let e = s.entities[k];
    let v = match f.get("value"@) {
        Some(v) => v,
        None => Doc::Null,
    };
    let come = Doc::Obj(
        map![
            "op"@ => Doc::Str("AddComponent"@),
            "entity"@ => Doc::Str(k),
            "comp"@ => Doc::Str(c),
            "value"@ => v],
    );
    let gone = crate::components::removed_msg(k, c);
    let a = s.with_entity(
        k,
        Ent {
            version: succ(e.version),
            ..(Ent { components: e.components.insert(c, v), ..e }).ensured(c)
        },
    );
    law_viewers_are_told(a, k, come);
    let t = s.component_added(wid, f, true);
    assert(t == a.viewers_told(k, come));
    assert(t.entities.dom() =~= s.entities.dom());
    assert forall|w: Seq<char>| #[trigger] was_sent(s, t, w, come) == was_sent(a, t, w, come) by {}
    let b = s.with_entity(
        k,
        Ent { components: e.components.remove(c), version: succ(e.version), ..e },
    );
    law_viewers_are_told(b, k, gone);
    let u = s.component_removed(wid, f, true);
    assert(u == b.viewers_told(k, gone));
    assert(u.entities.dom() =~= s.entities.dom());
    assert forall|w: Seq<char>| #[trigger] was_sent(s, u, w, gone) == was_sent(b, u, w, gone) by {}
}

/// A component changes hands where an administrator asks for it and knows its epoch, and not
/// otherwise: it is the named owner's then, under the next epoch, which fences the owner
/// before; that one's record of it is gone, and the new one has the new epoch.
pub proof fn law_only_administrators_change_owners(s: State, wid: Seq<char>, f: Doc)
    ensures
        s.changes_authority(wid, f) ==> s.has_attr(wid, "kernel_admin"@) && s.entities.contains_key(
            named_entity(f),
        ),
        s.has_attr(wid, "kernel_admin"@) && s.entities.contains_key(named_entity(f)) ==> (
        s.changes_authority(wid, f) <==> (value_epoch(f) is None || value_epoch(f)->0
            == s.entities[named_entity(f)].recorded(named_comp(f)).epoch)),
        s.changes_authority(wid, f) ==> {
            let k = named_entity(f);
            let comp = named_comp(f);
            let c = s.change_of(f);
            let t = s.change_finished(wid, f, c, true);
            let a = s.entities[k].recorded(comp);
            let owner = match f.get_str("owner"@) {
                Some(o) => if o.len() > 0 {
                    Some(o)
                } else {
                    None
                },
                None => None,
            };
            let old = s.entities[k].owner(comp);
            &&& t.entities.contains_key(k)
            &&& t.entities[k].authority.contains_key(comp)
            &&& t.entities[k].authority[comp].owner == owner
            &&& t.entities[k].authority[comp].epoch == succ(a.epoch)
            &&& t.entities[k].body() == (crate::world::Body {
                version: succ(s.entities[k].version),
                ..s.entities[k].body()
            })
            &&& forall|x: Seq<char>| x != k ==> #[trigger] t.entities[x] == s.entities[x]
            &&& owner is Some && s.workers.contains_key(owner->0)
                ==> t.workers[owner->0].authority_epochs.contains_key(component_key(k, comp))
                && t.workers[owner->0].authority_epochs[component_key(k, comp)] == succ(a.epoch)
            &&& old is Some && old != owner && s.workers.contains_key(old->0)
                ==> !t.workers[old->0].authority_epochs.contains_key(component_key(k, comp))
            &&& s.change_finished(wid, f, c, false).entities == s.entities
        },
{
    if s.changes_authority(wid, f) {
        lemma_changed_hands(s, wid, f, s.change_of(f));
    }
}

proof fn lemma_changed_hands(s: State, wid: Seq<char>, f: Doc, c: Change)
    requires
        s.entities.contains_key(c.eid),
    ensures
        ({
            let t = s.change_finished(wid, f, c, true);
            let key = component_key(c.eid, c.comp);
            &&& t.entities.contains_key(c.eid)
            &&& t.entities[c.eid].authority.contains_key(c.comp)
            &&& t.entities[c.eid].authority[c.comp].owner == c.owner
            &&& t.entities[c.eid].authority[c.comp].epoch == c.epoch
            &&& t.entities[c.eid].body() == (crate::world::Body {
                version: c.version,
                ..s.entities[c.eid].body()
            })
            &&& forall|x: Seq<char>| x != c.eid ==> #[trigger] t.entities[x] == s.entities[x]
            &&& c.owner is Some && s.workers.contains_key(c.owner->0)
                ==> t.workers[c.owner->0].authority_epochs.contains_key(key)
                && t.workers[c.owner->0].authority_epochs[key] == c.epoch
            &&& c.old_owner is Some && c.old_owner != c.owner && s.workers.contains_key(
                c.old_owner->0,
            ) ==> !t.workers[c.old_owner->0].authority_epochs.contains_key(key)
        }),
{
    let key = component_key(c.eid, c.comp);
    let a = s.with_entity(c.eid, reassigned(s.entities[c.eid], c));
    let b = if c.old_owner is Some && c.old_owner != c.owner && a.workers.contains_key(
        c.old_owner->0,
    ) {
        a.revoked(c.old_owner->0, c.eid, c.comp)
    } else {
        a
    };
    assert(a.entities[c.eid].authority[c.comp] == (Auth {
        owner: c.owner,
        epoch: c.epoch,
        mode: c.mode,
    }));
    assert(b.entities.contains_key(c.eid));
    assert(b.entities[c.eid].authority.contains_key(c.comp));
    assert(b.entities[c.eid].authority[c.comp] == (Auth {
        owner: c.owner,
        epoch: c.epoch,
        mode: c.mode,
    }));
    assert(b.entities[c.eid].body() == (crate::world::Body {
        version: c.version,
        ..s.entities[c.eid].body()
    }));
    assert forall|x: Seq<char>| x != c.eid implies #[trigger] b.entities[x] == s.entities[x] by {}
    assert(b.workers.dom() =~= s.workers.dom());
    if c.old_owner is Some && c.old_owner != c.owner && s.workers.contains_key(c.old_owner->0) {
        assert(!b.workers[c.old_owner->0].authority_epochs.contains_key(key));
    }
    let d = if c.owner is Some && b.workers.contains_key(c.owner->0) {
        b.granted(c.owner->0, c.eid, c.comp)
    } else {
        b
    };
    assert(d.entities[c.eid].authority[c.comp].owner == c.owner);
    assert(d.entities[c.eid].authority[c.comp].epoch == c.epoch);
    let t = s.change_finished(wid, f, c, true);
    assert(t.entities == d.entities && t.workers == d.workers);
}

/// What a new entity is: where and how it is asked for, with the components that are asked
/// for, in the region that its place belongs to; and nobody gets what is kept back but an
/// administrator. One that is here, was deleted, or is on its way is not made again, and a
/// broker that is drained makes none.
pub proof fn law_who_makes_entities(s: State, wid: Seq<char>, f: Doc, cell: Seq<char>)
    ensures
        ({
            let comps = ev_components(f);
            let e = asked_entity(s, f, cell);
            &&& s.creates(wid, f) <==> {
                &&& f.get_str("entity"@) is Some
                &&& !s.draining
                &&& !s.deleted_entities.contains(f.get_str("entity"@)->0)
                &&& !s.entities.contains_key(f.get_str("entity"@)->0)
                &&& !s.pending_mesh.contains_key(f.get_str("entity"@)->0)
                &&& s.has_attr(wid, "kernel_admin"@) || forall|c: Seq<char>| #[trigger]
                    comps.contains_key(c) ==> !is_kept_back(c)
            }
            &&& e.version == 1
            &&& forall|c: Seq<char>| #[trigger]
                e.components.contains_key(c) == (comps.contains_key(c) && c != "pos"@ && c != "vel"@)
            &&& forall|c: Seq<char>| #[trigger]
                e.components.contains_key(c) ==> e.components[c] == comps[c]
            &&& forall|x: Doc, y: Doc|
                comps.contains_key("pos"@) && comps["pos"@] == Doc::Arr(seq![x, y]) && (
                #[trigger] x.as_float()) is Some && (#[trigger] y.as_float()) is Some ==> e.pos
                    == (Vec2 { x: x.as_float(), y: y.as_float() })
            &&& forall|x: Doc, y: Doc|
                comps.contains_key("vel"@) && comps["vel"@] == Doc::Arr(seq![x, y]) && (
                #[trigger] x.as_float()) is Some && (#[trigger] y.as_float()) is Some ==> e.vel
                    == (Vec2 { x: x.as_float(), y: y.as_float() })
            &&& forall|x: Doc, y: Doc, z: Doc|
                comps.contains_key("pos"@) && comps["pos"@] == Doc::Arr(seq![x, y, z]) && (
                #[trigger] x.as_float()) is Some && (#[trigger] y.as_float()) is Some && (
                #[trigger] z.as_float()) is Some ==> e.pos == (Vec2 {
                    x: x.as_float(),
                    y: z.as_float(),
                })
            &&& !comps.contains_key("pos"@) ==> e.pos == (Vec2 { x: Some(0), y: Some(0) })
            &&& s.grid2d is Some ==> e.region == cell
            &&& s.grid2d is None ==> e.region == crate::partition::spawned_region(
                e.pos.x,
                f.get_str("region"@),
                s.boundaries,
                s.splits,
            )
        }),
{
    let comps = ev_components(f);
    reveal_strlit("pos");
    reveal_strlit("vel");
    reveal_strlit("kernel.");
    reveal_strlit("ownership.");
    reveal_strlit("kernel");
    reveal_strlit("ownership");
    reveal_strlit("zone.law");
    reveal_strlit("threshold.tx");
    reveal_strlit("authority.mode");
    assert("pos"@.len() == 3 && "vel"@.len() == 3 && "kernel."@.len() == 7 && "ownership."@.len()
        == 10 && "kernel"@.len() == 6 && "ownership"@.len() == 9 && "zone.law"@.len() == 8
        && "threshold.tx"@.len() == 12 && "authority.mode"@.len() == 14);
    assert(!is_kept_back("pos"@) && !is_kept_back("vel"@));
    assert(crate::lifecycle::asks_reserved(asked_components(f)) == !(forall|c: Seq<char>| #[trigger]
        comps.contains_key(c) ==> !is_kept_back(c))) by {
        if crate::lifecycle::asks_reserved(asked_components(f)) {
            let c = choose|c: Seq<char>| #[trigger]
                asked_components(f).contains_key(c) && crate::entity::platform_reserved(c);
            lemma_prefixes(c);
            assert(comps.contains_key(c));
        } else {
            assert forall|c: Seq<char>| #[trigger] comps.contains_key(c) implies !is_kept_back(c) by {
                lemma_prefixes(c);
                if c != "pos"@ && c != "vel"@ {
                    assert(asked_components(f).contains_key(c));
                }
            }
        }
    }
    assert forall|x: Doc, y: Doc|
        (#[trigger] x.as_float()) is Some && (#[trigger] y.as_float()) is Some implies planar(
        crate::lifecycle::floats_in(seq![x, y]),
    ) == (Vec2 { x: x.as_float(), y: y.as_float() }) by {
        lemma_floats2(x, y);
    }
    assert forall|x: Doc, y: Doc, z: Doc|
        (#[trigger] x.as_float()) is Some && (#[trigger] y.as_float()) is Some && (
        #[trigger] z.as_float()) is Some implies planar(
        crate::lifecycle::floats_in(seq![x, y, z]),
    ) == (Vec2 { x: x.as_float(), y: z.as_float() }) by {
        lemma_floats2(x, y);
        let q = seq![x, y, z];
        assert(q.drop_last() =~= seq![x, y]);
    }
}

proof fn lemma_floats2(x: Doc, y: Doc)
    requires
        x.as_float() is Some,
        y.as_float() is Some,
    ensures
        crate::lifecycle::floats_in(seq![x, y]) == seq![x.as_float()->0, y.as_float()->0],
{
    let q = seq![x, y];
    assert(q.drop_last() =~= seq![x]);
    assert(seq![x].drop_last() =~= Seq::empty());
    assert(crate::lifecycle::floats_in(seq![x].drop_last()) =~= Seq::empty());
    assert(crate::lifecycle::floats_in(seq![x]) =~= seq![x.as_float()->0]);
    assert(crate::lifecycle::floats_in(q) =~= seq![x.as_float()->0, y.as_float()->0]);
}

/// An entity is deleted by the holder of its region or an administrator, under the current
/// epoch, once; and by nobody else.
pub proof fn law_who_ends_entities(s: State, wid: Seq<char>, f: Doc, eid: Seq<char>)
    requires
        f.get_str("entity"@) == Some(eid),
    ensures
        s.deletes(wid, f) <==> {
            &&& s.entities.contains_key(eid)
            &&& !s.deleted_entities.contains(eid)
            &&& at(s.region_worker, s.entities[eid].region) == Some(wid) || s.has_attr(
                wid,
                "kernel_admin"@,
            )
            &&& is_current(s, wid, eid, "delete"@, value_epoch(f))
        },
{
}

proof fn lemma_without(hs: Seq<Hand>, eid: Seq<char>)
    ensures
        without(hs, eid) == hs.filter(|h: Hand| h.eid != eid),
    decreases hs.len(),
{
    reveal(Seq::filter);
    if hs.len() > 0 {
        lemma_without(hs.drop_last(), eid);
    }
}

/// A deletion is whole: the entity is gone, is on record as deleted, has no transfer queued
/// and no warning out, is in nobody's view, and those who had it there are told. Everything
/// else stays.
pub proof fn law_deletion_is_whole(s: State, eid: Seq<char>)
    requires
        s.workers.dom().finite(),
        s.entities.contains_key(eid),
    ensures
        ({
            let t = s.buried(eid);
            &&& t.entities == s.entities.remove(eid)
            &&& t.deleted_entities == s.deleted_entities.insert(eid)
            &&& t.pending_handoffs == s.pending_handoffs.filter(|h: Hand| h.eid != eid)
            &&& t.pending_handoff_intent == s.pending_handoff_intent.remove(eid)
            &&& t.workers.dom() == s.workers.dom()
            &&& forall|w: Seq<char>| #[trigger]
                s.workers.contains_key(w) ==> t.workers[w].view == s.workers[w].view.remove(eid)
            &&& forall|w: Seq<char>| #[trigger]
                crate::attention::was_told(s, t, w, "RemoveEntity"@, eid) == (
                s.workers.contains_key(w) && s.workers[w].view.contains(eid))
        }),
{
    lemma_without(s.pending_handoffs, eid);
    let a = State {
        deleted_entities: s.deleted_entities.insert(eid),
        pending_handoffs: without(s.pending_handoffs, eid),
        pending_handoff_intent: s.pending_handoff_intent.remove(eid),
        entities: s.entities.remove(eid),
        ..s
    };
    law_gone_from_all_views(a, eid);
    let t = s.buried(eid);
    crate::adopt::lemma_hidden_world(a, crate::order::sorted(a.workers.dom()), eid);
    assert forall|w: Seq<char>| #[trigger] crate::attention::was_told(s, t, w, "RemoveEntity"@, eid)
        == crate::attention::was_told(a, t, w, "RemoveEntity"@, eid) by {}
    lemma_hidden_keeps(a, crate::order::sorted(a.workers.dom()), eid);
}

pub proof fn lemma_hidden_keeps(s: State, names: Seq<Seq<char>>, eid: Seq<char>)
    ensures
        ({
            let t = s.hidden_from(names, eid);
            t == (State { outbox: t.outbox, workers: t.workers, ..s })
        }),
    decreases names.len(),
{
    if names.len() > 0 {
        lemma_hidden_keeps(s, names.drop_last(), eid);
    }
}

/// A command reaches who owns the entity: the owner of its position, or the holder of its
/// region where the position has none, and is then on record; a command without a name of
/// its own, or with one that is taken, or for which nobody is there, fails, and its sender is
/// told.
pub proof fn law_commands_reach_the_owner(s: State, wid: Seq<char>, f: Doc)
    requires
        s.workers.contains_key(wid),
    ensures
        ({
            let t = s.commanded(wid, f);
            let k = named_entity(f);
            let req = request_name(f);
            let e = s.entities[k];
            let owned = e.authority.contains_key("pos"@) && e.authority["pos"@].owner is Some;
            let to = if !s.entities.contains_key(k) {
                None
            } else if owned {
                e.authority["pos"@].owner
            } else {
                at(s.region_worker, e.region)
            };
            let epoch = if owned {
                Some(e.authority["pos"@].epoch)
            } else {
                None
            };
            let goes = req.len() > 0 && !s.pending_commands.contains_key(req) && to is Some
                && s.workers.contains_key(to->0);
            &&& goes ==> {
                &&& t.pending_commands == s.pending_commands.insert(
                    req,
                    Routed {
                        caller: wid,
                        entity: k,
                        owner: to->0,
                        authority_comp: "pos"@,
                        authority_epoch: epoch,
                    },
                )
                &&& t.outbox == s.outbox.push(
                    Sent::Peer { wid: to->0, msg: command_msg(wid, f, epoch) },
                )
            }
            &&& !goes ==> t.pending_commands == s.pending_commands && t.outbox.len()
                == s.outbox.len() + 1 && (t.outbox.last() matches Sent::Peer { wid: w, msg } && w
                == wid && msg.get_str("op"@) == Some("CommandResponse"@) && msg.get("success"@)
                == Some(Doc::Bool(false)))
            &&& t.entities == s.entities
        }),
{
    reveal_strlit("op");
    reveal_strlit("success");
    reveal_strlit("reason");
    reveal_strlit("request_id");
    assert("op"@.len() == 2 && "success"@.len() == 7 && "reason"@.len() == 6 && "request_id"@.len()
        == 10);
}

/// An answer reaches the caller: from the peer that the command went to, about its entity,
/// once; where that peer has lost the entity meanwhile the caller is told so instead. Nobody
/// else's answer does anything.
pub proof fn law_answers_reach_the_caller(s: State, wid: Seq<char>, f: Doc)
    ensures
        ({
            let t = s.responded(wid, f);
            let req = request_name(f);
            let p = s.pending_commands[req];
            let about = match f.get_str("entity"@) {
                Some(k) => Some(k),
                None => match f.get("payload"@) {
                    Some(d) => d.get_str("entity"@),
                    None => None,
                },
            };
            let counts = s.pending_commands.contains_key(req) && p.owner == wid && about == Some(
                p.entity,
            );
            let e = s.entities[p.entity];
            let held = s.entities.contains_key(p.entity) && match p.authority_epoch {
                Some(n) => e.authority.contains_key(p.authority_comp)
                    && e.authority[p.authority_comp].owner == Some(wid)
                    && e.authority[p.authority_comp].epoch == n,
                None => at(s.region_worker, e.region) == Some(wid),
            };
            &&& !counts ==> t == s
            &&& counts ==> t.pending_commands == s.pending_commands.remove(req)
            &&& counts && s.workers.contains_key(p.caller) ==> t.outbox == s.outbox.push(
                Sent::Peer {
                    wid: p.caller,
                    msg: if held {
                        response_msg(f, p)
                    } else {
                        command_failed(req, "stale command authority"@)
                    },
                },
            )
            &&& t.entities == s.entities
        }),
{
}

/// What the caller and the owner get of a command is what the other sent.
pub proof fn law_commands_are_handed_on(f: Doc, caller: Seq<char>, epoch: Option<u64>, p: Routed)
    ensures
        ({
            let c = command_msg(caller, f, epoch);
            let r = response_msg(f, p);
            let same = |m: Doc, k: Seq<char>| match f.get(k) {
                Some(d) => m.get(k) == Some(d),
                None => m.get(k) == Some(Doc::Null),
            };
            &&& c.get_str("op"@) == Some("CommandRequest"@)
            &&& c.get_str("entity"@) == Some(named_entity(f))
            &&& c.get_str("request_id"@) == Some(request_name(f))
            &&& c.get_str("caller"@) == Some(caller)
            &&& same(c, "command"@) && same(c, "payload"@)
            &&& r.get_str("op"@) == Some("CommandResponse"@)
            &&& r.get_str("request_id"@) == Some(request_name(f))
            &&& r.get_str("entity"@) == Some(p.entity)
            &&& same(r, "payload"@) && same(r, "reason"@)
            &&& f.get("success"@) is None ==> r.get("success"@) == Some(Doc::Bool(true))
            &&& f.get("success"@) is Some ==> r.get("success"@) == f.get("success"@)
        }),
{
    reveal_strlit("op");
    reveal_strlit("entity");
    reveal_strlit("command");
    reveal_strlit("payload");
    reveal_strlit("request_id");
    reveal_strlit("caller");
    reveal_strlit("authority_comp");
    reveal_strlit("authority_epoch");
    reveal_strlit("routed_owner");
    reveal_strlit("success");
    reveal_strlit("reason");
    assert("op"@.len() == 2 && "entity"@.len() == 6 && "command"@.len() == 7 && "payload"@.len() == 7
        && "request_id"@.len() == 10 && "caller"@.len() == 6 && "authority_comp"@.len() == 14
        && "authority_epoch"@.len() == 15 && "routed_owner"@.len() == 12 && "success"@.len() == 7
        && "reason"@.len() == 6);
    assert("entity"@[0] == 'e' && "caller"@[0] == 'c' && "reason"@[0] == 'r' && "command"@[0] == 'c'
        && "payload"@[0] == 'p' && "success"@[0] == 's');
}

}

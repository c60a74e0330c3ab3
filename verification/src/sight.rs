//! What a peer sees: which entities it is shown, and when they leave its sight.
//!
//! Whether a position lies in the circle that a peer asked to see is a matter of
//! floating-point distances, and comes in from outside as a plain answer.

use vstd::prelude::*;
use crate::claims::PeerRole;
use crate::doc::{Doc, Json};
use crate::entity::{acl_read_ok, add_keys, may_read, Ent, Entity};
use crate::float::{bits_lt, float_lt, Vec2};
use crate::grants::{grant_all, grant_region_physics_island_authority};
use crate::order::{sorted, sorted_texts, strictly_sorted};
use crate::state::{emit, Peer, ServerState, State, Worker};
use crate::strmap::{texts, Dup, StrMap, StrSet};
use crate::text::str_eq;

verus! {

broadcast use {crate::doc::group_json, crate::strmap::group_map};

/// The line that the region `W` sees up to: 1.5.
pub const WEST_SIGHT: u64 = 0x3FF8_0000_0000_0000;

/// The line that every other region sees from: -1.5.
pub const EAST_SIGHT: u64 = 0xBFF8_0000_0000_0000;

impl Peer {
    /// Whether the peer may look at everything.
    pub open spec fn sees_all(self) -> bool {
        self.role == PeerRole::Observer && (self.attributes.contains("observer"@)
            || self.attributes.contains("debug"@) || self.attributes.contains("inspector"@))
    }

    /// Whether a peer that asked for no area is interested in a position: observers
    /// with the claim in all, workers in their side, clients and links in none.
    pub open spec fn default_interest(self, pos: Vec2) -> bool {
        match self.role {
            PeerRole::Observer => self.sees_all(),
            PeerRole::Mesh => false,
            PeerRole::Client => false,
            PeerRole::Worker => if self.region == "W"@ {
                pos.x is Some && float_lt(pos.x->0, WEST_SIGHT)
            } else {
                pos.x is Some && !float_lt(pos.x->0, EAST_SIGHT)
            },
        }
    }

    /// Whether the peer is interested in a position; `near` is whether it lies in
    /// the area that the peer asked for.
    pub open spec fn interested(self, pos: Vec2, near: bool) -> bool {
        if self.aoi_center is Some {
            near
        } else {
            self.default_interest(pos)
        }
    }

    /// Whether the peer sees an entity: it is interested, and may read it.
    pub open spec fn sees(self, e: Ent, near: bool) -> bool {
        self.interested(e.pos, near) && may_read(self.attributes, e.components)
    }

    /// Whether the peer gets an entity in full detail; `full` is whether it lies in
    /// the inner area that the peer asked for.
    pub open spec fn full_detail(self, full: bool) -> bool {
        if self.aoi_center is Some && self.full_radius is Some {
            full
        } else {
            true
        }
    }

    /// Whether the peer is always to be asked: it has an area, or an interest that
    /// holds at the origin.
    pub open spec fn holds_global_interest(self) -> bool {
        self.aoi_center is Some || self.default_interest(Vec2::zero())
    }
}

impl Worker {
    /// Whether the peer may look at everything.
    pub fn has_global_observer_claim(&self) -> (r: bool)
        ensures
            r == self@.sees_all(),
    {
        self.role == PeerRole::Observer && (self.attributes.contains("observer")
            || self.attributes.contains("debug") || self.attributes.contains("inspector"))
    }

    /// Whether a peer that asked for no area is interested in a position.
    pub fn default_region_interest(&self, pos: &crate::float::Point) -> (r: bool)
        ensures
            r == self@.default_interest(pos@),
    {
        match self.role {
            PeerRole::Observer => self.has_global_observer_claim(),
            PeerRole::Mesh => false,
            PeerRole::Client => false,
            PeerRole::Worker => match &pos.x {
                Some(x) => if str_eq(self.region.as_str(), "W") {
                    bits_lt(x.bits(), WEST_SIGHT)
                } else {
                    !bits_lt(x.bits(), EAST_SIGHT)
                },
                None => false,
            },
        }
    }

    /// Whether the peer is always to be asked.
    pub fn should_be_global_interest_holder(&self) -> (r: bool)
        ensures
            r == self@.holds_global_interest(),
    {
        let origin = crate::float::arr2(None);
        self.aoi_center.is_some() || self.default_region_interest(&origin)
    }

    /// Whether the peer is interested in a position.
    pub fn interested_in(&self, pos: &crate::float::Point, near: bool) -> (r: bool)
        ensures
            r == self@.interested(pos@, near),
    {
        if self.aoi_center.is_some() {
            near
        } else {
            self.default_region_interest(pos)
        }
    }

    /// Whether the peer gets an entity in full detail.
    pub fn full_fidelity_for(&self, full: bool) -> (r: bool)
        ensures
            r == self@.full_detail(full),
    {
        if self.aoi_center.is_some() && self.fidelity_full_radius.is_some() {
            full
        } else {
            true
        }
    }
}

/// Whether a peer sees an entity.
pub fn visible(w: &Worker, e: &Entity, near: bool) -> (r: bool)
    ensures
        r == w@.sees(e@, near),
{
    w.interested_in(&e.pos, near) && acl_read_ok(&w.attributes, e)
}

/// The marks around what a peer is shown as one.
pub open spec fn critical_section(eid: Seq<char>, phase: Seq<char>) -> Doc {
    Doc::Obj(
        map![
            "op"@ => Doc::Str("CriticalSection"@),
            "phase"@ => Doc::Str(phase),
            "entity"@ => Doc::Str(eid)],
    )
}

pub fn critical_section_json(eid: &str, phase: &str) -> (r: Json)
    ensures
        r@ == critical_section(eid@, phase@),
{
    StrMap::new().with("op", Json::str("CriticalSection")).with("phase", Json::str(phase)).with(
        "entity",
        Json::str(eid),
    ).done()
}

/// A message that speaks of an entity and no more.
pub open spec fn entity_msg(op: Seq<char>, eid: Seq<char>) -> Doc {
    Doc::Obj(map!["op"@ => Doc::Str(op), "entity"@ => Doc::Str(eid)])
}

pub fn entity_msg_json(op: &str, eid: &str) -> (r: Json)
    ensures
        r@ == entity_msg(op@, eid@),
{
    StrMap::new().with("op", Json::str(op)).with("entity", Json::str(eid)).done()
}

/// The value of a component, as a peer is shown it.
pub open spec fn component_update(eid: Seq<char>, comp: Seq<char>, value: Doc) -> Doc {
    Doc::Obj(
        map![
            "op"@ => Doc::Str("ComponentUpdate"@),
            "entity"@ => Doc::Str(eid),
            "comp"@ => Doc::Str(comp),
            "value"@ => value],
    )
}

pub fn component_update_json(eid: &str, comp: &str, value: Json) -> (r: Json)
    ensures
        r@ == component_update(eid@, comp@, value@),
{
    StrMap::new().with("op", Json::str("ComponentUpdate")).with("entity", Json::str(eid)).with(
        "comp",
        Json::str(comp),
    ).with("value", value).done()
}

/// The components of a list whose entry in a table names one of the attributes.
pub open spec fn client_comps(
    table: Map<Seq<char>, Doc>,
    attrs: Set<Seq<char>>,
    names: Seq<Seq<char>>,
) -> Seq<Seq<char>>
    decreases names.len(),
{
    if names.len() == 0 {
        Seq::empty()
    } else {
        let before = client_comps(table, attrs, names.drop_last());
        match table[names.last()].as_str() {
            Some(a) => if attrs.contains(a) {
                before.push(names.last())
            } else {
                before
            },
            None => before,
        }
    }
}

/// The table of an entity that says which attribute lets a client write what.
pub open spec fn client_table(e: Ent) -> Map<Seq<char>, Doc> {
    if e.components.contains_key("acl"@) {
        match e.components["acl"@].get("client_write"@) {
            Some(Doc::Obj(m)) => m,
            _ => Map::empty(),
        }
    } else {
        Map::empty()
    }
}

impl State {
    /// The components of an entity that a peer may write as a client.
    pub open spec fn client_grants(self, wid: Seq<char>, eid: Seq<char>) -> Seq<Seq<char>> {
        if self.entities.contains_key(eid) && self.workers.contains_key(wid) {
            let t = client_table(self.entities[eid]);
            client_comps(t, self.workers[wid].attributes, sorted(t.dom()))
        } else {
            Seq::empty()
        }
    }

    /// The state after a peer was granted what it may write as a client.
    pub open spec fn client_granted(self, wid: Seq<char>, eid: Seq<char>) -> State {
        self.all_granted(wid, eid, self.client_grants(wid, eid))
    }

    /// The state after a peer was sent some components.
    pub open spec fn components_sent(
        self,
        wid: Seq<char>,
        eid: Seq<char>,
        comps: Map<Seq<char>, Doc>,
        names: Seq<Seq<char>>,
    ) -> State
        decreases names.len(),
    {
        if names.len() == 0 {
            self
        } else {
            self.components_sent(wid, eid, comps, names.drop_last()).emitted(
                wid,
                component_update(eid, names.last(), comps[names.last()]),
            )
        }
    }

    /// The state with an entity in a peer's view.
    pub open spec fn view_added(self, wid: Seq<char>, eid: Seq<char>) -> State {
        if self.workers.contains_key(wid) {
            let w = self.workers[wid];
            State {
                workers: self.workers.insert(wid, Peer { view: w.view.insert(eid), ..w }),
                ..self
            }
        } else {
            self
        }
    }

    /// The state with an entity out of a peer's view.
    pub open spec fn view_dropped(self, wid: Seq<char>, eid: Seq<char>) -> State {
        if self.workers.contains_key(wid) {
            let w = self.workers[wid];
            State {
                workers: self.workers.insert(wid, Peer { view: w.view.remove(eid), ..w }),
                ..self
            }
        } else {
            self
        }
    }

    /// The state after a peer was shown an entity whole.
    pub open spec fn shown(self, wid: Seq<char>, eid: Seq<char>) -> State {
        if self.entities.contains_key(eid) {
            let e = self.entities[eid];
            self.emitted(wid, critical_section(eid, "begin"@)).emitted(
                wid,
                entity_msg("AddEntity"@, eid),
            ).emitted(wid, component_update(eid, "pos"@, e.pos.doc())).emitted(
                wid,
                component_update(eid, "vel"@, e.vel.doc()),
            ).components_sent(wid, eid, e.components, sorted(e.components.dom())).emitted(
                wid,
                critical_section(eid, "end"@),
            ).view_added(wid, eid).client_granted(wid, eid)
        } else {
            self
        }
    }

    /// The state after an entity left a peer's sight.
    pub open spec fn hidden(self, wid: Seq<char>, eid: Seq<char>) -> State {
        self.emitted(wid, entity_msg("RemoveEntity"@, eid)).view_dropped(wid, eid)
    }

    /// The state after an entity left the sight of those of some peers that had it.
    pub open spec fn hidden_from(self, names: Seq<Seq<char>>, eid: Seq<char>) -> State
        decreases names.len(),
    {
        if names.len() == 0 {
            self
        } else {
            let s = self.hidden_from(names.drop_last(), eid);
            let wid = names.last();
            if s.workers.contains_key(wid) && s.workers[wid].view.contains(eid) {
                s.hidden(wid, eid)
            } else {
                s
            }
        }
    }

    /// The state after an entity left everybody's sight.
    pub open spec fn hidden_from_all(self, eid: Seq<char>) -> State {
        self.hidden_from(sorted(self.workers.dom()), eid)
    }

    /// The state after a peer was shown those of some entities that it sees, with
    /// what comes with its region.
    pub open spec fn checked_out(
        self,
        wid: Seq<char>,
        names: Seq<Seq<char>>,
        near: Set<Seq<char>>,
    ) -> State
        decreases names.len(),
    {
        if names.len() == 0 {
            self
        } else {
            let s = self.checked_out(wid, names.drop_last(), near);
            let eid = names.last();
            if s.workers.contains_key(wid) && s.entities.contains_key(eid) && s.workers[wid].sees(
                s.entities[eid],
                near.contains(eid),
            ) {
                s.shown(wid, eid).regionally_granted(wid, eid)
            } else {
                s
            }
        }
    }

    /// The state after those of some peers that see an entity were shown it, with
    /// what comes with their region.
    pub open spec fn announced(
        self,
        names: Seq<Seq<char>>,
        eid: Seq<char>,
        near: Set<Seq<char>>,
    ) -> State
        decreases names.len(),
    {
        if names.len() == 0 {
            self
        } else {
            let s = self.announced(names.drop_last(), eid, near);
            let wid = names.last();
            if s.workers.contains_key(wid) && s.entities.contains_key(eid) && s.workers[wid].sees(
                s.entities[eid],
                near.contains(wid),
            ) {
                s.shown(wid, eid).regionally_granted(wid, eid)
            } else {
                s
            }
        }
    }
}

/// Grants a peer what it may write as a client.
pub fn grant_client_authority(s: &mut ServerState, wid: &str, eid: &str)
    ensures
        final(s)@ == old(s)@.client_granted(wid@, eid@),
{
    let comps = client_grant_names(s, wid, eid);
    grant_all(s, wid, eid, &comps);
}

fn client_grant_names(s: &ServerState, wid: &str, eid: &str) -> (r: Vec<String>)
    ensures
        texts(r@) == s@.client_grants(wid@, eid@),
{
    let mut out: Vec<String> = Vec::new();
    proof {
        assert(texts(out@) =~= Seq::empty());
    }
    let w = match s.workers.get(wid) {
        Some(w) => w,
        None => return out,
    };
    let e = match s.entities.get(eid) {
        Some(e) => e,
        None => return out,
    };
    let mut names = StrSet::new();
    let table: Option<&StrMap<Json>> = match e.components.get("acl") {
        Some(a) => match a.get("client_write") {
            Some(m) => m.as_object(),
            None => None,
        },
        None => None,
    };
    let t = match table {
        Some(t) => t,
        None => {
            proof {
                crate::order::lemma_sorted(Seq::<Seq<char>>::empty());
                assert(Seq::<Seq<char>>::empty().to_set() =~= client_table(e@).dom());
            }
            return out;
        },
    };
    add_keys(&mut names, t);
    proof {
        assert(names@ =~= t@.dom());
        assert(t@ == client_table(e@));
    }
    let comps = sorted_texts(&names);
    let ghost all = texts(comps@);
    let mut i: usize = 0;
    proof {
        assert(all.take(0) =~= Seq::empty());
    }
    while i < comps.len()
        invariant
            i <= comps.len(),
            all == texts(comps@),
            all.to_set() == t@.dom(),
            texts(out@) == client_comps(t@, w@.attributes, all.take(i as int)),
        decreases comps.len() - i,
    {
        let comp = comps[i].as_str();
        proof {
            assert(all.take(i + 1).drop_last() =~= all.take(i as int));
            assert(all.take(i + 1).last() == comp@);
            assert(all[i as int] == comp@);
            assert(all.to_set().contains(comp@));
        }
        let ghost before = texts(out@);
        if let Some(v) = t.get(comp) {
            if let Some(a) = v.as_str() {
                if w.attributes.contains(a) {
                    out.push(comps[i].clone());
                    proof {
                        assert(texts(out@) =~= before.push(comp@));
                    }
                }
            }
        }
        i = i + 1;
    }
    proof {
        assert(all.take(i as int) =~= all);
    }
    out
}

/// The keys of a map in order.
pub fn sorted_keys<V: View>(m: &StrMap<V>) -> (r: Vec<String>)
    ensures
        texts(r@) == sorted(m@.dom()),
        strictly_sorted(texts(r@)),
        texts(r@).to_set() == m@.dom(),
{
    m.keys()
}

/// Sends a peer the components of an entity, in the order of their names.
pub fn send_components(s: &mut ServerState, wid: &str, eid: &str, comps: &StrMap<Json>)
    ensures
        final(s)@ == old(s)@.components_sent(wid@, eid@, comps@, sorted(comps@.dom())),
{
    let ghost before = s@;
    let names = sorted_keys(comps);
    let ghost all = texts(names@);
    let mut i: usize = 0;
    proof {
        assert(all.take(0) =~= Seq::empty());
    }
    while i < names.len()
        invariant
            i <= names.len(),
            all == texts(names@),
            all.to_set() == comps@.dom(),
            s@ == before.components_sent(wid@, eid@, comps@, all.take(i as int)),
        decreases names.len() - i,
    {
        let k = names[i].as_str();
        proof {
            assert(all.take(i + 1).drop_last() =~= all.take(i as int));
            assert(all.take(i + 1).last() == k@);
            assert(all[i as int] == k@);
            assert(all.to_set().contains(k@));
        }
        if let Some(v) = comps.get(k) {
            emit(s, wid, component_update_json(eid, k, v.dup()));
        }
        i = i + 1;
    }
    proof {
        assert(all.take(i as int) =~= all);
    }
}

/// Puts an entity into a peer's view.
pub fn add_to_view(s: &mut ServerState, wid: &str, eid: &str)
    ensures
        final(s)@ == old(s)@.view_added(wid@, eid@),
{
    if let Some(mut w) = s.workers.remove(wid) {
        w.view.insert(eid);
        s.workers.insert(wid, w);
    }
}

fn drop_from_view(s: &mut ServerState, wid: &str, eid: &str)
    ensures
        final(s)@ == old(s)@.view_dropped(wid@, eid@),
{
    if let Some(mut w) = s.workers.remove(wid) {
        w.view.remove(eid);
        s.workers.insert(wid, w);
    }
}

/// Shows a peer an entity whole.
pub fn send_full(s: &mut ServerState, wid: &str, eid: &str)
    ensures
        final(s)@ == old(s)@.shown(wid@, eid@),
{
    let e = match s.entities.get(eid) {
        Some(e) => e.dup(),
        None => return,
    };
    emit(s, wid, critical_section_json(eid, "begin"));
    emit(s, wid, entity_msg_json("AddEntity", eid));
    emit(s, wid, component_update_json(eid, "pos", e.pos.json()));
    emit(s, wid, component_update_json(eid, "vel", e.vel.json()));
    send_components(s, wid, eid, &e.components);
    emit(s, wid, critical_section_json(eid, "end"));
    add_to_view(s, wid, eid);
    grant_client_authority(s, wid, eid);
}

/// Takes an entity out of a peer's sight.
pub fn take_from_sight(s: &mut ServerState, wid: &str, eid: &str)
    ensures
        final(s)@ == old(s)@.hidden(wid@, eid@),
{
    emit(s, wid, entity_msg_json("RemoveEntity", eid));
    drop_from_view(s, wid, eid);
}

/// Takes an entity out of everybody's sight.
pub fn hide_from_all(s: &mut ServerState, eid: &str)
    ensures
        final(s)@ == old(s)@.hidden_from_all(eid@),
{
    let ghost before = s@;
    let wids = sorted_keys(&s.workers);
    let ghost all = texts(wids@);
    let mut i: usize = 0;
    proof {
        assert(all.take(0) =~= Seq::empty());
    }
    while i < wids.len()
        invariant
            i <= wids.len(),
            all == texts(wids@),
            s@ == before.hidden_from(all.take(i as int), eid@),
        decreases wids.len() - i,
    {
        let wid = wids[i].as_str();
        proof {
            assert(all.take(i + 1).drop_last() =~= all.take(i as int));
            assert(all.take(i + 1).last() == wid@);
        }
        let has: bool = match s.workers.get(wid) {
            Some(w) => w.view.contains(eid),
            None => false,
        };
        if has {
            take_from_sight(s, wid, eid);
        }
        i = i + 1;
    }
    proof {
        assert(all.take(i as int) =~= all);
    }
}

/// Shows a peer every entity that it sees, with what comes with its region.
pub fn checkout_all(s: &mut ServerState, wid: &str, near: &StrSet)
    ensures
        final(s)@ == old(s)@.checked_out(wid@, sorted(old(s)@.entities.dom()), near@),
{
    let ghost before = s@;
    let eids = sorted_keys(&s.entities);
    let ghost all = texts(eids@);
    let mut i: usize = 0;
    proof {
        assert(all.take(0) =~= Seq::empty());
    }
    while i < eids.len()
        invariant
            i <= eids.len(),
            all == texts(eids@),
            s@ == before.checked_out(wid@, all.take(i as int), near@),
        decreases eids.len() - i,
    {
        let eid = eids[i].as_str();
        proof {
            assert(all.take(i + 1).drop_last() =~= all.take(i as int));
            assert(all.take(i + 1).last() == eid@);
        }
        let sees: bool = match s.workers.get(wid) {
            Some(w) => match s.entities.get(eid) {
                Some(e) => visible(w, e, near.contains(eid)),
                None => false,
            },
            None => false,
        };
        if sees {
            send_full(s, wid, eid);
            grant_region_physics_island_authority(s, wid, eid);
        }
        i = i + 1;
    }
    proof {
        assert(all.take(i as int) =~= all);
    }
}

/// Shows an entity to every peer that sees it, with what comes with its region.
pub fn announce(s: &mut ServerState, eid: &str, near: &StrSet)
    ensures
        final(s)@ == old(s)@.announced(sorted(old(s)@.workers.dom()), eid@, near@),
{
    let ghost before = s@;
    let wids = sorted_keys(&s.workers);
    let ghost all = texts(wids@);
    let mut i: usize = 0;
    proof {
        assert(all.take(0) =~= Seq::empty());
    }
    while i < wids.len()
        invariant
            i <= wids.len(),
            all == texts(wids@),
            s@ == before.announced(all.take(i as int), eid@, near@),
        decreases wids.len() - i,
    {
        let wid = wids[i].as_str();
        proof {
            assert(all.take(i + 1).drop_last() =~= all.take(i as int));
            assert(all.take(i + 1).last() == wid@);
        }
        let sees: bool = match s.workers.get(wid) {
            Some(w) => match s.entities.get(eid) {
                Some(e) => visible(w, e, near.contains(wid)),
                None => false,
            },
            None => false,
        };
        if sees {
            send_full(s, wid, eid);
            grant_region_physics_island_authority(s, wid, eid);
        }
        i = i + 1;
    }
    proof {
        assert(all.take(i as int) =~= all);
    }
}

impl State {
    /// The state after those of some peers that have an entity in view were sent a
    /// message.
    pub open spec fn told_viewers(self, names: Seq<Seq<char>>, eid: Seq<char>, msg: Doc) -> State
        decreases names.len(),
    {
        if names.len() == 0 {
            self
        } else {
            let s = self.told_viewers(names.drop_last(), eid, msg);
            let wid = names.last();
            if s.workers.contains_key(wid) && s.workers[wid].view.contains(eid) {
                s.emitted(wid, msg)
            } else {
                s
            }
        }
    }

    /// The state after everybody who has an entity in view was sent a message.
    pub open spec fn viewers_told(self, eid: Seq<char>, msg: Doc) -> State {
        self.told_viewers(sorted(self.workers.dom()), eid, msg)
    }

    /// The state after some peers were sent a message.
    pub open spec fn told_each(self, names: Seq<Seq<char>>, msg: Doc) -> State
        decreases names.len(),
    {
        if names.len() == 0 {
            self
        } else {
            self.told_each(names.drop_last(), msg).emitted(names.last(), msg)
        }
    }
}

/// Sends a message to everybody who has an entity in view.
pub fn tell_viewers(s: &mut ServerState, eid: &str, msg: &Json)
    ensures
        final(s)@ == old(s)@.viewers_told(eid@, msg@),
{
    let ghost before = s@;
    let wids = sorted_keys(&s.workers);
    let ghost all = texts(wids@);
    let mut i: usize = 0;
    proof {
        assert(all.take(0) =~= Seq::empty());
    }
    while i < wids.len()
        invariant
            i <= wids.len(),
            all == texts(wids@),
            s@ == before.told_viewers(all.take(i as int), eid@, msg@),
        decreases wids.len() - i,
    {
        let wid = wids[i].as_str();
        proof {
            assert(all.take(i + 1).drop_last() =~= all.take(i as int));
            assert(all.take(i + 1).last() == wid@);
        }
        let had: bool = match s.workers.get(wid) {
            Some(w) => w.view.contains(eid),
            None => false,
        };
        if had {
            emit(s, wid, msg.dup());
        }
        i = i + 1;
    }
    proof {
        assert(all.take(i as int) =~= all);
    }
}

/// Sends a message to some peers.
pub fn tell_each(s: &mut ServerState, wids: &Vec<String>, msg: &Json)
    ensures
        final(s)@ == old(s)@.told_each(texts(wids@), msg@),
{
    let ghost before = s@;
    let ghost all = texts(wids@);
    let mut i: usize = 0;
    proof {
        assert(all.take(0) =~= Seq::empty());
    }
    while i < wids.len()
        invariant
            i <= wids.len(),
            all == texts(wids@),
            s@ == before.told_each(all.take(i as int), msg@),
        decreases wids.len() - i,
    {
        proof {
            assert(all.take(i + 1).drop_last() =~= all.take(i as int));
            assert(all.take(i + 1).last() == wids@[i as int]@);
        }
        emit(s, wids[i].as_str(), msg.dup());
        i = i + 1;
    }
    proof {
        assert(all.take(i as int) =~= all);
    }
}

}

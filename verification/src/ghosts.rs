//! Mirrors of entities across a border: what neighbours send, and what they are
//! sent.

use vstd::prelude::*;
use crate::adopt::{msg_entity, remove_ghost};
use crate::doc::{Doc, Json};
use crate::entity::{Ent, Entity};
use crate::float::{arr2, point_of};
use crate::json::text_or;
use crate::order::sorted;
use crate::partition::{
    coarse, coarse_region, strip_index_of_name, strip_name, strip_of_name, name_of_strip,
};
use crate::query::ghost_visible;
use crate::recovery::ev_components;
use crate::sight::{
    component_update, component_update_json, critical_section, critical_section_json, entity_msg,
    entity_msg_json, send_components, sorted_keys, take_from_sight, add_to_view,
};
use crate::state::{emit, views, GhostEntity, Mirror, Out, Sent, ServerState, State};
use crate::strmap::{texts, Dup, StrMap, StrSet};
use crate::text::str_eq;

verus! {

broadcast use {crate::doc::group_json, crate::strmap::group_map};

/// How long a mirror lives without being refreshed.
pub const GHOST_TTL_MS: u64 = 1500;

/// The mirror that a neighbour sends.
pub open spec fn mirror_of(f: Doc, now_ms: u64) -> Mirror {
    Mirror {
        pos: point_of(f.get("pos"@)),
        vel: point_of(f.get("vel"@)),
        components: ev_components(f),
        owner_region: text_or(f.get_str("owner_region"@), ""@),
        last_seen_ms: now_ms,
    }
}

impl State {
    /// The state after a peer was sent the components of a mirror.
    pub open spec fn mirror_shown(self, wid: Seq<char>, eid: Seq<char>, g: Mirror) -> State {
        self.emitted(wid, critical_section(eid, "begin"@)).emitted(
            wid,
            entity_msg("AddEntity"@, eid),
        ).emitted(wid, component_update(eid, "ghost"@, Doc::Bool(true))).emitted(
            wid,
            component_update(eid, "owner_region"@, Doc::Str(g.owner_region)),
        ).emitted(wid, component_update(eid, "pos"@, g.pos.doc())).emitted(
            wid,
            component_update(eid, "vel"@, g.vel.doc()),
        ).components_sent(wid, eid, g.components, sorted(g.components.dom())).emitted(
            wid,
            critical_section(eid, "end"@),
        ).view_added(wid, eid)
    }

    /// The state after a mirror reached one peer: shown, taken from sight, or its
    /// movement refreshed. Never with any authority.
    pub open spec fn mirror_told(
        self,
        wid: Seq<char>,
        eid: Seq<char>,
        near: bool,
        first_time: bool,
    ) -> State {
        if self.workers.contains_key(wid) && self.ghosts.contains_key(eid) {
            let g = self.ghosts[eid];
            let w = self.workers[wid];
            let inside = w.sees_mirror(g, near);
            let had = w.view.contains(eid);
            if inside && !had {
                self.mirror_shown(wid, eid, g)
            } else if !inside && had {
                self.hidden(wid, eid)
            } else if inside && !first_time {
                self.emitted(wid, component_update(eid, "pos"@, g.pos.doc())).emitted(
                    wid,
                    component_update(eid, "vel"@, g.vel.doc()),
                )
            } else {
                self
            }
        } else {
            self
        }
    }

    /// The state after a mirror reached some peers.
    pub open spec fn mirror_spread(
        self,
        names: Seq<Seq<char>>,
        eid: Seq<char>,
        near: Set<Seq<char>>,
        first_time: bool,
    ) -> State
        decreases names.len(),
    {
        if names.len() == 0 {
            self
        } else {
            self.mirror_spread(names.drop_last(), eid, near, first_time).mirror_told(
                names.last(),
                eid,
                near.contains(names.last()),
                first_time,
            )
        }
    }

    /// The state after a neighbour sent a mirror: an entity of this broker is not
    /// mirrored.
    pub open spec fn mirrored(self, f: Doc, near: Set<Seq<char>>, now_ms: u64) -> State {
        let eid = msg_entity(f);
        if eid.len() == 0 || self.entities.contains_key(eid) {
            self
        } else {
            (State { ghosts: self.ghosts.insert(eid, mirror_of(f, now_ms)), ..self }).mirror_spread(
                sorted(self.workers.dom()),
                eid,
                near,
                !self.ghosts.contains_key(eid),
            )
        }
    }
}

impl Dup for GhostEntity {
    fn dup(&self) -> (r: GhostEntity) {
        GhostEntity {
            pos: self.pos.dup(),
            vel: self.vel.dup(),
            components: self.components.dup(),
            owner_region: self.owner_region.clone(),
            last_seen_ms: self.last_seen_ms,
        }
    }
}

/// Brings a mirror to the peers that see it.
pub fn propagate_ghost(s: &mut ServerState, eid: &str, near: &StrSet, first_time: bool)
    ensures
        final(s)@ == old(s)@.mirror_spread(
            sorted(old(s)@.workers.dom()),
            eid@,
            near@,
            first_time,
        ),
{
    let ghost before = s@;
    let wids = sorted_keys(&s.workers);
    let ghost all = texts(wids@);
    let mut i: usize = 0;
    proof {
        assert(all.take(0) =~= Seq::empty());
    }
    while i < wids.len()
        invariant
            i <= wids.len(),
            all == texts(wids@),
            s@ == before.mirror_spread(all.take(i as int), eid@, near@, first_time),
        decreases wids.len() - i,
    {
        let wid = wids[i].as_str();
        proof {
            assert(all.take(i + 1).drop_last() =~= all.take(i as int));
            assert(all.take(i + 1).last() == wid@);
        }
        let mut found: Option<GhostEntity> = None;
        let mut inside: bool = false;
        let mut had: bool = false;
        if let Some(w) = s.workers.get(wid) {
            if let Some(g) = s.ghosts.get(eid) {
                inside = ghost_visible(w, g, near.contains(wid));
                had = w.view.contains(eid);
                found = Some(g.dup());
            }
        }
        if let Some(g) = found {
            if inside && !had {
                emit(s, wid, critical_section_json(eid, "begin"));
                emit(s, wid, entity_msg_json("AddEntity", eid));
                emit(s, wid, component_update_json(eid, "ghost", Json::Bool(true)));
                emit(
                    s,
                    wid,
                    component_update_json(
                        eid,
                        "owner_region",
                        Json::str(g.owner_region.as_str()),
                    ),
                );
                emit(s, wid, component_update_json(eid, "pos", g.pos.json()));
                emit(s, wid, component_update_json(eid, "vel", g.vel.json()));
                send_components(s, wid, eid, &g.components);
                emit(s, wid, critical_section_json(eid, "end"));
                add_to_view(s, wid, eid);
            } else if !inside && had {
                take_from_sight(s, wid, eid);
            } else if inside && !first_time {
                emit(s, wid, component_update_json(eid, "pos", g.pos.json()));
                emit(s, wid, component_update_json(eid, "vel", g.vel.json()));
            }
        }
        i = i + 1;
    }
    proof {
        assert(all.take(i as int) =~= all);
    }
}

/// Takes a mirror that a neighbour sends. `near` are the peers whose area it is in.
pub fn handle_mesh_ghost(s: &mut ServerState, f: &Json, near: &StrSet, now_ms: u64)
    ensures
        final(s)@ == old(s)@.mirrored(f@, near@, now_ms),
{
    let eid = f.str_or("entity", "");
    proof {
        reveal_strlit("");
    }
    if eid.is_empty() || s.entities.contains_key(eid) {
        return;
    }
    let components = match f.get("components") {
        Some(c) => match c.as_object() {
            Some(m) => m.dup(),
            None => StrMap::new(),
        },
        None => StrMap::new(),
    };
    let g = GhostEntity {
        pos: arr2(f.get("pos")),
        vel: arr2(f.get("vel")),
        components,
        owner_region: f.str_or("owner_region", "").to_owned(),
        last_seen_ms: now_ms,
    };
    proof {
        assert(g@ =~= mirror_of(f@, now_ms));
    }
    let first: bool = !s.ghosts.contains_key(eid);
    s.ghosts.insert(eid, g);
    propagate_ghost(s, eid, near, first);
}

/// Takes a mirror away that a neighbour retracts.
pub fn handle_mesh_ghost_remove(s: &mut ServerState, f: &Json)
    ensures
        final(s)@ == match f@.get_str("entity"@) {
            Some(eid) => old(s)@.mirror_dropped(eid),
            None => old(s)@,
        },
{
    if let Some(eid) = f.get_str("entity") {
        remove_ghost(s, eid);
    }
}

impl State {
    /// The state after those of some mirrors were taken away that are not refreshed.
    pub open spec fn mirrors_reaped(self, names: Seq<Seq<char>>, now_ms: u64) -> State
        decreases names.len(),
    {
        if names.len() == 0 {
            self
        } else {
            let s = self.mirrors_reaped(names.drop_last(), now_ms);
            let eid = names.last();
            if s.ghosts.contains_key(eid) && now_ms - s.ghosts[eid].last_seen_ms > GHOST_TTL_MS {
                s.mirror_dropped(eid)
            } else {
                s
            }
        }
    }
}

/// Takes the mirrors away that are not refreshed.
pub fn reap_stale_ghosts(s: &mut ServerState, now_ms: u64)
    ensures
        final(s)@ == old(s)@.mirrors_reaped(sorted(old(s)@.ghosts.dom()), now_ms),
{
    let ghost before = s@;
    let ids = sorted_keys(&s.ghosts);
    let ghost all = texts(ids@);
    let mut i: usize = 0;
    proof {
        assert(all.take(0) =~= Seq::empty());
    }
    while i < ids.len()
        invariant
            i <= ids.len(),
            all == texts(ids@),
            s@ == before.mirrors_reaped(all.take(i as int), now_ms),
        decreases ids.len() - i,
    {
        let eid = ids[i].as_str();
        proof {
            assert(all.take(i + 1).drop_last() =~= all.take(i as int));
            assert(all.take(i + 1).last() == eid@);
        }
        let stale: bool = match s.ghosts.get(eid) {
            Some(g) => now_ms > g.last_seen_ms && now_ms - g.last_seen_ms > GHOST_TTL_MS,
            None => false,
        };
        if stale {
            remove_ghost(s, eid);
        }
        i = i + 1;
    }
    proof {
        assert(all.take(i as int) =~= all);
    }
}

/// A mirror of an entity as a neighbour is sent it.
pub open spec fn ghost_msg(eid: Seq<char>, e: Ent, owner_region: Seq<char>) -> Doc {
    Doc::Obj(
        map![
            "op"@ => Doc::Str("MeshGhost"@),
            "entity"@ => Doc::Str(eid),
            "pos"@ => e.pos.doc(),
            "vel"@ => e.vel.doc(),
            "components"@ => Doc::Obj(e.components),
            "owner_region"@ => Doc::Str(owner_region)],
    )
}

/// A mirror of an entity as a neighbour is sent it.
pub fn ghost_frame(eid: &str, e: &Entity, owner_region: &str) -> (r: Json)
    ensures
        r@ == ghost_msg(eid@, e@, owner_region@),
{
    StrMap::new().with("op", Json::str("MeshGhost")).with("entity", Json::str(eid)).with(
        "pos",
        e.pos.json(),
    ).with("vel", e.vel.json()).with("components", e.components.dup().done()).with(
        "owner_region",
        Json::str(owner_region),
    ).done()
}

/// Whether an entity is one that neighbours are shown: not one that passes quickly,
/// or that nobody aims at.
pub open spec fn is_mirrored_kind(e: Ent) -> bool {
    if e.components.contains_key("kind"@) {
        let k = e.components["kind"@].as_str();
        k != Some("projectile"@) && k != Some("wreck"@) && k != Some("economy"@)
    } else {
        true
    }
}

/// How an entity lies to the two borders of its strip: whether it is in the band
/// around the upper and the lower one.
#[derive(Clone, Copy, Debug, PartialEq, Eq, Structural)]
pub struct Edges {
    pub upper: bool,
    pub lower: bool,
}

impl State {
    /// The state after a neighbour was sent a mirror, where its link is up and it owns
    /// the region.
    pub open spec fn mirror_pushed(self, eid: Seq<char>, e: Ent, region: Seq<char>) -> State {
        if self.is_remote(region) && self.mesh.contains(region) {
            State {
                outbox: self.outbox.push(
                    Sent::Mesh { region, msg: ghost_msg(eid, e, self.my_region) },
                ),
                ..self
            }
        } else {
            self
        }
    }

    /// The state after the neighbours were sent the mirror of an entity that is near
    /// a border.
    pub open spec fn border_pushed(self, eid: Seq<char>, near: Edges) -> State {
        if self.entities.contains_key(eid) && is_mirrored_kind(self.entities[eid]) {
            let e = self.entities[eid];
            let n = self.boundaries.len();
            match strip_of_name(coarse(e.region), n) {
                Some(i) => {
                    let s = if i < n && near.upper {
                        self.mirror_pushed(eid, e, name_of_strip((i + 1) as nat, n))
                    } else {
                        self
                    };
                    if i > 0 && near.lower {
                        s.mirror_pushed(eid, e, name_of_strip((i - 1) as nat, n))
                    } else {
                        s
                    }
                },
                None => self,
            }
        } else {
            self
        }
    }
}

fn push_mirror(s: &mut ServerState, eid: &str, e: &Entity, region: &str)
    ensures
        final(s)@ == old(s)@.mirror_pushed(eid@, e@, region@),
{
    if crate::handoff::is_remote_region(s, region) && s.mesh.contains(region) {
        let msg = ghost_frame(eid, e, s.my_region.as_str());
        let ghost before = views(s.outbox@);
        s.outbox.push(Out::Mesh { region: region.to_owned(), msg });
        proof {
            assert(views(s.outbox@) =~= before.push(Sent::Mesh { region: region@, msg: msg@ }));
        }
    }
}

/// Sends the neighbours the mirror of an entity that is near a border.
pub fn push_border_ghost(s: &mut ServerState, eid: &str, near: Edges)
    ensures
        final(s)@ == old(s)@.border_pushed(eid@, near),
{
    let e = match s.entities.get(eid) {
        Some(e) => e.dup(),
        None => return,
    };
    if let Some(k) = e.components.get("kind") {
        if let Some(k) = k.as_str() {
            if str_eq(k, "projectile") || str_eq(k, "wreck") || str_eq(k, "economy") {
                return;
            }
        }
    }
    let n: usize = s.boundaries.len();
    let c = coarse_region(e.region.as_str());
    if let Some(i) = strip_index_of_name(c.as_str(), n) {
        if i < n && near.upper {
            let r = strip_name(i + 1, n);
            push_mirror(s, eid, &e, r.as_str());
        }
        if i > 0 && near.lower {
            let r = strip_name(i - 1, n);
            push_mirror(s, eid, &e, r.as_str());
        }
    }
}

impl State {
    /// The state after the neighbours were sent the mirrors of some entities.
    pub open spec fn borders_pushed(
        self,
        names: Seq<Seq<char>>,
        upper: Set<Seq<char>>,
        lower: Set<Seq<char>>,
    ) -> State
        decreases names.len(),
    {
        if names.len() == 0 {
            self
        } else {
            self.borders_pushed(names.drop_last(), upper, lower).border_pushed(
                names.last(),
                Edges { upper: upper.contains(names.last()), lower: lower.contains(names.last()) },
            )
        }
    }
}

/// Sends the neighbours the mirrors of all entities that are near a border. `upper`
/// and `lower` are those in the band around the upper and the lower border of their
/// strip.
pub fn push_border_ghosts(s: &mut ServerState, upper: &StrSet, lower: &StrSet)
    ensures
        final(s)@ == old(s)@.borders_pushed(sorted(old(s)@.entities.dom()), upper@, lower@),
{
    let ghost before = s@;
    let ids = sorted_keys(&s.entities);
    let ghost all = texts(ids@);
    let mut i: usize = 0;
    proof {
        assert(all.take(0) =~= Seq::empty());
    }
    while i < ids.len()
        invariant
            i <= ids.len(),
            all == texts(ids@),
            s@ == before.borders_pushed(all.take(i as int), upper@, lower@),
        decreases ids.len() - i,
    {
        let eid = ids[i].as_str();
        proof {
            assert(all.take(i + 1).drop_last() =~= all.take(i as int));
            assert(all.take(i + 1).last() == eid@);
        }
        push_border_ghost(
            s,
            eid,
            Edges { upper: upper.contains(eid), lower: lower.contains(eid) },
        );
        i = i + 1;
    }
    proof {
        assert(all.take(i as int) =~= all);
    }
}

/// A mirror is not an entity: taking one in changes no entity, and nobody is granted
/// anything by it.
pub proof fn law_mirrors_are_not_entities(s: State, f: Doc, near: Set<Seq<char>>, now_ms: u64)
    ensures
        s.mirrored(f, near, now_ms).entities == s.entities,
{
    let eid = msg_entity(f);
    let t = State { ghosts: s.ghosts.insert(eid, mirror_of(f, now_ms)), ..s };
    lemma_spread_keeps(t, sorted(t.workers.dom()), eid, near, !s.ghosts.contains_key(eid));
}

pub proof fn lemma_spread_keeps(
    s: State,
    names: Seq<Seq<char>>,
    eid: Seq<char>,
    near: Set<Seq<char>>,
    first: bool,
)
    ensures
        s.mirror_spread(names, eid, near, first).entities == s.entities,
        s.mirror_spread(names, eid, near, first).ghosts == s.ghosts,
    decreases names.len(),
{
    if names.len() > 0 {
        lemma_spread_keeps(s, names.drop_last(), eid, near, first);
        let t = s.mirror_spread(names.drop_last(), eid, near, first);
        let g = t.ghosts[eid];
        let u = t.emitted(names.last(), critical_section(eid, "begin"@)).emitted(
            names.last(),
            entity_msg("AddEntity"@, eid),
        ).emitted(names.last(), component_update(eid, "ghost"@, Doc::Bool(true))).emitted(
            names.last(),
            component_update(eid, "owner_region"@, Doc::Str(g.owner_region)),
        ).emitted(names.last(), component_update(eid, "pos"@, g.pos.doc())).emitted(
            names.last(),
            component_update(eid, "vel"@, g.vel.doc()),
        );
        lemma_sent_keeps(u, names.last(), eid, g.components, sorted(g.components.dom()));
    }
}

proof fn lemma_sent_keeps(
    s: State,
    wid: Seq<char>,
    eid: Seq<char>,
    comps: Map<Seq<char>, Doc>,
    names: Seq<Seq<char>>,
)
    ensures
        s.components_sent(wid, eid, comps, names) == (State {
            outbox: s.components_sent(wid, eid, comps, names).outbox,
            ..s
        }),
    decreases names.len(),
{
    if names.len() > 0 {
        lemma_sent_keeps(s, wid, eid, comps, names.drop_last());
    }
}

}

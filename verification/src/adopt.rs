//! Entities that arrive from neighbour brokers.

use vstd::prelude::*;
use vstd::string::*;
use crate::authority::island_epoch;
use crate::doc::{docs, Doc, Json, Num};
use crate::entity::{succ, Ent};
use crate::float::{arr2, opt_bits, point_of};
use crate::json::{opt_text_doc, opt_u64_doc, text_or};
use crate::partition::{
    cell_of_name, coarse, coarse_region, parse_grid_cell, refine_region, refined, spawn_region,
    spawned_region,
};
use crate::recovery::ev_components;
use crate::sight::{entity_msg, entity_msg_json, hide_from_all};
use crate::spawn::{newborn, prepare_spawn, PreparedSpawn};
use crate::state::{emit, note_rejected, Metrics, ServerState, State};
use crate::strmap::{Dup, StrMap};
use crate::text::{opt_string, opt_text, str_eq, trim, trimmed};

verus! {

broadcast use {crate::doc::group_json, crate::strmap::group_map};

impl State {
    /// Whether this broker owns a region.
    pub open spec fn owns(self, region: Seq<char>) -> bool {
        self.region_worker.contains_key(region) || self.my_region == region
    }

    /// The region that an arrival belongs to: the addressed cell of a grid, or else
    /// the cell of its position, where this broker owns it; without a grid this
    /// broker's own region, or else the addressed one where a worker holds it, or
    /// else that of its position.
    pub open spec fn adopting_region(
        self,
        x: Option<u64>,
        target: Option<Seq<char>>,
        cell: Seq<char>,
    ) -> Option<Seq<char>> {
        let t = match target {
            Some(t) => trimmed(t),
            None => Seq::empty(),
        };
        match self.grid2d {
            Some(g) => match cell_of_name(t) {
                Some((col, row)) => if self.owns(t) && 0 <= col < g.cols && 0 <= row < g.rows {
                    Some(t)
                } else {
                    None
                },
                None => if self.owns(cell) {
                    Some(cell)
                } else {
                    None
                },
            },
            None => if self.my_region.len() > 0 {
                Some(self.my_region)
            } else if t.len() > 0 && self.region_worker.contains_key(t) {
                Some(refined(coarse(t), x, self.splits))
            } else {
                Some(spawned_region(x, None, self.boundaries, self.splits))
            },
        }
    }

    /// Whether an arrival is one that is here already: in the same region, and under
    /// the same epoch where one is stated.
    pub open spec fn is_same_arrival(self, eid: Seq<char>, region: Seq<char>, epoch: Option<u64>) -> bool {
        &&& self.entities.contains_key(eid)
        &&& self.entities[eid].region == region
        &&& epoch is Some ==> self.entities[eid].island_epoch() == epoch->0
    }
}

/// The region that an arrival belongs to.
pub fn receiving_region_for_adopt(
    s: &ServerState,
    x: &Option<crate::float::Float>,
    target: Option<&str>,
    cell: &str,
) -> (r: Option<String>)
    ensures
        opt_string(r) == s@.adopting_region(opt_bits(*x), opt_text(target), cell@),
{
    let t: String = match target {
        Some(t) => trim(t),
        None => String::new(),
    };
    let ts = t.as_str();
    if let Some(g) = &s.grid2d {
        if let Some((col, row)) = parse_grid_cell(ts) {
            if (s.region_worker.contains_key(ts) || str_eq(s.my_region.as_str(), ts)) && 0 <= col && 0
                <= row && (col as u64) < g.cols && (row as u64) < g.rows {
                return Some(t);
            }
            return None;
        }
        if s.region_worker.contains_key(cell) || str_eq(s.my_region.as_str(), cell) {
            return Some(cell.to_owned());
        }
        return None;
    }
    if !s.my_region.as_str().is_empty() {
        return Some(s.my_region.clone());
    }
    if !ts.is_empty() && s.region_worker.contains_key(ts) {
        let c = coarse_region(ts);
        return Some(refine_region(c.as_str(), x, &s.splits));
    }
    Some(spawn_region(x, None, &s.boundaries, &s.splits))
}

/// Whether an arrival is one that is here already.
pub fn existing_mesh_adopt_matches(
    s: &ServerState,
    eid: &str,
    adopt_region: &str,
    authority_epoch: Option<u64>,
) -> (r: bool)
    ensures
        r == s@.is_same_arrival(eid@, adopt_region@, authority_epoch),
{
    match s.entities.get(eid) {
        None => false,
        Some(e) => {
            if !str_eq(e.region.as_str(), adopt_region) {
                return false;
            }
            match authority_epoch {
                Some(n) => island_epoch(e) == n,
                None => true,
            }
        },
    }
}

/// The record of rejections, kept to its last lines.
pub open spec fn recent(rejected: Seq<Doc>) -> Seq<Doc> {
    if rejected.len() > 256 {
        rejected.skip(rejected.len() - 256)
    } else {
        rejected
    }
}

impl State {
    /// The state with a line added to the record of rejections, which is kept short.
    pub open spec fn noted_recent(self, d: Doc) -> State {
        State { rejected: recent(self.rejected.push(d)), ..self }
    }

    /// The state without a mirror.
    pub open spec fn mirror_dropped(self, eid: Seq<char>) -> State {
        if self.ghosts.contains_key(eid) {
            (State { ghosts: self.ghosts.remove(eid), ..self }).hidden_from_all(eid)
        } else {
            self
        }
    }
}

fn note_recent(s: &mut ServerState, line: Json)
    ensures
        final(s)@ == old(s)@.noted_recent(line@),
{
    note_rejected(s, line);
    let n: usize = s.rejected.len();
    if n > 256 {
        let ghost before = docs(s.rejected@);
        let kept = s.rejected.split_off(n - 256);
        s.rejected = kept;
        proof {
            assert(docs(s.rejected@) =~= before.skip(n - 256));
        }
    }
}

/// Takes a mirror away, and out of everybody's sight.
pub fn remove_ghost(s: &mut ServerState, eid: &str)
    ensures
        final(s)@ == old(s)@.mirror_dropped(eid@),
{
    if s.ghosts.remove(eid).is_some() {
        hide_from_all(s, eid);
    }
}

/// The entity that a message speaks of.
pub open spec fn msg_entity(f: Doc) -> Seq<char> {
    text_or(f.get_str("entity"@), ""@)
}

impl State {
    /// Whether the sender of an arrival is a superseded incarnation.
    pub open spec fn is_fenced(self, f: Doc) -> bool {
        match (f.get_str("src_region"@), f.get_u64("lease_epoch"@)) {
            (Some(r), Some(n)) => self.region_lease_epoch.contains_key(r) && n
                < self.region_lease_epoch[r],
            _ => false,
        }
    }

    /// Whether an arrival is older than what this broker has sent on.
    pub open spec fn is_outdated(self, f: Doc) -> bool {
        let eid = msg_entity(f);
        self.mesh_forwarded_epoch.contains_key(eid) && match f.get_u64("authority_epoch"@) {
            Some(n) => n <= self.mesh_forwarded_epoch[eid],
            None => true,
        }
    }

    /// Whether an arrival comes while its entity is still on its way out, with no
    /// epoch on record to compare.
    pub open spec fn is_crossed(self, f: Doc) -> bool {
        let eid = msg_entity(f);
        !self.mesh_forwarded_epoch.contains_key(eid) && self.pending_mesh.contains_key(eid)
    }

    /// The state after an arrival from a superseded incarnation: it is not confirmed.
    pub open spec fn fenced(self, f: Doc) -> State {
        let r = f.get_str("src_region"@)->0;
        (State {
            metrics: Metrics {
                fenced_stale_handoffs: succ(self.metrics.fenced_stale_handoffs),
                ..self.metrics
            },
            ..self
        }).noted_recent(
            Doc::Obj(
                map![
                    "reason"@ => Doc::Str("stale lease epoch (fenced incarnation)"@),
                    "entity"@ => Doc::Str(msg_entity(f)),
                    "src_region"@ => Doc::Str(r),
                    "sender_lease_epoch"@ => Doc::Num(Num::Pos(f.get_u64("lease_epoch"@)->0)),
                    "known_lease_epoch"@ => Doc::Num(Num::Pos(self.region_lease_epoch[r]))],
            ),
        )
    }

    /// The state after an arrival that was sent on before: it is confirmed again, and
    /// not taken.
    pub open spec fn outdated_refused(self, wid: Seq<char>, f: Doc) -> State {
        let eid = msg_entity(f);
        self.noted_recent(
            Doc::Obj(
                map![
                    "reason"@ => Doc::Str("mesh handoff stale after onward forward"@),
                    "entity"@ => Doc::Str(eid),
                    "authority_epoch"@ => opt_u64_doc(f.get_u64("authority_epoch"@)),
                    "forwarded_authority_epoch"@ => Doc::Num(
                        Num::Pos(self.mesh_forwarded_epoch[eid]),
                    )],
            ),
        ).emitted(wid, entity_msg("MeshAck"@, eid))
    }

    /// The state after an arrival that crossed a departure.
    pub open spec fn crossed_refused(self, wid: Seq<char>, f: Doc) -> State {
        let eid = msg_entity(f);
        self.noted_recent(
            Doc::Obj(
                map![
                    "reason"@ => Doc::Str("mesh handoff stale while onward handoff pending"@),
                    "entity"@ => Doc::Str(eid),
                    "authority_epoch"@ => opt_u64_doc(f.get_u64("authority_epoch"@))],
            ),
        ).emitted(wid, entity_msg("MeshAck"@, eid))
    }
}

/// What the first look at an arrival says.
#[derive(Clone, Copy, Debug, PartialEq, Eq, Structural)]
pub enum Gate {
    /// It is dealt with.
    Stop,
    /// Its own departure has to be recorded as confirmed first.
    AckFirst,
    /// It may be taken.
    Go,
}

impl State {
    /// What the first look at an arrival says.
    pub open spec fn gate(self, f: Doc) -> Gate {
        let eid = msg_entity(f);
        if eid.len() == 0 || self.is_fenced(f) || self.mesh_adopt_drop
            || self.deleted_entities.contains(eid) || self.is_outdated(f) || self.is_crossed(f) {
            Gate::Stop
        } else if self.pending_mesh.contains_key(eid) {
            Gate::AckFirst
        } else {
            Gate::Go
        }
    }

    /// The state after the first look at an arrival. A deleted entity is confirmed,
    /// so that the sender lets go of it; a mirror gives way to the entity itself.
    pub open spec fn gated(self, wid: Seq<char>, f: Doc) -> State {
        let eid = msg_entity(f);
        if eid.len() == 0 {
            self
        } else if self.is_fenced(f) {
            self.fenced(f)
        } else if self.mesh_adopt_drop {
            self
        } else if self.deleted_entities.contains(eid) {
            self.emitted(wid, entity_msg("MeshAck"@, eid))
        } else {
            let s = self.mirror_dropped(eid);
            if self.is_outdated(f) {
                s.outdated_refused(wid, f)
            } else if self.is_crossed(f) {
                s.crossed_refused(wid, f)
            } else {
                s
            }
        }
    }
}

proof fn lemma_mirror_keeps(s: State, eid: Seq<char>)
    ensures
        s.mirror_dropped(eid).mesh_forwarded_epoch == s.mesh_forwarded_epoch,
        s.mirror_dropped(eid).pending_mesh == s.pending_mesh,
        s.mirror_dropped(eid).entities == s.entities,
{
    let t = State { ghosts: s.ghosts.remove(eid), ..s };
    lemma_hidden_world(t, crate::order::sorted(t.workers.dom()), eid);
}

/// What leaves a peer's sight leaves the world alone.
pub proof fn lemma_hidden_world(s: State, names: Seq<Seq<char>>, eid: Seq<char>)
    ensures
        s.hidden_from(names, eid) == (State {
            outbox: s.hidden_from(names, eid).outbox,
            workers: s.hidden_from(names, eid).workers,
            ..s
        }),
    decreases names.len(),
{
    if names.len() > 0 {
        lemma_hidden_world(s, names.drop_last(), eid);
    }
}

/// Takes a first look at an arrival.
pub fn admit_mesh_handoff(s: &mut ServerState, wid: &str, f: &Json) -> (r: Gate)
    ensures
        r == old(s)@.gate(f@),
        final(s)@ == old(s)@.gated(wid@, f@),
{
    let eid = f.str_or("entity", "");
    proof {
        reveal_strlit("");
    }
    if eid.is_empty() {
        return Gate::Stop;
    }
    if let Some(src) = f.get_str("src_region") {
        if let Some(sender) = f.get_u64("lease_epoch") {
            let known: Option<u64> = crate::handoff::u64_at(&s.region_lease_epoch, src);
            if let Some(k) = known {
                if sender < k {
                    s.metrics.fenced_stale_handoffs = s.metrics.fenced_stale_handoffs.saturating_add(
                        1,
                    );
                    let line = StrMap::new().with(
                        "reason",
                        Json::str("stale lease epoch (fenced incarnation)"),
                    ).with("entity", Json::str(eid)).with("src_region", Json::str(src)).with(
                        "sender_lease_epoch",
                        Json::u64(sender),
                    ).with("known_lease_epoch", Json::u64(k)).done();
                    note_recent(s, line);
                    return Gate::Stop;
                }
            }
        }
    }
    if s.mesh_adopt_drop {
        return Gate::Stop;
    }
    if s.deleted_entities.contains(eid) {
        emit(s, wid, entity_msg_json("MeshAck", eid));
        return Gate::Stop;
    }
    proof {
        lemma_mirror_keeps(s@, eid@);
    }
    remove_ghost(s, eid);
    let epoch: Option<u64> = f.get_u64("authority_epoch");
    let forwarded: Option<u64> = crate::handoff::u64_at(&s.mesh_forwarded_epoch, eid);
    match forwarded {
        Some(n) => {
            let outdated: bool = match epoch {
                Some(e) => e <= n,
                None => true,
            };
            if outdated {
                let line = StrMap::new().with(
                    "reason",
                    Json::str("mesh handoff stale after onward forward"),
                ).with("entity", Json::str(eid)).with("authority_epoch", Json::opt_u64(epoch)).with(
                    "forwarded_authority_epoch",
                    Json::u64(n),
                ).done();
                note_recent(s, line);
                emit(s, wid, entity_msg_json("MeshAck", eid));
                return Gate::Stop;
            }
            if s.pending_mesh.contains_key(eid) {
                return Gate::AckFirst;
            }
        },
        None => {
            if s.pending_mesh.contains_key(eid) {
                let line = StrMap::new().with(
                    "reason",
                    Json::str("mesh handoff stale while onward handoff pending"),
                ).with("entity", Json::str(eid)).with("authority_epoch", Json::opt_u64(epoch)).done();
                note_recent(s, line);
                emit(s, wid, entity_msg_json("MeshAck", eid));
                return Gate::Stop;
            }
        },
    }
    Gate::Go
}

/// What becomes of an arrival that may be taken.
pub enum Place {
    /// It is refused.
    Stop,
    /// It is here already.
    Known(String),
    /// It is new, and ready for the log.
    New(PreparedSpawn),
}

impl State {
    /// The region that an arrival belongs to.
    pub open spec fn place_of(self, f: Doc, cell: Seq<char>) -> Option<Seq<char>> {
        self.adopting_region(point_of(f.get("pos"@)).x, f.get_str("target"@), cell)
    }

    /// The state after an arrival was placed: refused where this broker does not own
    /// the place, or where an entity is here that is not the same.
    pub open spec fn placed(self, f: Doc, cell: Seq<char>) -> State {
        let eid = msg_entity(f);
        let epoch = f.get_u64("authority_epoch"@);
        match self.place_of(f, cell) {
            None => self.noted_recent(
                Doc::Obj(
                    map![
                        "reason"@ => Doc::Str("mesh handoff target region not owned"@),
                        "entity"@ => Doc::Str(eid),
                        "target"@ => opt_text_doc(f.get_str("target"@)),
                        "pos"@ => point_of(f.get("pos"@)).doc()],
                ),
            ),
            Some(region) => if self.entities.contains_key(eid) && !self.is_same_arrival(
                eid,
                region,
                epoch,
            ) {
                self.noted_recent(
                    Doc::Obj(
                        map![
                            "reason"@ => Doc::Str("mesh handoff existing-entity mismatch"@),
                            "entity"@ => Doc::Str(eid),
                            "adopt_region"@ => Doc::Str(region),
                            "authority_epoch"@ => opt_u64_doc(epoch)],
                    ),
                )
            } else {
                self
            },
        }
    }
}

/// The entity that an arrival is.
pub open spec fn arrival(f: Doc, region: Seq<char>) -> Ent {
    newborn(
        point_of(f.get("pos"@)),
        point_of(f.get("vel"@)),
        ev_components(f),
        region,
        f.get_u64("authority_epoch"@),
        f.get("authority"@),
    )
}

/// Places an arrival that may be taken.
pub fn place_mesh_handoff(s: &mut ServerState, f: &Json, cell: &str) -> (r: Place)
    ensures
        ({
            let o = old(s)@;
            let eid = msg_entity(f@);
            let epoch = f@.get_u64("authority_epoch"@);
            match r {
                Place::Stop => o.place_of(f@, cell@) is None || (o.entities.contains_key(eid)
                    && !o.is_same_arrival(eid, o.place_of(f@, cell@)->0, epoch)) || (
                !o.entities.contains_key(eid) && o.deleted_entities.contains(eid)),
                Place::Known(region) => o.place_of(f@, cell@) == Some(region@) && o.is_same_arrival(
                    eid,
                    region@,
                    epoch,
                ),
                Place::New(p) => {
                    &&& o.place_of(f@, cell@) is Some
                    &&& !o.entities.contains_key(eid)
                    &&& !o.deleted_entities.contains(eid)
                    &&& p.eid@ == eid
                    &&& p.entity@ == arrival(f@, o.place_of(f@, cell@)->0)
                    &&& p.epoch == crate::json::num_or(epoch, 1)
                },
            }
        }),
        final(s)@ == old(s)@.placed(f@, cell@),
{
    let eid = f.str_or("entity", "");
    let pos = arr2(f.get("pos"));
    let epoch: Option<u64> = f.get_u64("authority_epoch");
    let target = f.get_str("target");
    match receiving_region_for_adopt(s, &pos.x, target, cell) {
        None => {
            let t = crate::entity::to_opt_string(target);
            let line = StrMap::new().with(
                "reason",
                Json::str("mesh handoff target region not owned"),
            ).with("entity", Json::str(eid)).with("target", Json::opt_str(&t)).with("pos", pos.json()).done();
            note_recent(s, line);
            Place::Stop
        },
        Some(region) => {
            if s.entities.contains_key(eid) {
                if existing_mesh_adopt_matches(s, eid, region.as_str(), epoch) {
                    return Place::Known(region);
                }
                let line = StrMap::new().with(
                    "reason",
                    Json::str("mesh handoff existing-entity mismatch"),
                ).with("entity", Json::str(eid)).with("adopt_region", Json::str(region.as_str())).with(
                    "authority_epoch",
                    Json::opt_u64(epoch),
                ).done();
                note_recent(s, line);
                return Place::Stop;
            }
            let comps = match f.get("components") {
                Some(c) => match c.as_object() {
                    Some(m) => m.dup(),
                    None => StrMap::new(),
                },
                None => StrMap::new(),
            };
            let vel = arr2(f.get("vel"));
            match prepare_spawn(s, eid, pos, vel, comps, region.as_str(), epoch, f.get("authority")) {
                Some(p) => Place::New(p),
                None => Place::Stop,
            }
        },
    }
}

impl State {
    /// The state after an arrival was taken: the sender is told, unless told not to.
    pub open spec fn confirmed(self, wid: Seq<char>, eid: Seq<char>) -> State {
        if self.mesh_ack_drop {
            self
        } else {
            self.emitted(wid, entity_msg("MeshAck"@, eid))
        }
    }
}

/// Confirms an arrival to its sender.
pub fn confirm_mesh_handoff(s: &mut ServerState, wid: &str, eid: &str)
    ensures
        final(s)@ == old(s)@.confirmed(wid@, eid@),
{
    if !s.mesh_ack_drop {
        emit(s, wid, entity_msg_json("MeshAck", eid));
    }
}

/// A superseded incarnation is fenced: what it sends is neither taken nor
/// confirmed, so that it stays parked where it is.
pub proof fn law_stale_incarnation_is_fenced(s: State, wid: Seq<char>, f: Doc)
    requires
        msg_entity(f).len() > 0,
        s.is_fenced(f),
    ensures
        s.gate(f) == Gate::Stop,
        s.gated(wid, f).entities == s.entities,
        s.gated(wid, f).outbox == s.outbox,
{
}

/// No second coming: an arrival that is not newer than what this broker sent on is
/// not taken, and its sender is told to let go.
pub proof fn law_forwarded_is_not_readopted(s: State, wid: Seq<char>, f: Doc)
    requires
        s.is_outdated(f),
    ensures
        s.gate(f) == Gate::Stop,
        s.gated(wid, f).entities == s.entities,
{
    lemma_mirror_keeps(s, msg_entity(f));
}

}

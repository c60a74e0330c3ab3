//! New entities.

use vstd::prelude::*;
use crate::authority::{apply_authority_snapshot, authority_doc, authority_to_json};
use crate::doc::{Doc, Json, Num};
use crate::entity::{initial_authority, initial_authority_map, Ent, Entity};
use crate::float::{law_point_round_trip, opt_bits, Point, Vec2};
use crate::json::{num_or, opt_doc};
use crate::order::sorted;
use crate::partition::{spawn_region, spawned_region};
use crate::recovery::registered;
use crate::sight::announce;
use crate::state::{ServerState, State};
use crate::strmap::{Dup, StrMap, StrSet};
use crate::text::opt_text;
use crate::wal::kind_of;

verus! {

broadcast use {crate::doc::group_json, crate::strmap::group_map};

/// An entity that is ready for the log.
pub struct PreparedSpawn {
    pub eid: String,
    pub epoch: u64,
    pub entity: Entity,
}

impl View for PreparedSpawn {
    type V = (Seq<char>, u64, Ent);

    open spec fn view(&self) -> (Seq<char>, u64, Ent) {
        (self.eid@, self.epoch, self.entity@)
    }
}

/// The entity that starts with these components, in this place, under this epoch
/// and with this snapshot of authorities.
pub open spec fn newborn(
    pos: Vec2,
    vel: Vec2,
    comps: Map<Seq<char>, Doc>,
    region: Seq<char>,
    epoch: Option<u64>,
    snapshot: Option<Doc>,
) -> Ent {
    let e = Ent {
        pos,
        vel,
        components: comps,
        region,
        version: 1,
        authority: initial_authority(comps, num_or(epoch, 1)),
    };
    match snapshot {
        Some(a) => e.snapshot_applied(a),
        None => e,
    }
}

/// The event that an entity came to be, or is.
pub open spec fn register_event(eid: Seq<char>, e: Ent, epoch: u64) -> Doc {
    Doc::Obj(
        map![
            "kind"@ => Doc::Str("register"@),
            "entity"@ => Doc::Str(eid),
            "version"@ => Doc::Num(Num::Pos(e.version)),
            "authority_epoch"@ => Doc::Num(Num::Pos(epoch)),
            "pos"@ => e.pos.doc(),
            "vel"@ => e.vel.doc(),
            "components"@ => Doc::Obj(e.components),
            "region"@ => Doc::Str(e.region),
            "authority"@ => authority_doc(e.authority)],
    )
}

/// The event that an entity came to be, or is.
pub fn register_wal_event(eid: &str, e: &Entity, epoch: u64) -> (r: Json)
    ensures
        r@ == register_event(eid@, e@, epoch),
{
    StrMap::new().with("kind", Json::str("register")).with("entity", Json::str(eid)).with(
        "version",
        Json::u64(e.version),
    ).with("authority_epoch", Json::u64(epoch)).with("pos", e.pos.json()).with("vel", e.vel.json()).with(
        "components",
        e.components.dup().done(),
    ).with("region", Json::str(e.region.as_str())).with(
        "authority",
        authority_to_json(&e.authority),
    ).done()
}

/// What replay reads of a `register` event.
pub proof fn lemma_register_fields(eid: Seq<char>, e: Ent, epoch: u64)
    ensures
        ({
            let ev = register_event(eid, e, epoch);
            &&& kind_of(ev) == "register"@
            &&& ev.get_str("entity"@) == Some(eid)
            &&& ev.get_u64("version"@) == Some(e.version)
            &&& ev.get_u64("authority_epoch"@) == Some(epoch)
            &&& ev.get("pos"@) == Some(e.pos.doc())
            &&& ev.get("vel"@) == Some(e.vel.doc())
            &&& ev.get("components"@) == Some(Doc::Obj(e.components))
            &&& ev.get_str("region"@) == Some(e.region)
            &&& ev.get("authority"@) == Some(authority_doc(e.authority))
        }),
{
    reveal_strlit("kind");
    reveal_strlit("entity");
    reveal_strlit("version");
    reveal_strlit("authority_epoch");
    reveal_strlit("pos");
    reveal_strlit("vel");
    reveal_strlit("components");
    reveal_strlit("region");
    reveal_strlit("authority");
    assert("kind"@.len() == 4);
    assert("entity"@.len() == 6);
    assert("version"@.len() == 7);
    assert("authority_epoch"@.len() == 15);
    assert("pos"@.len() == 3);
    assert("vel"@.len() == 3);
    assert("components"@.len() == 10);
    assert("region"@.len() == 6);
    assert("authority"@.len() == 9);
    assert("pos"@[0] != "vel"@[0]);
    assert("entity"@[0] != "region"@[0]);
}

/// Whether a restart rebuilds an entity from its `register` event: its position and
/// velocity are there in full, and no owner is the empty text.
pub open spec fn is_restorable(e: Ent) -> bool {
    &&& e.pos.x is Some
    &&& e.pos.y is Some
    &&& e.vel.x is Some
    &&& e.vel.y is Some
    &&& forall|k: Seq<char>|
        #[trigger] e.authority.contains_key(k) ==> e.authority[k].owner != Some(Seq::<char>::empty())
}

/// Whether all that has an authority from the start has one on record.
pub open spec fn is_complete(e: Ent) -> bool {
    forall|k: Seq<char>|
        crate::entity::initial_names(e.components).contains(k) ==> #[trigger] e.authority.contains_key(
            k,
        )
}

/// What a restart makes of an entity: the entity as it is, where a component without an
/// authority on record gets the one that it would start with.
pub open spec fn rebuilt(e: Ent, epoch: u64) -> Ent {
    Ent {
        authority: initial_authority(e.components, epoch).union_prefer_right(e.authority),
        ..e
    }
}

/// An entity that is rebuilt is where it was, as it was: its body is the same, every
/// authority on record is the same, and one is added only to what had none. Where
/// nothing lacks one, it is the same entity.
pub proof fn law_rebuilt_is_the_entity(e: Ent, epoch: u64)
    ensures
        rebuilt(e, epoch) == (Ent { authority: rebuilt(e, epoch).authority, ..e }),
        forall|k: Seq<char>| #[trigger]
            e.authority.contains_key(k) ==> rebuilt(e, epoch).authority.contains_key(k)
                && rebuilt(e, epoch).authority[k] == e.authority[k],
        forall|k: Seq<char>| #[trigger]
            rebuilt(e, epoch).authority.contains_key(k) && !e.authority.contains_key(k)
                ==> crate::entity::initial_names(e.components).contains(k) && rebuilt(
                e,
                epoch,
            ).authority[k] == crate::entity::initial_auth(e.components, k, epoch),
        is_complete(e) ==> rebuilt(e, epoch) == e,
{
    if is_complete(e) {
        assert(rebuilt(e, epoch).authority =~= e.authority);
    }
}

/// A restart rebuilds the entity: what a `register` event describes is the entity
/// that it was written for.
pub proof fn law_register_round_trip(eid: Seq<char>, e: Ent, epoch: u64)
    requires
        is_restorable(e),
    ensures
        registered(register_event(eid, e, epoch)) == rebuilt(e, epoch),
        is_complete(e) ==> registered(register_event(eid, e, epoch)) == e,
{
    lemma_register_fields(eid, e, epoch);
    law_point_round_trip(e.pos);
    law_point_round_trip(e.vel);
    let ev = register_event(eid, e, epoch);
    let base = Ent {
        authority: initial_authority(e.components, epoch),
        ..e
    };
    crate::authority::law_snapshot_round_trip(base, e.authority);
    law_rebuilt_is_the_entity(e, epoch);
    assert(registered(ev) =~= rebuilt(e, epoch));
}

impl State {
    /// The state after an entity was registered, or was not.
    pub open spec fn spawned(
        self,
        eid: Seq<char>,
        e: Ent,
        written: bool,
        near: Set<Seq<char>>,
    ) -> State {
        let s = State { mesh_forwarded_epoch: self.mesh_forwarded_epoch.remove(eid), ..self };
        if written {
            s.with_entity(eid, e).announced(sorted(self.workers.dom()), eid, near)
        } else {
            s
        }
    }

    /// The region of a new entity: a cell of the grid where there is one, and else
    /// by its position and what it asks for.
    pub open spec fn region_for(
        self,
        x: Option<u64>,
        requested: Option<Seq<char>>,
        cell: Seq<char>,
    ) -> Seq<char> {
        if self.grid2d is Some {
            cell
        } else {
            spawned_region(x, requested, self.boundaries, self.splits)
        }
    }
}

/// Prepares a new entity in a region; none where the entity was deleted before.
pub fn prepare_spawn(
    s: &ServerState,
    eid: &str,
    pos: Point,
    vel: Point,
    comps: StrMap<Json>,
    region: &str,
    epoch: Option<u64>,
    snapshot: Option<&Json>,
) -> (r: Option<PreparedSpawn>)
    ensures
        match r {
            Some(p) => {
                &&& !s@.deleted_entities.contains(eid@)
                &&& p.eid@ == eid@
                &&& p.epoch == num_or(epoch, 1)
                &&& p.entity@ == newborn(pos@, vel@, comps@, region@, epoch, opt_doc(snapshot))
            },
            None => s@.deleted_entities.contains(eid@),
        },
{
    if s.deleted_entities.contains(eid) {
        return None;
    }
    let n: u64 = match epoch {
        Some(n) => n,
        None => 1,
    };
    let authority = initial_authority_map(&comps, n);
    let mut entity = Entity {
        pos,
        vel,
        components: comps,
        region: region.to_owned(),
        version: 1,
        authority,
    };
    if let Some(a) = snapshot {
        apply_authority_snapshot(&mut entity, a);
    }
    Some(PreparedSpawn { eid: eid.to_owned(), epoch: n, entity })
}

/// The event of a new entity.
pub fn prepared_spawn_wal_event(p: &PreparedSpawn) -> (r: Json)
    ensures
        r@ == register_event(p.eid@, p.entity@, p.epoch),
{
    register_wal_event(p.eid.as_str(), &p.entity, p.epoch)
}

/// Lets a new entity live that is on the log, and shows it to those who see it.
/// Without the log it never was.
pub fn complete_spawn(s: &mut ServerState, p: PreparedSpawn, written: bool, near: &StrSet) -> (r:
    bool)
    ensures
        r == written,
        final(s)@ == old(s)@.spawned(p.eid@, p.entity@, written, near@),
{
    let eid = p.eid.clone();
    s.mesh_forwarded_epoch.remove(eid.as_str());
    if written {
        s.entities.insert(eid.as_str(), p.entity);
        announce(s, eid.as_str(), near);
    }
    written
}

/// The region of a new entity.
pub fn region_of_spawn(s: &ServerState, x: &Option<crate::float::Float>, requested: Option<&str>, cell: &str) -> (r:
    String)
    ensures
        r@ == s@.region_for(opt_bits(*x), opt_text(requested), cell@),
{
    if s.grid2d.is_some() {
        cell.to_owned()
    } else {
        spawn_region(x, requested, &s.boundaries, &s.splits)
    }
}

}

//! Recovery: the store that a log's events build.

use vstd::prelude::*;
use crate::authority::{
    apply_authority_snapshot, bump_spatial_authority_epoch, set_physics_island_authority_epoch,
};
use crate::doc::{docs, Doc, Json, Num};
use crate::entity::{
    component_authority_epoch, ensure_component_authority, initial_authority, initial_authority_map,
    set_component_authority_epoch, to_opt_string, Auth, AuthorityMode, ComponentAuthority, Ent,
    Entity,
};
use crate::float::{arr2, point_of};
use crate::json::{num_or, opt_json, or_null, text_or};
use crate::strmap::{texts, Dup, StrMap, StrSet};
use crate::text::str_eq;
use crate::wal::{kind_of, wal_event_kind};

verus! {

broadcast use crate::doc::group_json;

/// What recovery builds.
pub struct ReplayStore {
    pub entities: StrMap<Entity>,
    /// Deleted entities, which never come back.
    pub tombstones: StrSet,
    /// The latest configuration of the partition.
    pub last_partition: Option<Json>,
    /// Departures that no neighbour has confirmed.
    pub recovered_pending: StrMap<Json>,
    /// The latest epoch under which an entity departed.
    pub mesh_forwarded_epoch: StrMap<u64>,
    /// The first entity number that was never reserved.
    pub recovered_id_hwm: u64,
}

/// A `ReplayStore` by its views.
#[verifier::ext_equal]
pub ghost struct Store {
    pub entities: Map<Seq<char>, Ent>,
    pub tombstones: Set<Seq<char>>,
    pub partition: Option<Doc>,
    pub pending: Map<Seq<char>, Doc>,
    pub forwarded: Map<Seq<char>, u64>,
    pub id_hwm: u64,
}

impl View for ReplayStore {
    type V = Store;

    open spec fn view(&self) -> Store {
        Store {
            entities: self.entities@,
            tombstones: self.tombstones@,
            partition: opt_json(self.last_partition),
            pending: self.recovered_pending@,
            forwarded: self.mesh_forwarded_epoch@,
            id_hwm: self.recovered_id_hwm,
        }
    }
}

impl Store {
    pub open spec fn empty() -> Store {
        Store {
            entities: Map::empty(),
            tombstones: Set::empty(),
            partition: None,
            pending: Map::empty(),
            forwarded: Map::empty(),
            id_hwm: 0,
        }
    }
}

/// The entity that an event speaks of.
pub open spec fn ev_entity(ev: Doc) -> Seq<char> {
    text_or(ev.get_str("entity"@), ""@)
}

/// The component that an event speaks of.
pub open spec fn ev_comp(ev: Doc) -> Seq<char> {
    text_or(ev.get_str("comp"@), ""@)
}

/// The version that an event gives an entity.
pub open spec fn ev_version(ev: Doc, e: Ent) -> u64 {
    num_or(ev.get_u64("version"@), e.version)
}

/// The components that an event lists.
pub open spec fn ev_components(ev: Doc) -> Map<Seq<char>, Doc> {
    match ev.get("components"@) {
        Some(Doc::Obj(m)) => m,
        _ => Map::empty(),
    }
}

/// The entity that a `register` event describes.
pub open spec fn registered(ev: Doc) -> Ent {
    let comps = ev_components(ev);
    let e = Ent {
        pos: point_of(ev.get("pos"@)),
        vel: point_of(ev.get("vel"@)),
        components: comps,
        region: text_or(ev.get_str("region"@), "E"@),
        version: num_or(ev.get_u64("version"@), 0),
        authority: initial_authority(comps, num_or(ev.get_u64("authority_epoch"@), 1)),
    };
    match ev.get("authority"@) {
        Some(a) => e.snapshot_applied(a),
        None => e,
    }
}

fn registered_entity(ev: &Json) -> (r: Entity)
    ensures
        r@ == registered(ev@),
{
    let components = match ev.get("components") {
        Some(c) => match c.as_object() {
            Some(m) => m.dup(),
            None => StrMap::new(),
        },
        None => StrMap::new(),
    };
    let authority = initial_authority_map(&components, ev.u64_or("authority_epoch", 1));
    let mut e = Entity {
        pos: arr2(ev.get("pos")),
        vel: arr2(ev.get("vel")),
        components,
        region: ev.str_or("region", "E").to_owned(),
        version: ev.u64_or("version", 0),
        authority,
    };
    if let Some(a) = ev.get("authority") {
        apply_authority_snapshot(&mut e, a);
    }
    e
}

/// The entity with a component set: the position, the velocity, or another.
pub open spec fn component_set(e: Ent, comp: Seq<char>, v: Doc) -> Ent {
    if comp == "pos"@ {
        Ent { pos: point_of(Some(v)), ..e }
    } else if comp == "vel"@ {
        Ent { vel: point_of(Some(v)), ..e }
    } else {
        Ent { components: e.components.insert(comp, v), ..e }
    }
}

/// Sets a component: the position, the velocity, or another.
pub fn set_component(e: &mut Entity, comp: &str, v: &Json)
    ensures
        final(e)@ == component_set(old(e)@, comp@, v@),
{
    if str_eq(comp, "pos") {
        e.pos = arr2(Some(v));
    } else if str_eq(comp, "vel") {
        e.vel = arr2(Some(v));
    } else {
        e.components.insert(comp, v.dup());
    }
}

/// The entity after the authorities that an event carries: a snapshot, or else an
/// epoch for all that moves together, which without one is raised.
pub open spec fn spatial_authority(e: Ent, ev: Doc) -> Ent {
    match ev.get("authority"@) {
        Some(a) => e.snapshot_applied(a),
        None => match ev.get_u64("authority_epoch"@) {
            Some(n) => e.with_island_epoch(n),
            None => e.spatially_bumped().with_island_epoch(e.bumped_epoch()),
        },
    }
}

fn apply_spatial_authority(e: &mut Entity, ev: &Json)
    ensures
        final(e)@ == spatial_authority(old(e)@, ev@),
{
    match ev.get("authority") {
        Some(a) => apply_authority_snapshot(e, a),
        None => {
            let epoch: u64 = match ev.get_u64("authority_epoch") {
                Some(n) => n,
                None => bump_spatial_authority_epoch(e),
            };
            set_physics_island_authority_epoch(e, epoch);
        },
    }
}

/// The record of a threshold transaction.
pub open spec fn threshold_tx(
    tx_id: Seq<char>,
    phase: Seq<char>,
    from: Doc,
    to: Doc,
    ts_ms: u64,
) -> Doc {
    Doc::Obj(
        map![
            "tx_id"@ => Doc::Str(tx_id),
            "phase"@ => Doc::Str(phase),
            "from"@ => from,
            "to"@ => to,
            "ts_ms"@ => Doc::Num(Num::Pos(ts_ms))],
    )
}

/// The record of a threshold transaction.
pub fn threshold_tx_value(tx_id: &str, phase: &str, from: Json, to: Json, ts_ms: u64) -> (r: Json)
    ensures
        r@ == threshold_tx(tx_id@, phase@, from@, to@, ts_ms),
{
    StrMap::new().with("tx_id", Json::str(tx_id)).with("phase", Json::str(phase)).with(
        "from",
        from,
    ).with("to", to).with("ts_ms", Json::u64(ts_ms)).done()
}

/// The record of a threshold transaction that an event describes.
pub open spec fn ev_threshold(ev: Doc, phase: Seq<char>) -> Doc {
    threshold_tx(
        text_or(ev.get_str("tx_id"@), ""@),
        phase,
        or_null(ev.get("from"@)),
        or_null(ev.get("to"@)),
        num_or(ev.get_u64("ts_ms"@), 0),
    )
}

fn event_threshold(ev: &Json, phase: &str) -> (r: Json)
    ensures
        r@ == ev_threshold(ev@, phase@),
{
    threshold_tx_value(
        ev.str_or("tx_id", ""),
        phase,
        ev.member("from"),
        ev.member("to"),
        ev.u64_or("ts_ms", 0),
    )
}

/// The entity that a `transfer` moved.
pub open spec fn transferred(e: Ent, ev: Doc) -> Ent {
    let moved = Ent {
        region: text_or(ev.get_str("to"@), e.region),
        pos: if ev.get("pos"@) is Some { point_of(ev.get("pos"@)) } else { e.pos },
        vel: if ev.get("vel"@) is Some { point_of(ev.get("vel"@)) } else { e.vel },
        version: ev_version(ev, e),
        ..e
    };
    spatial_authority(moved, ev)
}

/// The entity whose epochs an event sets.
pub open spec fn epoch_set(e: Ent, ev: Doc) -> Ent {
    let comp = text_or(ev.get_str("comp"@), "pos"@);
    let epoch = num_or(ev.get_u64("authority_epoch"@), e.epoch(comp));
    let set = match ev.get("authority"@) {
        Some(a) => e.snapshot_applied(a),
        None => if comp == "pos"@ || comp == "physics_island"@ {
            e.with_island_epoch(epoch)
        } else {
            e.with_epoch(comp, epoch)
        },
    };
    Ent { version: ev_version(ev, e), ..set }
}

/// The entity whose authority over one component an event sets.
pub open spec fn component_granted(e: Ent, ev: Doc) -> Ent {
    let comp = ev_comp(ev);
    let a = e.recorded(comp);
    let mode = match ev.get_str("mode"@) {
        Some(m) => AuthorityMode::of_wire(m),
        None => None,
    };
    Ent {
        version: ev_version(ev, e),
        ..e.ensured(comp).with_auth(
            comp,
            Auth {
                owner: ev.get_str("owner"@),
                epoch: num_or(ev.get_u64("authority_epoch"@), a.epoch),
                mode: match mode {
                    Some(m) => m,
                    None => a.mode,
                },
            },
        )
    }
}

/// The entity that a threshold transaction moved.
pub open spec fn threshold_committed(e: Ent, ev: Doc) -> Ent {
    let moved = match ev.get_str("to"@) {
        Some(to) => if to.len() > 0 {
            Ent { region: to, ..e }
        } else {
            e
        },
        None => e,
    };
    let held = spatial_authority(moved, ev);
    Ent {
        components: held.components.insert("threshold.tx"@, ev_threshold(ev, "commit"@)),
        version: ev_version(ev, e),
        ..held
    }
}

/// What an event that speaks of one entity makes of it.
pub open spec fn ent_replayed(e: Ent, kind: Seq<char>, ev: Doc) -> Ent {
    if kind == "write"@ {
        Ent {
            version: ev_version(ev, e),
            ..component_set(e, ev_comp(ev), or_null(ev.get("value"@))).ensured(ev_comp(ev))
        }
    } else if kind == "component_add"@ {
        Ent {
            version: ev_version(ev, e),
            ..(Ent {
                components: e.components.insert(ev_comp(ev), or_null(ev.get("value"@))),
                ..e
            }).ensured(ev_comp(ev))
        }
    } else if kind == "component_remove"@ {
        Ent { components: e.components.remove(ev_comp(ev)), version: ev_version(ev, e), ..e }
    } else if kind == "transfer"@ {
        transferred(e, ev)
    } else if kind == "authority_epoch"@ {
        epoch_set(e, ev)
    } else if kind == "component_authority"@ {
        component_granted(e, ev)
    } else if kind == "threshold_prepare"@ {
        Ent {
            components: e.components.insert("threshold.tx"@, ev_threshold(ev, "prepare"@)),
            version: ev_version(ev, e),
            ..e
        }
    } else if kind == "threshold_preload_ready"@ {
        Ent {
            components: e.components.insert("threshold.tx"@, ev_threshold(ev, "preload_ready"@)),
            version: ev_version(ev, e),
            ..e
        }
    } else if kind == "threshold_commit"@ {
        threshold_committed(e, ev)
    } else if kind == "threshold_adopt"@ || kind == "threshold_abort"@ {
        Ent { components: e.components.remove("threshold.tx"@), version: ev_version(ev, e), ..e }
    } else {
        e
    }
}

fn replay_component_authority(e: &mut Entity, ev: &Json)
    ensures
        final(e)@ == component_granted(old(e)@, ev@),
{
    let comp = ev.str_or("comp", "");
    ensure_component_authority(e, comp);
    if let Some(ca) = e.authority.remove(comp) {
        let mode = match ev.get_str("mode") {
            Some(m) => match AuthorityMode::from_wire_str(m) {
                Some(mode) => mode,
                None => ca.mode,
            },
            None => ca.mode,
        };
        e.authority.insert(
            comp,
            ComponentAuthority {
                owner: to_opt_string(ev.get_str("owner")),
                epoch: ev.u64_or("authority_epoch", ca.epoch),
                mode,
            },
        );
    }
    e.version = ev.u64_or("version", e.version);
    proof {
        assert(e@.authority =~= component_granted(old(e)@, ev@).authority);
    }
}

fn replay_epoch(e: &mut Entity, ev: &Json)
    ensures
        final(e)@ == epoch_set(old(e)@, ev@),
{
    let comp = ev.str_or("comp", "pos");
    let epoch: u64 = match ev.get_u64("authority_epoch") {
        Some(n) => n,
        None => component_authority_epoch(e, comp),
    };
    match ev.get("authority") {
        Some(a) => apply_authority_snapshot(e, a),
        None => {
            if str_eq(comp, "pos") || str_eq(comp, "physics_island") {
                set_physics_island_authority_epoch(e, epoch);
            } else {
                set_component_authority_epoch(e, comp, epoch);
            }
        },
    }
    e.version = ev.u64_or("version", e.version);
}

fn replay_on_entity(e: &mut Entity, kind: &str, ev: &Json)
    ensures
        final(e)@ == ent_replayed(old(e)@, kind@, ev@),
{
    let ghost before = e@;
    if str_eq(kind, "write") {
        let comp = ev.str_or("comp", "");
        let v = ev.member("value");
        set_component(e, comp, &v);
        ensure_component_authority(e, comp);
        e.version = ev.u64_or("version", e.version);
    } else if str_eq(kind, "component_add") {
        let comp = ev.str_or("comp", "");
        e.components.insert(comp, ev.member("value"));
        ensure_component_authority(e, comp);
        e.version = ev.u64_or("version", e.version);
    } else if str_eq(kind, "component_remove") {
        e.components.remove(ev.str_or("comp", ""));
        e.version = ev.u64_or("version", e.version);
    } else if str_eq(kind, "transfer") {
        if let Some(to) = ev.get_str("to") {
            e.region = to.to_owned();
        }
        if ev.get("pos").is_some() {
            e.pos = arr2(ev.get("pos"));
        }
        if ev.get("vel").is_some() {
            e.vel = arr2(ev.get("vel"));
        }
        e.version = ev.u64_or("version", e.version);
        apply_spatial_authority(e, ev);
    } else if str_eq(kind, "authority_epoch") {
        replay_epoch(e, ev);
    } else if str_eq(kind, "component_authority") {
        replay_component_authority(e, ev);
    } else if str_eq(kind, "threshold_prepare") {
        e.components.insert("threshold.tx", event_threshold(ev, "prepare"));
        e.version = ev.u64_or("version", e.version);
    } else if str_eq(kind, "threshold_preload_ready") {
        e.components.insert("threshold.tx", event_threshold(ev, "preload_ready"));
        e.version = ev.u64_or("version", e.version);
    } else if str_eq(kind, "threshold_commit") {
        if let Some(to) = ev.get_str("to") {
            if !to.is_empty() {
                e.region = to.to_owned();
            }
        }
        apply_spatial_authority(e, ev);
        e.components.insert("threshold.tx", event_threshold(ev, "commit"));
        e.version = ev.u64_or("version", e.version);
    } else if str_eq(kind, "threshold_adopt") || str_eq(kind, "threshold_abort") {
        e.components.remove("threshold.tx");
        e.version = ev.u64_or("version", e.version);
    }
}

/// The entity after a grant of a failover or of a block migration.
pub open spec fn granted(e: Ent, grant: Doc) -> Ent {
    let held = match grant.get("authority"@) {
        Some(a) => e.snapshot_applied(a),
        None => e.with_island_epoch(num_or(grant.get_u64("authority_epoch"@), e.epoch("pos"@))),
    };
    Ent { version: ev_version(grant, e), ..held }
}

fn replay_grant(e: &mut Entity, grant: &Json)
    ensures
        final(e)@ == granted(old(e)@, grant@),
{
    match grant.get("authority") {
        Some(a) => apply_authority_snapshot(e, a),
        None => {
            let epoch: u64 = match grant.get_u64("authority_epoch") {
                Some(n) => n,
                None => component_authority_epoch(e, "pos"),
            };
            set_physics_island_authority_epoch(e, epoch);
        },
    }
    e.version = grant.u64_or("version", e.version);
}

impl Store {
    /// The store with the entity at `eid`, where it lives, replaced.
    pub open spec fn entity_set(self, eid: Seq<char>, e: Ent) -> Store {
        if !self.tombstones.contains(eid) && self.entities.contains_key(eid) {
            Store { entities: self.entities.insert(eid, e), ..self }
        } else {
            self
        }
    }

    /// The store after some grants.
    pub open spec fn all_granted(self, grants: Seq<Doc>) -> Store
        decreases grants.len(),
    {
        if grants.len() == 0 {
            self
        } else {
            let s = self.all_granted(grants.drop_last());
            let eid = ev_entity(grants.last());
            s.entity_set(eid, granted(s.entities[eid], grants.last()))
        }
    }

    /// The store with a departure's epoch recorded: the highest counts.
    pub open spec fn departed(self, eid: Seq<char>, epoch: u64) -> Store {
        Store {
            entities: self.entities.remove(eid),
            forwarded: self.forwarded.insert(eid, later_epoch(self.forwarded, eid, epoch)),
            ..self
        }
    }

    /// The store after an event.
    pub open spec fn replayed(self, ev: Doc, resend: bool) -> Store {
        let kind = kind_of(ev);
        let eid = ev_entity(ev);
        if kind == "register"@ {
            if self.tombstones.contains(eid) {
                self
            } else {
                Store {
                    entities: self.entities.insert(eid, registered(ev)),
                    forwarded: self.forwarded.remove(eid),
                    ..self
                }
            }
        } else if kind == "delete_tombstone"@ {
            Store {
                tombstones: self.tombstones.insert(eid),
                entities: self.entities.remove(eid),
                forwarded: self.forwarded.remove(eid),
                ..self
            }
        } else if kind == "mesh_forwarded_fence"@ {
            if self.tombstones.contains(eid) {
                self
            } else {
                Store {
                    pending: self.pending.remove(eid),
                    ..self.departed(eid, num_or(ev.get_u64("authority_epoch"@), 0))
                }
            }
        } else if kind == "failover_grant"@ || kind == "block_migration"@ {
            match ev.get("grants"@) {
                Some(Doc::Arr(grants)) => self.all_granted(grants),
                _ => self,
            }
        } else if kind == "mesh_out"@ {
            let s = self.departed(eid, departure_epoch(ev));
            if resend {
                Store { pending: s.pending.insert(eid, ev), ..s }
            } else {
                s
            }
        } else if kind == "mesh_acked"@ {
            Store {
                entities: self.entities.remove(eid),
                pending: self.pending.remove(eid),
                ..self
            }
        } else if kind == "partition_config"@ {
            Store { partition: Some(ev), ..self }
        } else if kind == "reserve_entity_ids"@ {
            let n = num_or(ev.get_u64("next_id"@), 0);
            Store { id_hwm: if self.id_hwm < n { n } else { self.id_hwm }, ..self }
        } else {
            self.entity_set(eid, ent_replayed(self.entities[eid], kind, ev))
        }
    }

    /// The store after some events.
    pub open spec fn all_replayed(self, events: Seq<Doc>, resend: bool) -> Store
        decreases events.len(),
    {
        if events.len() == 0 {
            self
        } else {
            self.all_replayed(events.drop_last(), resend).replayed(events.last(), resend)
        }
    }

    /// The store with every threshold transaction closed that was not committed.
    pub open spec fn settled(self) -> Store {
        Store { entities: self.entities.map_values(|e: Ent| settled(e)), ..self }
    }
}

/// The higher of an entity's recorded departure epoch and `epoch`.
pub open spec fn later_epoch(forwarded: Map<Seq<char>, u64>, eid: Seq<char>, epoch: u64) -> u64 {
    if forwarded.contains_key(eid) && forwarded[eid] > epoch {
        forwarded[eid]
    } else {
        epoch
    }
}

/// The epoch of a departure: its authority's, or else its generation.
pub open spec fn departure_epoch(ev: Doc) -> u64 {
    match ev.get_u64("authority_epoch"@) {
        Some(n) => n,
        None => num_or(ev.get_u64("source_durable_gen"@), 0),
    }
}

/// Whether the entity's threshold transaction was committed.
pub open spec fn threshold_is_committed(e: Ent) -> bool {
    e.components.contains_key("threshold.tx"@) && e.components["threshold.tx"@].get_str("phase"@)
        == Some("commit"@)
}

/// The entity without a threshold transaction that was not committed.
pub open spec fn settled(e: Ent) -> Ent {
    if threshold_is_committed(e) {
        e
    } else {
        Ent { components: e.components.remove("threshold.tx"@), ..e }
    }
}

/// The store that a log's events build. A crash before a threshold transaction
/// was committed counts as its abort.
pub open spec fn store_of(events: Seq<Doc>, resend: bool) -> Store {
    Store::empty().all_replayed(events, resend).settled()
}

/// Records the higher departure epoch of an entity.
pub fn raise_epoch(forwarded: &mut StrMap<u64>, eid: &str, epoch: u64)
    ensures
        final(forwarded)@ == old(forwarded)@.insert(
            eid@,
            later_epoch(old(forwarded)@, eid@, epoch),
        ),
{
    let n: u64 = match forwarded.get(eid) {
        Some(old) => if *old > epoch {
            *old
        } else {
            epoch
        },
        None => epoch,
    };
    forwarded.insert(eid, n);
}

fn replay_grants(s: &mut ReplayStore, grants: &Vec<Json>)
    ensures
        final(s)@ == old(s)@.all_granted(docs(grants@)),
{
    let ghost before = s@;
    let ghost all = docs(grants@);
    let mut i: usize = 0;
    proof {
        assert(all.take(0) =~= Seq::empty());
    }
    while i < grants.len()
        invariant
            i <= grants.len(),
            all == docs(grants@),
            s@ == before.all_granted(all.take(i as int)),
        decreases grants.len() - i,
    {
        let ghost prior = s@;
        proof {
            assert(all.take(i + 1).drop_last() =~= all.take(i as int));
            assert(all.take(i + 1).last() == grants@[i as int]@);
        }
        let grant = &grants[i];
        let eid = grant.str_or("entity", "");
        if !s.tombstones.contains(eid) {
            if let Some(mut e) = s.entities.remove(eid) {
                replay_grant(&mut e, grant);
                s.entities.insert(eid, e);
                proof {
                    assert(s@.entities =~= prior.entity_set(
                        eid@,
                        granted(prior.entities[eid@], grant@),
                    ).entities);
                }
            } else {
                proof {
                    assert(s@.entities =~= prior.entities);
                }
            }
        }
        i = i + 1;
    }
    proof {
        assert(all.take(i as int) =~= all);
    }
}

/// Applies one event to the store.
pub fn replay_event(s: &mut ReplayStore, ev: &Json, resend: bool)
    ensures
        final(s)@ == old(s)@.replayed(ev@, resend),
{
    let ghost before = s@;
    let kind = wal_event_kind(ev);
    let kind = kind.as_str();
    let eid = ev.str_or("entity", "");
    if str_eq(kind, "register") {
        if s.tombstones.contains(eid) {
            return;
        }
        s.mesh_forwarded_epoch.remove(eid);
        s.entities.insert(eid, registered_entity(ev));
    } else if str_eq(kind, "delete_tombstone") {
        s.tombstones.insert(eid);
        s.entities.remove(eid);
        s.mesh_forwarded_epoch.remove(eid);
    } else if str_eq(kind, "mesh_forwarded_fence") {
        if s.tombstones.contains(eid) {
            return;
        }
        s.entities.remove(eid);
        s.recovered_pending.remove(eid);
        raise_epoch(&mut s.mesh_forwarded_epoch, eid, ev.u64_or("authority_epoch", 0));
    } else if str_eq(kind, "failover_grant") || str_eq(kind, "block_migration") {
        if let Some(g) = ev.get("grants") {
            if let Some(grants) = g.as_array() {
                replay_grants(s, grants);
            }
        }
    } else if str_eq(kind, "mesh_out") {
        s.entities.remove(eid);
        let epoch: u64 = match ev.get_u64("authority_epoch") {
            Some(n) => n,
            None => ev.u64_or("source_durable_gen", 0),
        };
        raise_epoch(&mut s.mesh_forwarded_epoch, eid, epoch);
        if resend {
            s.recovered_pending.insert(eid, ev.dup());
        }
    } else if str_eq(kind, "mesh_acked") {
        s.entities.remove(eid);
        s.recovered_pending.remove(eid);
    } else if str_eq(kind, "partition_config") {
        s.last_partition = Some(ev.dup());
    } else if str_eq(kind, "reserve_entity_ids") {
        let n: u64 = ev.u64_or("next_id", 0);
        if s.recovered_id_hwm < n {
            s.recovered_id_hwm = n;
        }
    } else if !s.tombstones.contains(eid) {
        if let Some(mut e) = s.entities.remove(eid) {
            replay_on_entity(&mut e, kind, ev);
            s.entities.insert(eid, e);
            proof {
                assert(s@.entities =~= before.entities.insert(
                    eid@,
                    ent_replayed(before.entities[eid@], kind@, ev@),
                ));
            }
        } else {
            proof {
                assert(s@.entities =~= before.entities);
            }
        }
    }
}

fn settle(s: &mut ReplayStore)
    ensures
        final(s)@ == old(s)@.settled(),
{
    let ghost before = s@;
    let ids = s.entities.keys();
    let ghost order = s.entities.order();
    let mut i: usize = 0;
    while i < ids.len()
        invariant
            i <= ids.len(),
            texts(ids@) == order,
            order.no_duplicates(),
            order.to_set() == before.entities.dom(),
            s@ == (Store { entities: s@.entities, ..before }),
            s@.entities.dom() == before.entities.dom(),
            forall|k: Seq<char>|
                #[trigger] before.entities.contains_key(k) ==> s@.entities[k] == if order.take(
                    i as int,
                ).contains(k) {
                    settled(before.entities[k])
                } else {
                    before.entities[k]
                },
        decreases ids.len() - i,
    {
        let ghost seen = order.take(i as int);
        let ghost k0 = ids@[i as int]@;
        let eid = ids[i].as_str();
        proof {
            assert(order[i as int] == k0);
            assert(order.contains(k0));
            assert(order.to_set().contains(k0));
            if seen.contains(k0) {
                let j = choose|j: int| 0 <= j < seen.len() && seen[j] == k0;
                assert(order[j] == order[i as int]);
            }
        }
        if let Some(mut e) = s.entities.remove(eid) {
            let committed: bool = match e.components.get("threshold.tx") {
                Some(tx) => match tx.get_str("phase") {
                    Some(p) => str_eq(p, "commit"),
                    None => false,
                },
                None => false,
            };
            if !committed {
                e.components.remove("threshold.tx");
            }
            s.entities.insert(eid, e);
        }
        i = i + 1;
        proof {
            assert(order.take(i as int) =~= seen.push(k0));
            assert forall|k: Seq<char>| #[trigger] order.take(i as int).contains(k) <==> (
            seen.contains(k) || k == k0) by {
                crate::json::lemma_push_contains(seen, k0, k);
            }
            assert(s@.entities.dom() =~= before.entities.dom());
        }
    }
    proof {
        assert(order.take(i as int) =~= order);
        assert forall|k: Seq<char>| before.entities.contains_key(k) == order.contains(k) by {
            assert(order.to_set().contains(k) == order.contains(k));
        }
        assert(s@.entities =~= before.settled().entities);
    }
}

/// Builds the store from the events of a log. Where `resend` is off, unconfirmed
/// departures are not kept to be sent again.
pub fn apply_wal_events(events: &Vec<Json>, resend: bool) -> (r: ReplayStore)
    ensures
        r@ == store_of(docs(events@), resend),
{
    let mut s = ReplayStore {
        entities: StrMap::new(),
        tombstones: StrSet::new(),
        last_partition: None,
        recovered_pending: StrMap::new(),
        mesh_forwarded_epoch: StrMap::new(),
        recovered_id_hwm: 0,
    };
    let ghost all = docs(events@);
    let mut i: usize = 0;
    proof {
        assert(all.take(0) =~= Seq::empty());
        assert(s@ =~= Store::empty());
    }
    while i < events.len()
        invariant
            i <= events.len(),
            all == docs(events@),
            s@ == Store::empty().all_replayed(all.take(i as int), resend),
        decreases events.len() - i,
    {
        proof {
            assert(all.take(i + 1).drop_last() =~= all.take(i as int));
            assert(all.take(i + 1).last() == events@[i as int]@);
        }
        replay_event(&mut s, &events[i], resend);
        i = i + 1;
    }
    proof {
        assert(all.take(i as int) =~= all);
    }
    settle(&mut s);
    s
}

/// Nothing comes back from the dead: whatever follows a deletion in the log, the
/// entity is not in the store.
pub proof fn law_deleted_stays_deleted(s: Store, events: Seq<Doc>, resend: bool, eid: Seq<char>)
    requires
        s.tombstones.contains(eid),
        !s.entities.contains_key(eid),
    ensures
        s.all_replayed(events, resend).tombstones.contains(eid),
        !s.all_replayed(events, resend).entities.contains_key(eid),
    decreases events.len(),
{
    if events.len() > 0 {
        law_deleted_stays_deleted(s, events.drop_last(), resend, eid);
        let t = s.all_replayed(events.drop_last(), resend);
        let ev = events.last();
        if let Some(Doc::Arr(grants)) = ev.get("grants"@) {
            lemma_grants_keep_dom(t, grants);
        }
    }
}

proof fn lemma_grants_keep_dom(s: Store, grants: Seq<Doc>)
    ensures
        s.all_granted(grants).entities.dom() == s.entities.dom(),
        s.all_granted(grants).tombstones == s.tombstones,
        s.all_granted(grants).id_hwm == s.id_hwm,
        s.all_granted(grants).forwarded == s.forwarded,
        s.all_granted(grants).pending == s.pending,
        s.all_granted(grants).partition == s.partition,
    decreases grants.len(),
{
    if grants.len() > 0 {
        lemma_grants_keep_dom(s, grants.drop_last());
        let t = s.all_granted(grants.drop_last());
        let eid = ev_entity(grants.last());
        assert(s.all_granted(grants).entities.dom() =~= s.entities.dom());
    }
}

/// A log that deletes an entity, restored, does not hold it, whatever came after.
pub proof fn law_recovery_keeps_tombstones(events: Seq<Doc>, resend: bool, i: int)
    requires
        0 <= i < events.len(),
        kind_of(events[i]) == "delete_tombstone"@,
    ensures
        store_of(events, resend).tombstones.contains(ev_entity(events[i])),
        !store_of(events, resend).entities.contains_key(ev_entity(events[i])),
{
    let eid = ev_entity(events[i]);
    let a = events.take(i + 1);
    assert(a.drop_last() =~= events.take(i));
    assert(a.last() == events[i]);
    let s = Store::empty().all_replayed(a, resend);
    lemma_kinds_differ();
    assert(s.tombstones.contains(eid));
    assert(!s.entities.contains_key(eid));
    law_deleted_stays_deleted(s, events.skip(i + 1), resend, eid);
    lemma_replay_append(Store::empty(), a, events.skip(i + 1), resend);
    assert(a + events.skip(i + 1) =~= events);
}

/// The kinds of events that replay tells apart first are different texts.
pub proof fn lemma_kinds_differ()
    ensures
        "register"@ != "delete_tombstone"@,
        "register"@ != "partition_config"@,
        "register"@ != "mesh_forwarded_fence"@,
        "delete_tombstone"@ != "partition_config"@,
        "delete_tombstone"@ != "mesh_forwarded_fence"@,
        "mesh_forwarded_fence"@ != "partition_config"@,
        "failover_grant"@ != "partition_config"@,
        "block_migration"@ != "partition_config"@,
        "mesh_out"@ != "partition_config"@,
        "mesh_acked"@ != "partition_config"@,
        "reserve_entity_ids"@ != "register"@,
        "reserve_entity_ids"@ != "delete_tombstone"@,
        "reserve_entity_ids"@ != "mesh_forwarded_fence"@,
        "reserve_entity_ids"@ != "failover_grant"@,
        "reserve_entity_ids"@ != "block_migration"@,
        "reserve_entity_ids"@ != "mesh_out"@,
        "reserve_entity_ids"@ != "mesh_acked"@,
        "reserve_entity_ids"@ != "partition_config"@,
{
    reveal_strlit("reserve_entity_ids");
    reveal_strlit("register");
    reveal_strlit("delete_tombstone");
    reveal_strlit("partition_config");
    reveal_strlit("mesh_forwarded_fence");
    reveal_strlit("failover_grant");
    reveal_strlit("block_migration");
    reveal_strlit("mesh_out");
    reveal_strlit("mesh_acked");
    assert("delete_tombstone"@[0] != "partition_config"@[0]);
    assert("register"@.len() == 8);
    assert("delete_tombstone"@.len() == 16);
    assert("partition_config"@.len() == 16);
    assert("mesh_forwarded_fence"@.len() == 20);
    assert("failover_grant"@.len() == 14);
    assert("block_migration"@.len() == 15);
    assert("mesh_out"@.len() == 8);
    assert("mesh_acked"@.len() == 10);
    assert("reserve_entity_ids"@.len() == 18);
}

/// Replaying two logs in a row is replaying them joined.
pub proof fn lemma_replay_append(s: Store, a: Seq<Doc>, b: Seq<Doc>, resend: bool)
    ensures
        s.all_replayed(a + b, resend) == s.all_replayed(a, resend).all_replayed(b, resend),
    decreases b.len(),
{
    if b.len() == 0 {
        assert(a + b =~= a);
    } else {
        lemma_replay_append(s, a, b.drop_last(), resend);
        assert((a + b).drop_last() =~= a + b.drop_last());
        assert((a + b).last() == b.last());
    }
}

/// Reserved numbers are never given out again: the mark that replay restores is
/// not below any that the log recorded.
pub proof fn law_reservations_never_shrink(s: Store, events: Seq<Doc>, resend: bool)
    ensures
        s.all_replayed(events, resend).id_hwm >= s.id_hwm,
        forall|i: int|
            0 <= i < events.len() && kind_of(#[trigger] events[i]) == "reserve_entity_ids"@
                ==> s.all_replayed(events, resend).id_hwm >= num_or(
                events[i].get_u64("next_id"@),
                0,
            ),
    decreases events.len(),
{
    if events.len() > 0 {
        let d = events.drop_last();
        law_reservations_never_shrink(s, d, resend);
        let t = s.all_replayed(d, resend);
        let ev = events.last();
        if let Some(Doc::Arr(grants)) = ev.get("grants"@) {
            lemma_grants_keep_dom(t, grants);
        }
        lemma_kinds_differ();
        assert(t.replayed(ev, resend).id_hwm >= t.id_hwm);
        assert forall|i: int|
            0 <= i < events.len() && kind_of(#[trigger] events[i]) == "reserve_entity_ids"@ implies
            s.all_replayed(events, resend).id_hwm >= num_or(
            events[i].get_u64("next_id"@),
            0,
        ) by {
            if i < d.len() {
                assert(d[i] == events[i]);
            }
        }
    }
}

/// A torn transaction is an aborted one: after recovery every threshold transaction
/// that is left was committed.
pub proof fn law_no_half_open_threshold(events: Seq<Doc>, resend: bool, eid: Seq<char>)
    requires
        store_of(events, resend).entities.contains_key(eid),
        store_of(events, resend).entities[eid].components.contains_key("threshold.tx"@),
    ensures
        threshold_is_committed(store_of(events, resend).entities[eid]),
{
}

}

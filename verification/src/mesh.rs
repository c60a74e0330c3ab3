//! The mesh: entities that go to and come from neighbour brokers.

use vstd::prelude::*;
use vstd::string::*;
use crate::authority::{
    authority_doc, authority_to_json, island_epoch, physics_island_component_names,
};
use crate::doc::{Doc, Json, Num};
use crate::entity::{succ, Auth, AuthorityMode, ComponentAuthority, Ent, Entity};
use crate::handoff::{at, u64_at};
use crate::json::opt_u64_doc;
use crate::order::sorted;
use crate::recovery::{later_epoch, raise_epoch};
use crate::sight::{hide_from_all, sorted_keys};
use crate::state::{
    note_rejected, views, Metrics, Out, Parked, PendingMesh, Sent, ServerState, State, WalStatus,
};
use crate::strmap::{texts, Dup, StrMap};

verus! {

broadcast use {crate::doc::group_json, crate::strmap::group_map};

/// The authorities that travel with an entity: all that moves together goes
/// without an owner and under a new epoch.
pub open spec fn departing_authority(e: Ent, epoch: u64) -> Map<Seq<char>, Auth> {
    Map::new(
        |c: Seq<char>| e.authority.contains_key(c) || e.island().contains(c),
        |c: Seq<char>|
            if e.island().contains(c) {
                Auth { owner: None, epoch, mode: AuthorityMode::ServerPhysicsIsland }
            } else {
                e.authority[c]
            },
    )
}

fn departing_authority_map(e: &Entity, epoch: u64) -> (r: StrMap<ComponentAuthority>)
    ensures
        r@ == departing_authority(e@, epoch),
{
    let comps = physics_island_component_names(&e.components, &e.authority);
    let ghost names = texts(comps@);
    let mut out = e.authority.dup();
    let mut i: usize = 0;
    while i < comps.len()
        invariant
            i <= comps.len(),
            names == texts(comps@),
            forall|k: Seq<char>|
                #[trigger] out@.contains_key(k) <==> e@.authority.contains_key(k) || names.take(
                    i as int,
                ).contains(k),
            forall|k: Seq<char>|
                #[trigger] out@.contains_key(k) ==> out@[k] == if names.take(i as int).contains(k) {
                    Auth { owner: None, epoch, mode: AuthorityMode::ServerPhysicsIsland }
                } else {
                    e@.authority[k]
                },
        decreases comps.len() - i,
    {
        let ghost seen = names.take(i as int);
        let ghost c = comps@[i as int]@;
        out.insert(
            comps[i].as_str(),
            ComponentAuthority { owner: None, epoch, mode: AuthorityMode::ServerPhysicsIsland },
        );
        i = i + 1;
        proof {
            assert(names[i - 1] == c);
            assert(names.take(i as int) =~= seen.push(c));
            assert forall|k: Seq<char>| #[trigger] names.take(i as int).contains(k) <==> (
            seen.contains(k) || k == c) by {
                crate::json::lemma_push_contains(seen, c, k);
            }
        }
    }
    proof {
        assert(names.take(i as int) =~= names);
        assert forall|k: Seq<char>| e@.island().contains(k) == names.contains(k) by {
            assert(names.to_set().contains(k) == names.contains(k));
        }
        assert(out@ =~= departing_authority(e@, epoch));
    }
    out
}

/// A departure that is ready for the log.
pub struct Departure {
    pub eid: String,
    pub target: String,
    pub authority_epoch: u64,
    pub gen: u64,
    pub src_region: String,
    pub lease_epoch: Option<u64>,
    /// What the neighbour is sent.
    pub handoff: Json,
    /// What the log is told.
    pub event: Json,
}

/// A `Departure` by its views.
#[verifier::ext_equal]
pub ghost struct Leave {
    pub eid: Seq<char>,
    pub target: Seq<char>,
    pub authority_epoch: u64,
    pub gen: u64,
    pub src_region: Seq<char>,
    pub lease_epoch: Option<u64>,
    pub handoff: Doc,
    pub event: Doc,
}

impl View for Departure {
    type V = Leave;

    open spec fn view(&self) -> Leave {
        Leave {
            eid: self.eid@,
            target: self.target@,
            authority_epoch: self.authority_epoch,
            gen: self.gen,
            src_region: self.src_region@,
            lease_epoch: self.lease_epoch,
            handoff: self.handoff@,
            event: self.event@,
        }
    }
}

impl State {
    /// Whether another incarnation has taken over this broker's region.
    pub open spec fn is_superseded(self) -> bool {
        self.my_region.len() > 0 && self.superseded_regions.contains(self.my_region)
    }

    /// Whether an entity can leave for a neighbour now: it is here, this broker still
    /// owns its region, and the link is up.
    pub open spec fn can_leave(self, eid: Seq<char>, target: Seq<char>) -> bool {
        self.entities.contains_key(eid) && !self.is_superseded() && self.mesh.contains(target)
    }

    /// The departure of an entity.
    pub open spec fn departure_of(self, eid: Seq<char>, target: Seq<char>) -> Leave {
        let e = self.entities[eid];
        let epoch = e.next_island_epoch();
        let authority = authority_doc(departing_authority(e, epoch));
        let lease = at(self.region_lease_epoch, self.my_region);
        let gen = succ(self.wal.pending_gen);
        Leave {
            eid,
            target,
            authority_epoch: epoch,
            gen,
            src_region: self.my_region,
            lease_epoch: lease,
            handoff: Doc::Obj(
                map![
                    "op"@ => Doc::Str("MeshHandoff"@),
                    "entity"@ => Doc::Str(eid),
                    "target"@ => Doc::Str(target),
                    "pos"@ => e.pos.doc(),
                    "vel"@ => e.vel.doc(),
                    "authority_epoch"@ => Doc::Num(Num::Pos(epoch)),
                    "authority"@ => authority,
                    "src_region"@ => Doc::Str(self.my_region),
                    "lease_epoch"@ => opt_u64_doc(lease),
                    "source_durable_gen"@ => Doc::Num(Num::Pos(gen)),
                    "components"@ => Doc::Obj(e.components)],
            ),
            event: Doc::Obj(
                map![
                    "kind"@ => Doc::Str("mesh_out"@),
                    "entity"@ => Doc::Str(eid),
                    "target"@ => Doc::Str(target),
                    "authority_epoch"@ => Doc::Num(Num::Pos(epoch)),
                    "authority"@ => authority,
                    "src_region"@ => Doc::Str(self.my_region),
                    "lease_epoch"@ => opt_u64_doc(lease),
                    "source_durable_gen"@ => Doc::Num(Num::Pos(gen)),
                    "gen"@ => Doc::Num(Num::Pos(gen)),
                    "pos"@ => e.pos.doc(),
                    "vel"@ => e.vel.doc(),
                    "components"@ => Doc::Obj(e.components)],
            ),
        }
    }

    /// The state once a departure is written to the log.
    pub open spec fn departure_written(self, d: Leave) -> State {
        State { wal: WalStatus { pending_gen: d.gen, ..self.wal }, ..self }
    }

    /// The state once a departure is durable: the entity is parked until the
    /// neighbour confirms it, gone from here and from everybody's sight, and on its
    /// way.
    pub open spec fn departed(self, d: Leave, now_ms: u64) -> State {
        (State {
            wal: WalStatus {
                durable_gen: if self.wal.durable_gen < d.gen {
                    d.gen
                } else {
                    self.wal.durable_gen
                },
                ..self.wal
            },
            mesh_forwarded_epoch: self.mesh_forwarded_epoch.insert(
                d.eid,
                later_epoch(self.mesh_forwarded_epoch, d.eid, d.authority_epoch),
            ),
            pending_mesh: self.pending_mesh.insert(
                d.eid,
                Parked { frame: d.handoff, sent_ms: now_ms, target: d.target },
            ),
            entities: self.entities.remove(d.eid),
            outbox: self.outbox.push(Sent::Mesh { region: d.target, msg: d.handoff }),
            metrics: Metrics { mesh_handoffs: succ(self.metrics.mesh_handoffs), ..self.metrics },
            ..self
        }).hidden_from_all(d.eid)
    }
}

/// Prepares the departure of an entity to a neighbour. Where it cannot leave now it
/// stays here, and a later move tries again.
pub fn prepare_mesh_forward(s: &ServerState, eid: &str, target: &str) -> (r: Option<Departure>)
    ensures
        match r {
            Some(d) => s@.can_leave(eid@, target@) && d@ == s@.departure_of(eid@, target@),
            None => !s@.can_leave(eid@, target@),
        },
{
    let e = match s.entities.get(eid) {
        Some(e) => e,
        None => return None,
    };
    if !s.my_region.as_str().is_empty() && s.superseded_regions.contains(s.my_region.as_str()) {
        return None;
    }
    if !s.mesh.contains(target) {
        return None;
    }
    let epoch: u64 = island_epoch(e).saturating_add(1);
    let map = departing_authority_map(e, epoch);
    let authority = authority_to_json(&map);
    let lease = u64_at(&s.region_lease_epoch, s.my_region.as_str());
    let gen: u64 = s.wal.pending_gen.saturating_add(1);
    let handoff = StrMap::new().with("op", Json::str("MeshHandoff")).with("entity", Json::str(eid)).with(
        "target",
        Json::str(target),
    ).with("pos", e.pos.json()).with("vel", e.vel.json()).with("authority_epoch", Json::u64(epoch)).with(
        "authority",
        authority.dup(),
    ).with("src_region", Json::str(s.my_region.as_str())).with("lease_epoch", Json::opt_u64(lease)).with(
        "source_durable_gen",
        Json::u64(gen),
    ).with("components", e.components.dup().done()).done();
    let event = StrMap::new().with("kind", Json::str("mesh_out")).with("entity", Json::str(eid)).with(
        "target",
        Json::str(target),
    ).with("authority_epoch", Json::u64(epoch)).with("authority", authority).with(
        "src_region",
        Json::str(s.my_region.as_str()),
    ).with("lease_epoch", Json::opt_u64(lease)).with("source_durable_gen", Json::u64(gen)).with(
        "gen",
        Json::u64(gen),
    ).with("pos", e.pos.json()).with("vel", e.vel.json()).with(
        "components",
        e.components.dup().done(),
    ).done();
    Some(
        Departure {
            eid: eid.to_owned(),
            target: target.to_owned(),
            authority_epoch: epoch,
            gen,
            src_region: s.my_region.clone(),
            lease_epoch: lease,
            handoff,
            event,
        },
    )
}

/// Records that a departure is written to the log.
pub fn note_departure_written(s: &mut ServerState, d: &Departure)
    ensures
        final(s)@ == old(s)@.departure_written(d@),
{
    s.wal.pending_gen = d.gen;
}

/// Lets an entity go whose departure is durable.
pub fn complete_mesh_forward(s: &mut ServerState, d: &Departure, now_ms: u64)
    ensures
        final(s)@ == old(s)@.departed(d@, now_ms),
{
    let eid = d.eid.as_str();
    let ghost out = views(s.outbox@);
    if s.wal.durable_gen < d.gen {
        s.wal.durable_gen = d.gen;
    }
    raise_epoch(&mut s.mesh_forwarded_epoch, eid, d.authority_epoch);
    s.pending_mesh.insert(
        eid,
        PendingMesh { frame: d.handoff.dup(), sent_ms: now_ms, target: d.target.clone() },
    );
    s.entities.remove(eid);
    s.outbox.push(Out::Mesh { region: d.target.clone(), msg: d.handoff.dup() });
    proof {
        assert(views(s.outbox@) =~= out.push(Sent::Mesh { region: d@.target, msg: d@.handoff }));
    }
    s.metrics.mesh_handoffs = s.metrics.mesh_handoffs.saturating_add(1);
    hide_from_all(s, eid);
}

proof fn lemma_hidden_keeps(s: State, names: Seq<Seq<char>>, eid: Seq<char>)
    ensures
        s.hidden_from(names, eid) == (State {
            outbox: s.hidden_from(names, eid).outbox,
            workers: s.hidden_from(names, eid).workers,
            ..s
        }),
        s.hidden_from(names, eid).workers.dom() == s.workers.dom(),
    decreases names.len(),
{
    if names.len() > 0 {
        lemma_hidden_keeps(s, names.drop_last(), eid);
        assert(s.hidden_from(names, eid).workers.dom() =~= s.workers.dom());
    }
}

/// An entity is never lost on the way: once its departure is durable it is parked
/// here with what the neighbour is sent, and nowhere else; and the neighbour is not
/// sent anything above the durable generation.
pub proof fn law_departure_parks_the_entity(s: State, eid: Seq<char>, target: Seq<char>, now_ms: u64)
    requires
        s.can_leave(eid, target),
    ensures
        ({
            let d = s.departure_of(eid, target);
            let t = s.departure_written(d).departed(d, now_ms);
            &&& !t.entities.contains_key(eid)
            &&& t.pending_mesh.contains_key(eid)
            &&& t.pending_mesh[eid].frame == d.handoff
            &&& t.entities == s.entities.remove(eid)
            &&& t.wal.durable_gen >= d.gen
            &&& t.mesh_forwarded_epoch[eid] >= d.authority_epoch
        }),
{
    let d = s.departure_of(eid, target);
    let t = s.departure_written(d);
    let mid = State {
        wal: WalStatus {
            durable_gen: if t.wal.durable_gen < d.gen {
                d.gen
            } else {
                t.wal.durable_gen
            },
            ..t.wal
        },
        mesh_forwarded_epoch: t.mesh_forwarded_epoch.insert(
            d.eid,
            later_epoch(t.mesh_forwarded_epoch, d.eid, d.authority_epoch),
        ),
        pending_mesh: t.pending_mesh.insert(
            d.eid,
            Parked { frame: d.handoff, sent_ms: now_ms, target: d.target },
        ),
        entities: t.entities.remove(d.eid),
        outbox: t.outbox.push(Sent::Mesh { region: d.target, msg: d.handoff }),
        metrics: Metrics { mesh_handoffs: succ(t.metrics.mesh_handoffs), ..t.metrics },
        ..t
    };
    lemma_hidden_keeps(mid, sorted(mid.workers.dom()), eid);
}

/// The event that a departure was confirmed.
pub open spec fn ack_event(eid: Seq<char>) -> Doc {
    Doc::Obj(map!["kind"@ => Doc::Str("mesh_acked"@), "entity"@ => Doc::Str(eid)])
}

/// The event that a departure was confirmed.
pub fn mesh_ack_event(eid: &str) -> (r: Json)
    ensures
        r@ == ack_event(eid@),
{
    StrMap::new().with("kind", Json::str("mesh_acked")).with("entity", Json::str(eid)).done()
}

impl State {
    /// The state after a confirmation was recorded, or was not: without the record
    /// the departure stays parked.
    pub open spec fn acked(self, eid: Seq<char>, written: bool) -> State {
        if written {
            State { pending_mesh: self.pending_mesh.remove(eid), ..self }
        } else {
            self.noted(
                Doc::Obj(
                    map![
                        "entity"@ => Doc::Str(eid),
                        "reason"@ => Doc::Str(
                            "wal_persist_failed: mesh ack not durably recorded; keeping pending handoff for resend"@,
                        )],
                ),
            )
        }
    }

    /// The departures that are sent again: those that wait for more than a second
    /// and whose link is up.
    pub open spec fn resent(self, names: Seq<Seq<char>>, now_ms: u64) -> State
        decreases names.len(),
    {
        if names.len() == 0 {
            self
        } else {
            let s = self.resent(names.drop_last(), now_ms);
            let p = self.pending_mesh[names.last()];
            if now_ms - p.sent_ms > 1000 && self.mesh.contains(p.target) {
                State {
                    outbox: s.outbox.push(Sent::Mesh { region: p.target, msg: p.frame }),
                    ..s
                }
            } else {
                s
            }
        }
    }
}

/// Takes a neighbour's confirmation of a departure. What comes out goes to the log; there is
/// nothing to record of an entity that does not wait for one, which may be here again.
pub fn plan_mesh_ack(s: &ServerState, eid: &str) -> (r: Option<Json>)
    ensures
        match r {
            Some(ev) => s@.pending_mesh.contains_key(eid@) && ev@ == ack_event(eid@),
            None => !s@.pending_mesh.contains_key(eid@),
        },
{
    if s.pending_mesh.contains_key(eid) {
        Some(mesh_ack_event(eid))
    } else {
        None
    }
}

/// Records that a neighbour confirmed a departure.
pub fn record_mesh_ack(s: &mut ServerState, eid: &str, written: bool) -> (r: bool)
    ensures
        r == written,
        final(s)@ == old(s)@.acked(eid@, written),
{
    if written {
        s.pending_mesh.remove(eid);
        true
    } else {
        note_rejected(
            s,
            StrMap::new().with("entity", Json::str(eid)).with(
                "reason",
                Json::str(
                    "wal_persist_failed: mesh ack not durably recorded; keeping pending handoff for resend",
                ),
            ).done(),
        );
        false
    }
}

/// Sends the departures again that no neighbour has confirmed.
pub fn resend_pending_mesh(s: &mut ServerState, now_ms: u64)
    ensures
        final(s)@ == old(s)@.resent(sorted(old(s)@.pending_mesh.dom()), now_ms),
{
    let ghost before = s@;
    let ids = sorted_keys(&s.pending_mesh);
    let ghost all = texts(ids@);
    let mut i: usize = 0;
    proof {
        assert(all.take(0) =~= Seq::empty());
    }
    while i < ids.len()
        invariant
            i <= ids.len(),
            all == texts(ids@),
            all.to_set() == before.pending_mesh.dom(),
            s@ == before.resent(all.take(i as int), now_ms),
            s@ == (State { outbox: s@.outbox, ..before }),
        decreases ids.len() - i,
    {
        let eid = ids[i].as_str();
        proof {
            assert(all.take(i + 1).drop_last() =~= all.take(i as int));
            assert(all.take(i + 1).last() == eid@);
            assert(all[i as int] == eid@);
            assert(all.to_set().contains(eid@));
        }
        let mut again: Option<(String, Json)> = None;
        if let Some(p) = s.pending_mesh.get(eid) {
            if now_ms > p.sent_ms && now_ms - p.sent_ms > 1000 && s.mesh.contains(p.target.as_str()) {
                again = Some((p.target.clone(), p.frame.dup()));
            }
        }
        if let Some((region, msg)) = again {
            let ghost out = views(s.outbox@);
            s.outbox.push(Out::Mesh { region, msg });
            proof {
                assert(views(s.outbox@) =~= out.push(Sent::Mesh { region: region@, msg: msg@ }));
            }
        }
        i = i + 1;
    }
    proof {
        assert(all.take(i as int) =~= all);
    }
}

}

//! Where everybody stands: who is let in as what, who may send what, which brokers are
//! neighbours, what is remembered of the partition, and what the broker says of itself.

use vstd::prelude::*;
use vstd::string::*;
use crate::claims::{broker_owned_attributes, broker_owned_regions, resolved, Claims, PeerRole};
use crate::connect::{declared_attributes, Admission};
use crate::control::attentive;
use crate::doc::{float_bits, Doc, Num};
use crate::entity::{initial_authority, succ, AuthorityMode, Ent};
use crate::fidelity::{coarsened, looked_up, rounded_numbers};
use crate::float::float_lt;
use crate::policy::{allowed, op_cost, op_of};
use crate::registry::own_epoch;
use crate::rights::acl_entry;
use crate::state::{Peer, Sent, State};
use crate::topology::{config_of, places};

verus! {

broadcast use {crate::doc::group_json, crate::strmap::group_map};

/// Who is let in: where tokens with claims are configured, a peer whose token has one that is
/// for the region and the attributes which it names, as what the claim says; else one with
/// the shared token where there is one, or anybody. Everybody else is refused.
pub proof fn law_who_is_let_in(
    required: Option<Seq<char>>,
    configured: Map<Seq<char>, Claims>,
    provided: Option<Seq<char>>,
    region: Option<Seq<char>>,
    attributes: Set<Seq<char>>,
)
    ensures
        ({
            let r = resolved(required, configured, provided, region, attributes);
            let c = configured[provided->0];
            let claimed = provided is Some && configured.contains_key(provided->0) && (region is Some
                ==> region->0 == c.region) && (forall|a: Seq<char>| #[trigger]
                attributes.contains(a) ==> c.attributes.contains(a));
            &&& configured.dom().len() > 0 ==> (r is Ok <==> claimed)
            &&& configured.dom().len() > 0 && claimed ==> r == Ok::<Option<Claims>, Seq<char>>(
                Some(c),
            )
            &&& configured.dom().len() == 0 ==> (r is Ok <==> required is None || provided
                == required)
            &&& configured.dom().len() == 0 && r is Ok ==> r == Ok::<Option<Claims>, Seq<char>>(None)
        }),
{
    if provided is Some && configured.contains_key(provided->0) {
        let c = configured[provided->0];
        assert(attributes.subset_of(c.attributes) <==> (forall|a: Seq<char>| #[trigger]
            attributes.contains(a) ==> c.attributes.contains(a)));
    }
}

/// What a connection comes to: only a first message that says who connects is looked at; one
/// of a version that is not spoken here is refused; one that is let in without a claim gets
/// neither a place nor an attribute that only a claim gives.
pub proof fn law_what_connections_come_to(s: State, f: Doc, wid: Seq<char>)
    requires
        f.get_str("worker_id"@) == Some(wid),
        f.get_str("op"@) == Some("WorkerConnect"@),
    ensures
        ({
            let a = s.admission(f);
            let r = resolved(
                s.connect_auth_token,
                s.connect_auth_claims,
                f.get_str("auth_token"@),
                f.get_str("region"@),
                declared_attributes(f),
            );
            let proto = f.get_u64("proto"@);
            let spoken = proto is None || (crate::connect::MIN_PROTO <= proto->0
                <= crate::connect::PROTOCOL_VERSION);
            let region = match f.get_str("region"@) {
                Some(r) => r,
                None => "OBS"@,
            };
            let kept = f.get_str("region"@) is Some && broker_owned_regions().contains(region);
            &&& !spoken || r is Err ==> a is Reject && a->Reject_wid == wid
            &&& spoken && (r matches Ok(Some(c))) ==> a == (Admission::Accept {
                wid,
                region: (r->Ok_0->0).region,
                attributes: (r->Ok_0->0).attributes,
            })
            &&& spoken && r == Ok::<Option<Claims>, Seq<char>>(None) && kept ==> a is Reject
            &&& spoken && r == Ok::<Option<Claims>, Seq<char>>(None) && !kept ==> a
                == (Admission::Accept {
                wid,
                region,
                attributes: declared_attributes(f).difference(broker_owned_attributes()),
            })
        }),
{
}

/// Who may send what: a worker all but what links send; a client what looks, asks and writes
/// its own; an observer what looks; a link what links send; everybody what keeps a
/// connection; and whoever has the attribute for it what only an administrator may.
pub proof fn law_who_may_send_what(role: PeerRole, attrs: Set<Seq<char>>, op: Seq<char>)
    ensures
        ({
            let common = op == "Heartbeat"@ || op == "LogMessage"@ || op == "Metrics"@ || op
                == "Disconnect"@;
            let links = op == "MeshHandoff"@ || op == "MeshAck"@ || op == "MeshGhost"@ || op
                == "MeshGhostRemove"@;
            let looks = op == "Interest"@ || op == "EntityQuery"@;
            let special = op == "Health"@ || (op == "SetComponentAuthority"@ && attrs.contains(
                "kernel_admin"@,
            )) || (op == "SnapshotMarker"@ && (attrs.contains("snapshot"@) || attrs.contains(
                "inspector"@,
            ) || attrs.contains("kernel_admin"@))) || (op == "Drain"@ && (attrs.contains(
                "kernel_admin"@,
            ) || attrs.contains("inspector"@) || attrs.contains("ops"@))) || (op
                == "InspectorQuery"@ && (attrs.contains("inspector"@) || attrs.contains("debug"@)
                || attrs.contains("kernel_admin"@)));
            allowed(role, attrs, op) <==> special || match role {
                PeerRole::Worker => !links,
                PeerRole::Client => common || looks || op == "CommandRequest"@ || op
                    == "UpdateComponent"@,
                PeerRole::Observer => common || looks,
                PeerRole::Mesh => common || links,
            }
        }),
{
}

/// A message that its sender's role may not send, or that its sender cannot pay for, changes
/// nothing but its sender's own count; its sender is told.
pub proof fn law_refused_at_the_door(
    s: State,
    wid: Seq<char>,
    f: Doc,
    cost: Doc,
    tokens: Doc,
    limited: bool,
)
    requires
        s.workers.contains_key(wid),
    ensures
        ({
            let o = s.outcome(wid, f, limited);
            let w = s.workers[wid];
            let t = s.rate_refused(wid, f, cost, tokens);
            &&& o == crate::receive::Outcome::RateLimited <==> limited
            &&& o == crate::receive::Outcome::RoleRefused <==> !limited && !allowed(
                w.role,
                w.attributes,
                op_of(f),
            )
            &&& t.entities == s.entities
            &&& t.workers == s.workers.insert(
                wid,
                Peer { ingress_rejected: succ(w.ingress_rejected), ..w },
            )
            &&& t.outbox.len() == s.outbox.len() + 1
            &&& t.outbox.last() matches Sent::Peer { wid: to, msg } && to == wid && msg.get_str(
                "op"@,
            ) == Some("UpdateRejected"@) && msg.get("rate_limited"@) == Some(Doc::Bool(true))
        }),
{
    reveal_strlit("op");
    reveal_strlit("request_id");
    reveal_strlit("entity");
    reveal_strlit("comp");
    reveal_strlit("error");
    reveal_strlit("rate_limited");
    reveal_strlit("limited_op");
    reveal_strlit("rate_limit_cost");
    reveal_strlit("rate_limit_tokens");
    reveal_strlit("reason");
    assert("op"@.len() == 2 && "request_id"@.len() == 10 && "entity"@.len() == 6 && "comp"@.len() == 4
        && "error"@.len() == 5 && "rate_limited"@.len() == 12 && "limited_op"@.len() == 10
        && "rate_limit_cost"@.len() == 15 && "rate_limit_tokens"@.len() == 17 && "reason"@.len()
        == 6);
}

/// What a message costs: four what makes, ends or searches entities or moves many, two what
/// passes between brokers or peers, and one the rest.
pub proof fn law_what_messages_cost(op: Seq<char>)
    ensures
        op_cost(op) == 4 <==> op == "CreateEntity"@ || op == "DeleteEntity"@ || op
            == "EntityQuery"@ || op == "ReserveEntityIds"@ || op == "SetComponentAuthority"@ || op
            == "BatchUpdate"@ || op == "Fold"@ || op == "CriticalSection"@,
        op_cost(op) == 2 <==> op == "MeshHandoff"@ || op == "MeshGhost"@ || op == "MeshAck"@ || op
            == "CommandRequest"@ || op == "CommandResponse"@,
        op_cost(op) == 1 || op_cost(op) == 2 || op_cost(op) == 4,
{
    reveal_strlit("CreateEntity");
    reveal_strlit("DeleteEntity");
    reveal_strlit("EntityQuery");
    reveal_strlit("ReserveEntityIds");
    reveal_strlit("SetComponentAuthority");
    reveal_strlit("BatchUpdate");
    reveal_strlit("Fold");
    reveal_strlit("CriticalSection");
    reveal_strlit("MeshHandoff");
    reveal_strlit("MeshGhost");
    reveal_strlit("MeshAck");
    reveal_strlit("CommandRequest");
    reveal_strlit("CommandResponse");
    assert("CreateEntity"@.len() == 12 && "DeleteEntity"@.len() == 12 && "EntityQuery"@.len() == 11
        && "ReserveEntityIds"@.len() == 16 && "SetComponentAuthority"@.len() == 21
        && "BatchUpdate"@.len() == 11 && "Fold"@.len() == 4 && "CriticalSection"@.len() == 15
        && "MeshHandoff"@.len() == 11 && "MeshGhost"@.len() == 9 && "MeshAck"@.len() == 7
        && "CommandRequest"@.len() == 14 && "CommandResponse"@.len() == 15);
    assert("MeshHandoff"@[0] == 'M' && "EntityQuery"@[0] == 'E' && "BatchUpdate"@[0] == 'B'
        && "CriticalSection"@[1] == 'r' && "CommandResponse"@[1] == 'o');
}

/// A broker's own lease is newer than any on record, unless it was given one; and it writes
/// into the registry only while none newer is there.
pub proof fn law_own_leases_are_newer(
    region: Seq<char>,
    given: Option<u64>,
    entries: Map<Seq<char>, Doc>,
    n: u64,
)
    requires
        region.len() > 0,
    ensures
        given is Some ==> own_epoch(region, given, entries) == given->0,
        given is None && entries.contains_key(region) && entries[region].get_u64("lease_epoch"@)
            == Some(n) && n < u64::MAX ==> own_epoch(region, given, entries) == n + 1,
        given is None && !entries.contains_key(region) ==> own_epoch(region, given, entries) == 1,
{
}

/// What the registry tells: a neighbour that gave a sign of life in the last five seconds is
/// one that is routed to, with the latest lease that it was seen with; a newer lease of this
/// broker's region at another address means that it was taken over.
pub proof fn law_what_the_registry_tells(
    s: State,
    region: Seq<char>,
    e: Doc,
    own: Seq<char>,
    addr: Seq<char>,
    epoch: u64,
    now_ms: u64,
    seen: u64,
    n: u64,
    at_addr: Seq<char>,
)
    requires
        e.get_u64("hb_ms"@) == Some(seen),
        e.get_u64("lease_epoch"@) == Some(n),
        e.get_str("addr"@) == Some(at_addr),
    ensures
        ({
            let t = s.entry_seen(region, e, own, addr, epoch, now_ms);
            let alive = now_ms - seen < 5000;
            let known = if s.region_lease_epoch.contains_key(region) {
                s.region_lease_epoch[region]
            } else {
                0
            };
            &&& t.entities == s.entities
            &&& region != own && alive ==> t.mesh_regions == s.mesh_regions.insert(region)
            &&& region != own && alive && n > known ==> t.region_lease_epoch
                == s.region_lease_epoch.insert(region, n)
            &&& region != own && alive && n <= known ==> t.region_lease_epoch
                == s.region_lease_epoch
            &&& region != own ==> t.superseded_regions == s.superseded_regions
            &&& region != own && !alive ==> t == s
            &&& region == own && n > epoch && at_addr != addr ==> t.superseded_regions
                == s.superseded_regions.insert(own) && t.mesh_regions == s.mesh_regions
            &&& region == own && !(n > epoch && at_addr != addr) ==> t == s
        }),
{
}

/// A restart remembers the partition: what it takes from the record are the places of its
/// cuts, its splits, its neighbours and its revision, and what the record does not have stays.
pub proof fn law_partition_is_remembered(s: State, old: State)
    requires
        old.mesh_regions.finite(),
        old.boundaries.len() > 0,
    ensures
        ({
            let c = config_of(old.partition_event());
            let t = s.partition_restored(c, old.boundaries);
            &&& s.restored_places(c) == places(old.boundaries)
            &&& t.boundary == old.boundary
            &&& t.boundaries == old.boundaries
            &&& t.splits == old.splits
            &&& t.mesh_regions == old.mesh_regions
            &&& t.entities == s.entities
        }),
{
    crate::topology::law_partition_round_trip(old);
}

/// What a value shows from afar: of a position or a velocity every number is rounded, and
/// what is no number stays; of `physics` the same holds of the four members that move, and
/// every other member stays; any other component stays as it is, and so does everything where
/// the grid is not above zero. The numbers that have to be rounded are the ones that are.
pub proof fn law_what_is_shown_from_afar(
    comp: Seq<char>,
    v: Doc,
    grid: u64,
    table: Seq<(u64, Option<u64>)>,
    i: int,
    k: Seq<char>,
)
    ensures
        ({
            let r = coarsened(comp, v, grid, table);
            let moves = comp == "pos"@ || comp == "vel"@;
            let part = k == "pos"@ || k == "vel"@ || k == "lin"@ || k == "ang"@;
            let shown = |d: Doc| match d.as_float() {
                Some(b) => match looked_up(table, b) {
                    Some(x) => Doc::Num(Num::Float(x)),
                    None => Doc::Null,
                },
                None => d,
            };
            &&& !float_lt(0, grid) ==> r == v && rounded_numbers(comp, v, grid).len() == 0
            &&& !moves && comp != "physics"@ ==> r == v && rounded_numbers(comp, v, grid).len() == 0
            &&& float_lt(0, grid) && moves && v is Arr && 0 <= i < v->Arr_0.len() ==> r is Arr
                && r->Arr_0.len() == v->Arr_0.len() && r->Arr_0[i] == shown(v->Arr_0[i])
            &&& float_lt(0, grid) && comp == "physics"@ && !moves && v is Obj ==> r is Obj && (
            r->Obj_0.contains_key(k) == v->Obj_0.contains_key(k)) && (v->Obj_0.contains_key(k)
                && !part ==> r->Obj_0[k] == v->Obj_0[k]) && (v->Obj_0.contains_key(k) && part
                && v->Obj_0[k] is Arr && 0 <= i < v->Obj_0[k]->Arr_0.len() ==> r->Obj_0[k] is Arr
                && r->Obj_0[k]->Arr_0.len() == v->Obj_0[k]->Arr_0.len() && r->Obj_0[k]->Arr_0[i]
                == shown(v->Obj_0[k]->Arr_0[i]))
        }),
{
    let q = crate::fidelity::rounded_members();
    assert(q[0] == "pos"@ && q[1] == "vel"@ && q[2] == "lin"@ && q[3] == "ang"@);
    assert(q.contains("pos"@) && q.contains("vel"@) && q.contains("lin"@) && q.contains("ang"@));
    if q.contains(k) {
        let j = choose|j: int| 0 <= j < q.len() && q[j] == k;
        assert(j == 0 || j == 1 || j == 2 || j == 3);
    }
}

/// A table says what a number is rounded to where it has the number, and every number of a
/// list is among those that have to be rounded.
pub proof fn law_rounded_by_the_table(
    table: Seq<(u64, Option<u64>)>,
    bits: u64,
    items: Seq<Doc>,
    i: int,
)
    ensures
        (forall|j: int| 0 <= j < table.len() ==> (#[trigger] table[j]).0 != bits) ==> looked_up(
            table,
            bits,
        ) == Some(bits),
        0 <= i < table.len() && table[i].0 == bits && (forall|j: int|
            0 <= j < i ==> (#[trigger] table[j]).0 != bits) ==> looked_up(table, bits) == table[i].1,
        0 <= i < items.len() && items[i].as_float() is Some ==> crate::fidelity::numbers_of(
            items,
        ).contains(items[i].as_float()->0),
{
    lemma_looked_up(table, bits, i);
    lemma_listed(items, i);
}

proof fn lemma_looked_up(table: Seq<(u64, Option<u64>)>, bits: u64, i: int)
    ensures
        (forall|j: int| 0 <= j < table.len() ==> (#[trigger] table[j]).0 != bits) ==> looked_up(
            table,
            bits,
        ) == Some(bits),
        0 <= i < table.len() && table[i].0 == bits && (forall|j: int|
            0 <= j < i ==> (#[trigger] table[j]).0 != bits) ==> looked_up(table, bits) == table[i].1,
    decreases table.len(),
{
    if table.len() > 0 {
        let d = table.skip(1);
        lemma_looked_up(d, bits, i - 1);
        assert(forall|j: int| 0 <= j < d.len() ==> #[trigger] d[j] == table[j + 1]);
    }
}

proof fn lemma_listed(items: Seq<Doc>, i: int)
    ensures
        0 <= i < items.len() && items[i].as_float() is Some ==> crate::fidelity::numbers_of(
            items,
        ).contains(items[i].as_float()->0),
    decreases items.len(),
{
    if 0 <= i < items.len() && items[i].as_float() is Some {
        let d = items.drop_last();
        let q = crate::fidelity::numbers_of(d);
        let all = crate::fidelity::numbers_of(items);
        let b = items[i].as_float()->0;
        if i < d.len() {
            assert(d[i] == items[i]);
            lemma_listed(d, i);
            let j = choose|j: int| 0 <= j < q.len() && q[j] == b;
            assert(all[j] == b);
        } else {
            assert(all[q.len() as int] == b);
        }
    }
}

/// How a component starts: whoever the entity states, or nobody, owns it; in the mode that
/// the entity states, or else locked where it is kept back, to its clients where the entity
/// lets them write it, to the physics where it moves, and to the server otherwise. Every
/// component, the position and the velocity have an authority from the start.
pub proof fn law_how_components_start(e: Ent, c: Seq<char>, epoch: u64)
    requires
        !e.components.contains_key("authority.mode"@),
    ensures
        ({
            let m = initial_authority(e.components, epoch);
            let locked = c == "kernel"@ || "kernel."@.is_prefix_of(c) || c == "ownership"@
                || "ownership."@.is_prefix_of(c) || c == "zone.law"@;
            let client = acl_entry(e, "client_write"@, c) is Some;
            let moves = c == "pos"@ || c == "vel"@ || c == "phys"@ || c == "physics"@ || c == "rot"@
                || c == "lin"@ || c == "ang"@ || c == "at_rest"@ || c == "gen"@ || c == "t_server"@
                || c == "sim_time"@ || "phys."@.is_prefix_of(c) || "physics."@.is_prefix_of(c);
            &&& m.contains_key(c) == (e.components.contains_key(c) || c == "pos"@ || c == "vel"@)
            &&& m.contains_key(c) ==> m[c].owner is None && m[c].epoch == epoch && m[c].mode
                == if locked {
                AuthorityMode::PersistentKernelLock
            } else if c == "threshold.tx"@ {
                AuthorityMode::ThresholdOverlap
            } else if client {
                AuthorityMode::ClientForwardSparse
            } else if moves {
                AuthorityMode::ServerPhysicsIsland
            } else {
                AuthorityMode::ServerArbitrated
            }
        }),
{
    assert(crate::text::begins(c, "kernel."@) == "kernel."@.is_prefix_of(c));
    assert(crate::text::begins(c, "ownership."@) == "ownership."@.is_prefix_of(c));
    assert(crate::text::begins(c, "phys."@) == "phys."@.is_prefix_of(c));
    assert(crate::text::begins(c, "physics."@) == "physics."@.is_prefix_of(c));
}

/// What an entity states of a component holds from the start.
pub proof fn law_stated_authority_holds(
    comps: Map<Seq<char>, Doc>,
    c: Seq<char>,
    epoch: u64,
    d: Doc,
    owner: Seq<char>,
    m: AuthorityMode,
)
    requires
        comps.contains_key("authority.mode"@),
        comps["authority.mode"@].get(c) == Some(d),
    ensures
        ({
            let a = initial_authority(comps, epoch);
            &&& a.contains_key(c)
            &&& d.get_str("owner"@) == Some(owner) && owner.len() > 0 ==> a[c].owner == Some(owner)
            &&& d.get_str("owner"@) is None ==> a[c].owner is None
            &&& crate::entity::value_mode(d) == Some(m) ==> a[c].mode == m
        }),
{
}

/// What a peer asks to see is kept in bounds: a radius between zero and the largest there
/// may be, one of every so many updates between one and a thousand, and what it does not ask
/// for is not there. What it had counted starts anew.
pub proof fn law_areas_are_kept_in_bounds(w: Peer, f: Doc, d: Doc)
    requires
        f.get("radius"@) == Some(d),
        d is Num,
    ensures
        ({
            let p = attentive(w, f);
            let r = d.as_float()->0;
            let max = float_bits(Num::Pos(5000));
            &&& p.aoi_radius is Some
            &&& !float_lt(max, 0) ==> !float_lt(p.aoi_radius->0, 0) && !float_lt(
                max,
                p.aoi_radius->0,
            )
            &&& !float_lt(r, 0) && !float_lt(max, r) ==> p.aoi_radius == Some(r)
            &&& 1 <= p.coarse_rate <= 1000
            &&& forall|n: u64|
                f.get("coarse_rate"@) is Some && #[trigger] (f.get("coarse_rate"@)->0).as_u64()
                    == Some(n) && 1 <= n <= 1000 ==> p.coarse_rate == n
            &&& f.get("center"@) is None ==> p.aoi_center is None
            &&& f.get("full_radius"@) is None && f.get("fullRadius"@) is None ==> p.full_radius
                is None
            &&& p.fidelity_seq == Map::<Seq<char>, u64>::empty()
            &&& p.view == w.view && p.attributes == w.attributes && p.role == w.role && p.region
                == w.region
        }),
{
}

/// What the broker says of its health: that it is drained, else that its log failed, else
/// that it is well; and how many entities, mirrors, peers and departures it has.
pub proof fn law_health_is_what_it_is(s: State, g: crate::report::Readings)
    ensures
        ({
            let h = s.health(g);
            &&& s.status() == "draining"@ <==> s.draining
            &&& !s.draining ==> (s.status() == "degraded"@ <==> s.wal.degraded)
            &&& h["status"@] == Doc::Str(s.status())
            &&& h["entity_count"@] == Doc::Num(Num::Pos(s.entities.dom().len() as u64))
            &&& h["worker_count"@] == Doc::Num(Num::Pos(s.workers.dom().len() as u64))
        }),
{
    reveal_strlit("draining");
    reveal_strlit("degraded");
    reveal_strlit("ok");
    assert("draining"@.len() == 8 && "degraded"@.len() == 8 && "ok"@.len() == 2);
    assert("draining"@[1] == 'r' && "degraded"@[1] == 'e');
    reveal_strlit("status");
    reveal_strlit("wal_degraded");
    reveal_strlit("entity_count");
    reveal_strlit("ghost_count");
    reveal_strlit("worker_count");
    reveal_strlit("mesh_handoffs");
    reveal_strlit("handoffs");
    reveal_strlit("applies");
    reveal_strlit("failovers");
    reveal_strlit("fenced_stale_handoffs");
    reveal_strlit("wal_compactions");
    reveal_strlit("pending_mesh");
    reveal_strlit("monitor_last_tick_ms");
    reveal_strlit("monitor_tick_age_ms");
    reveal_strlit("tick_lag_ms");
    reveal_strlit("lock_max_hold_ms");
    reveal_strlit("rss_bytes");
    reveal_strlit("wal_bytes");
    reveal_strlit("load_level");
    reveal_strlit("my_region");
    reveal_strlit("mesh_regions");
    reveal_strlit("boundaries");
    reveal_strlit("t_server");
    assert("status"@.len() == 6 && "wal_degraded"@.len() == 12 && "entity_count"@.len() == 12
        && "ghost_count"@.len() == 11 && "worker_count"@.len() == 12 && "mesh_handoffs"@.len() == 13
        && "handoffs"@.len() == 8 && "applies"@.len() == 7 && "failovers"@.len() == 9
        && "fenced_stale_handoffs"@.len() == 21 && "wal_compactions"@.len() == 15
        && "pending_mesh"@.len() == 12 && "monitor_last_tick_ms"@.len() == 20
        && "monitor_tick_age_ms"@.len() == 19 && "tick_lag_ms"@.len() == 11
        && "lock_max_hold_ms"@.len() == 16 && "rss_bytes"@.len() == 9 && "wal_bytes"@.len() == 9
        && "load_level"@.len() == 10 && "my_region"@.len() == 9 && "mesh_regions"@.len() == 12
        && "boundaries"@.len() == 10 && "t_server"@.len() == 8);
    assert("wal_degraded"@[0] == 'w' && "wal_degraded"@[1] == 'a' && "entity_count"@[0] == 'e'
        && "worker_count"@[1] == 'o' && "worker_count"@[0] == 'w' && "pending_mesh"@[0] == 'p'
        && "mesh_regions"@[0] == 'm');
}

}

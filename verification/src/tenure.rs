//! Who holds what, and for how long: peers that connect, leases that last and lapse, and how
//! the broker bears its load.

use vstd::prelude::*;
use vstd::string::*;
use crate::attention::lemma_all_names;
use crate::claims::{role_of, PeerRole};
use crate::clock::plus;
use crate::handoff::at;
use crate::leases::{is_degradable, level_at, soft_cap};
use crate::order::sorted;
use crate::state::State;

verus! {

broadcast use {crate::doc::group_json, crate::strmap::group_map};

/// A lease lapses at its end and not before; a region whose lease lapsed goes to the peer
/// that has been on standby longest, from whoever held it, under a fresh lease, once; and
/// without a standby it is on record as an orphan.
pub proof fn law_lapsed_regions_fail_over(s: State, region: Seq<char>, now_ms: u64)
    ensures
        ({
            let (t, f) = s.lease_checked(region, now_ms);
            let lapsed = s.region_expires.contains_key(region) && now_ms >= s.region_expires[region];
            let under_way = exists|i: int|
                0 <= i < s.pending_failovers.len() && (#[trigger] s.pending_failovers[i]).region
                    == region;
            &&& f is Some <==> lapsed && !under_way && s.standbys.len() > 0
            &&& f is Some ==> {
                &&& (f->0).region == region
                &&& (f->0).new_wid == s.standbys[0]
                &&& (f->0).old_wid == at(s.region_worker, region)
                &&& (f->0).until_ms == plus(now_ms, s.lease_ttl_ms)
                &&& t == (State { standbys: s.standbys.remove(0), ..s })
            }
            &&& f is None && lapsed && !under_way ==> t.orphaned_regions.contains(region)
                && t.standbys == s.standbys && t.region_worker == s.region_worker
            &&& !lapsed || under_way ==> t == s
            &&& t.entities == s.entities && t.region_worker == s.region_worker
        }),
{
    if s.standbys.len() == 0 && s.has_lapsed(region, now_ms) && !s.fails_over(region)
        && !s.orphaned_regions.contains(region) {
        let q = s.orphaned_regions.push(region);
        assert(q[s.orphaned_regions.len() as int] == region);
        assert(q.contains(region));
    }
}

/// A look at all leases finds every region that has to fail over: up to the first that comes
/// back none was passed over that had to, and where none comes back none has to.
pub proof fn law_every_lapsed_region_is_found(s: State, regions: Seq<Seq<char>>, i: int, now_ms: u64)
    requires
        0 <= i <= regions.len(),
        s.standbys.len() > 0,
    ensures
        ({
            let (t, next, f) = s.leases_checked(regions, i, now_ms);
            let due = |r: Seq<char>|
                s.region_expires.contains_key(r) && now_ms >= s.region_expires[r] && !(exists|
                    j: int,
                |
                    0 <= j < s.pending_failovers.len() && (#[trigger] s.pending_failovers[j]).region
                        == r);
            &&& i <= next <= regions.len()
            &&& f is None ==> t == s && forall|j: int|
                i <= j < regions.len() ==> !due(#[trigger] regions[j])
            &&& f is Some ==> next > i && (f->0).region == regions[next - 1] && due(regions[next - 1])
                && forall|j: int| i <= j < next - 1 ==> !due(#[trigger] regions[j])
        }),
    decreases regions.len() - i,
{
    if i < regions.len() {
        law_lapsed_regions_fail_over(s, regions[i], now_ms);
        if s.lease_checked(regions[i], now_ms).1 is None {
            law_every_lapsed_region_is_found(s, regions, i + 1, now_ms);
        }
    }
}

/// A worker that shows signs of life keeps its regions: the leases of all that it holds run
/// anew from now, and nobody else's do.
pub proof fn law_leases_are_renewed(s: State, wid: Seq<char>, region: Seq<char>, now_ms: u64)
    requires
        s.region_worker.contains_key(region),
        now_ms + s.lease_ttl_ms <= u64::MAX,
        s.lease_ttl_ms > 0,
    ensures
        ({
            let t = s.renewed(wid, now_ms);
            &&& t == (State { region_expires: t.region_expires, ..s })
            &&& s.region_worker[region] == wid ==> t.region_expires.contains_key(region)
                && t.region_expires[region] == now_ms + s.lease_ttl_ms && !t.has_lapsed(
                region,
                now_ms,
            )
            &&& s.region_worker[region] != wid ==> t.region_expires.contains_key(region)
                == s.region_expires.contains_key(region) && (s.region_expires.contains_key(region)
                ==> t.region_expires[region] == s.region_expires[region])
        }),
{
}

/// A worker that connects holds the region that it asks for, under a fresh lease, unless
/// somebody else's lease of it runs; one that asks to stand by waits behind those that do.
pub proof fn law_workers_take_their_place(
    s: State,
    wid: Seq<char>,
    region: Seq<char>,
    now_ms: u64,
)
    ensures
        ({
            let t = s.leased(wid, region, PeerRole::Worker, now_ms);
            let held = s.region_worker.contains_key(region) && s.region_worker[region] != wid
                && s.region_expires.contains_key(region) && s.region_expires[region] > now_ms;
            &&& region == "STANDBY"@ ==> t.standbys == s.standbys.push(wid) && t.region_worker
                == s.region_worker && t.region_expires == s.region_expires
            &&& region != "STANDBY"@ && !held ==> t.region_worker == s.region_worker.insert(
                region,
                wid,
            ) && t.region_expires == s.region_expires.insert(region, plus(now_ms, s.lease_ttl_ms))
                && t.standbys == s.standbys
            &&& region != "STANDBY"@ && held ==> t == s
            &&& t.entities == s.entities && t.workers == s.workers
        }),
{
}

/// A peer that connects is known by what it was admitted as, with nothing in its record; it
/// replaces a peer of the same name, and no other.
pub proof fn law_peers_start_afresh(
    s: State,
    wid: Seq<char>,
    region: Seq<char>,
    attributes: Set<Seq<char>>,
    near: Set<Seq<char>>,
    now_ms: u64,
)
    requires
        s.entities.dom().finite(),
    ensures
        ({
            let t = s.registered(wid, region, attributes, near, now_ms);
            &&& t.workers.contains_key(wid)
            &&& t.workers[wid].region == region
            &&& t.workers[wid].attributes == attributes
            &&& t.workers[wid].role == role_of(region, attributes)
            &&& t.workers[wid].aoi_center is None
            &&& forall|x: Seq<char>| #[trigger]
                t.workers[wid].view.contains(x) == (s.entities.contains_key(x)
                    && t.workers[wid].sees(s.entities[x], near.contains(x)))
            &&& forall|w: Seq<char>| w != wid ==> #[trigger] t.workers[w] == s.workers[w]
            &&& crate::world::bodies(t.entities) == crate::world::bodies(s.entities)
        }),
{
    let a = State {
        workers: s.workers.insert(wid, crate::connect::fresh_peer(region, attributes)),
        ..s
    };
    let b = a.leased(wid, region, role_of(region, attributes), now_ms);
    let ids = sorted(b.entities.dom());
    lemma_all_names(b.entities.dom());
    assert forall|i: int| 0 <= i < ids.len() implies b.entities.contains_key(#[trigger] ids[i]) by {
        assert(b.entities.dom().contains(ids[i]));
    }
    crate::attention::lemma_checked_out(b, wid, ids, near);
    let t = s.registered(wid, region, attributes, near, now_ms);
    assert(b.workers[wid].view == Set::<Seq<char>>::empty());
    assert(t.workers.dom().contains(wid));
    assert forall|x: Seq<char>| #[trigger] t.workers[wid].view.contains(x) == (
    s.entities.contains_key(x) && t.workers[wid].sees(s.entities[x], near.contains(x))) by {
        assert(ids.contains(x) == s.entities.contains_key(x));
    }
    assert forall|w: Seq<char>| w != wid implies #[trigger] t.workers[w] == s.workers[w] by {
        assert(b.workers[w] == s.workers[w]);
    }
}

/// What a peer is by its place and its attributes: a link, an observer or a client by the
/// place that it connects to or by the attribute for it, the first of these that holds, and
/// else a worker.
pub proof fn law_roles_come_from_places(region: Seq<char>, attributes: Set<Seq<char>>)
    ensures
        ({
            let r = role_of(region, attributes);
            let link = region == "MESH"@ || attributes.contains("role.mesh"@);
            let looks = region == "OBS"@ || attributes.contains("role.observer"@);
            let plays = region == "CLIENT"@ || attributes.contains("role.client"@);
            &&& r == PeerRole::Mesh <==> link
            &&& r == PeerRole::Observer <==> looks && !link
            &&& r == PeerRole::Client <==> plays && !looks && !link
            &&& r == PeerRole::Worker <==> !plays && !looks && !link
        }),
{
}

/// The load level follows the backlog: two from the cap on, one from half of it on, none
/// below a quarter, and in between it falls by no more than it has to. The more load, the
/// sooner what may be dropped is: at the cap, half of it, or a quarter.
pub proof fn law_load_is_shed_by_level(backlog: u64, more: u64, level: u8, op: Seq<char>)
    requires
        level <= 2,
        backlog <= more,
    ensures
        backlog >= 4096 ==> level_at(backlog, level) == 2,
        2048 <= backlog < 4096 ==> level_at(backlog, level) == 1,
        backlog < 1024 ==> level_at(backlog, level) == 0,
        1024 <= backlog < 2048 && level == 0 ==> level_at(backlog, level) == 0,
        1024 <= backlog < 2048 && level > 0 ==> level_at(backlog, level) == 1,
        level_at(backlog, level) <= level_at(more, level),
        soft_cap(0) == 4096 && soft_cap(1) == 2048 && soft_cap(2) == 1024,
        is_degradable(op) <==> op == "ComponentUpdate"@ || op == "InspectorFrame"@,
{
}

}

//! Leases that lapse, and the load that decides how much is sent.

use vstd::prelude::*;
use crate::clock::plus;
use crate::failover::prepare_failover;
use crate::handoff::{at, string_at};
use crate::entity::as_opt_str;
use crate::state::{views, Failover, PreparedFailover, ServerState, State};
use crate::strmap::{texts, StrSet};
use crate::text::str_eq;

verus! {

broadcast use {crate::doc::group_json, crate::strmap::group_map};

impl State {
    /// Whether the lease of a region has lapsed.
    pub open spec fn has_lapsed(self, region: Seq<char>, now_ms: u64) -> bool {
        self.region_expires.contains_key(region) && now_ms >= self.region_expires[region]
    }

    /// Whether a failover of a region is under way.
    pub open spec fn fails_over(self, region: Seq<char>) -> bool {
        exists|i: int|
            0 <= i < self.pending_failovers.len() && (#[trigger] self.pending_failovers[i]).region
                == region
    }

    /// The state after a look at the lease of a region, and the failover that comes of
    /// it: a lapsed region goes to the first standby, and is an orphan without one.
    pub open spec fn lease_checked(self, region: Seq<char>, now_ms: u64) -> (State, Option<Failover>) {
        if !self.has_lapsed(region, now_ms) || self.fails_over(region) {
            (self, None)
        } else if self.standbys.len() == 0 {
            if self.orphaned_regions.contains(region) {
                (self, None)
            } else {
                (State { orphaned_regions: self.orphaned_regions.push(region), ..self }, None)
            }
        } else {
            let s = State { standbys: self.standbys.remove(0), ..self };
            (
                s,
                Some(
                    s.failover_of(
                        region,
                        at(self.region_worker, region),
                        self.standbys[0],
                        plus(now_ms, self.lease_ttl_ms),
                    ),
                ),
            )
        }
    }

    /// The state after a look at the leases of some regions from the `i`-th on, up to
    /// the first failover; the next region to look at; and the failover.
    pub open spec fn leases_checked(
        self,
        regions: Seq<Seq<char>>,
        i: int,
        now_ms: u64,
    ) -> (State, int, Option<Failover>)
        decreases regions.len() - i,
    {
        if i < 0 || i >= regions.len() {
            (self, regions.len() as int, None)
        } else {
            let (s, f) = self.lease_checked(regions[i], now_ms);
            if f is Some {
                (s, i + 1, f)
            } else {
                s.leases_checked(regions, i + 1, now_ms)
            }
        }
    }
}

fn failover_is_queued(s: &ServerState, region: &str) -> (r: bool)
    ensures
        r == s@.fails_over(region@),
{
    let ghost all = s@.pending_failovers;
    let mut i: usize = 0;
    while i < s.pending_failovers.len()
        invariant
            i <= s.pending_failovers.len(),
            all == views(s.pending_failovers@),
            all == s@.pending_failovers,
            forall|j: int| 0 <= j < i ==> (#[trigger] all[j]).region != region@,
        decreases s.pending_failovers.len() - i,
    {
        assert(all[i as int] == s.pending_failovers@[i as int]@);
        if str_eq(s.pending_failovers[i].region.as_str(), region) {
            assert(s@.pending_failovers[i as int].region == region@);
            return true;
        }
        i = i + 1;
    }
    false
}

fn text_among(v: &Vec<String>, t: &str) -> (r: bool)
    ensures
        r == texts(v@).contains(t@),
{
    let ghost all = texts(v@);
    let mut i: usize = 0;
    while i < v.len()
        invariant
            i <= v.len(),
            all == texts(v@),
            forall|j: int| 0 <= j < i ==> #[trigger] all[j] != t@,
        decreases v.len() - i,
    {
        assert(all[i as int] == v@[i as int]@);
        if str_eq(v[i].as_str(), t) {
            assert(all.contains(t@));
            return true;
        }
        i = i + 1;
    }
    false
}

/// An optional failover by its view.
pub open spec fn opt_failover(o: Option<PreparedFailover>) -> Option<Failover> {
    match o {
        Some(f) => Some(f@),
        None => None,
    }
}

/// Looks at the lease of one region. What comes out goes to the log.
pub fn check_lease(s: &mut ServerState, region: &str, now_ms: u64) -> (r: Option<PreparedFailover>)
    ensures
        (final(s)@, opt_failover(r)) == old(s)@.lease_checked(region@, now_ms),
{
    let lapsed: bool = match s.region_expires.get(region) {
        Some(t) => now_ms >= *t,
        None => false,
    };
    if !lapsed || failover_is_queued(s, region) {
        return None;
    }
    if s.standbys.len() == 0 {
        if !text_among(&s.orphaned_regions, region) {
            let ghost before = texts(s.orphaned_regions@);
            s.orphaned_regions.push(region.to_owned());
            proof {
                assert(texts(s.orphaned_regions@) =~= before.push(region@));
            }
        }
        return None;
    }
    let old_wid = string_at(&s.region_worker, region);
    let ghost before = texts(s.standbys@);
    let new_wid = s.standbys.remove(0);
    proof {
        assert(texts(s.standbys@) =~= before.remove(0));
        assert(before[0] == new_wid@);
    }
    let until: u64 = now_ms.saturating_add(s.lease_ttl_ms);
    Some(prepare_failover(s, region, as_opt_str(&old_wid), new_wid.as_str(), until))
}

/// Looks at the leases of some regions from the `from`-th on, up to the first that
/// has to go to a standby. The failover goes to the log, and the look goes on at the
/// region that comes back with it.
pub fn check_leases(s: &mut ServerState, regions: &Vec<String>, from: usize, now_ms: u64) -> (r: (
    usize,
    Option<PreparedFailover>,
))
    ensures
        (final(s)@, r.0 as int, opt_failover(r.1)) == old(s)@.leases_checked(
            texts(regions@),
            from as int,
            now_ms,
        ),
        from <= regions.len() ==> r.0 <= regions.len(),
        r.1 is Some ==> r.0 > from,
{
    let ghost before = s@;
    let ghost all = texts(regions@);
    if from >= regions.len() {
        return (regions.len(), None);
    }
    let mut i: usize = from;
    while i < regions.len()
        invariant
            from <= i <= regions.len(),
            before == old(s)@,
            all == texts(regions@),
            s@.leases_checked(all, i as int, now_ms) == before.leases_checked(
                all,
                from as int,
                now_ms,
            ),
        decreases regions.len() - i,
    {
        let ghost prior = s@;
        proof {
            assert(all[i as int] == regions@[i as int]@);
        }
        let found = check_lease(s, regions[i].as_str(), now_ms);
        proof {
            let (t, f) = prior.lease_checked(all[i as int], now_ms);
            assert(t == s@ && f == opt_failover(found));
            assert(prior.leases_checked(all, i as int, now_ms) == if f is Some {
                (t, i + 1, f)
            } else {
                t.leases_checked(all, i + 1, now_ms)
            });
        }
        if found.is_some() {
            return (i + 1, found);
        }
        i = i + 1;
    }
    (i, None)
}

/// A lease that has not lapsed is left alone: its region keeps its worker, and no
/// standby is used up.
pub proof fn law_live_leases_stay(s: State, region: Seq<char>, now_ms: u64)
    requires
        !s.has_lapsed(region, now_ms),
    ensures
        s.lease_checked(region, now_ms) == (s, None::<Failover>),
{
}

/// How many messages may wait for a peer before those are dropped that can be.
pub const EGRESS_SOFT_CAP: u64 = 4096;

/// The load level at a backlog: it rises at once, and falls only once the backlog is
/// well below.
pub open spec fn level_at(backlog: u64, level: u8) -> u8 {
    if backlog >= 4096 {
        2
    } else if backlog >= 2048 {
        1
    } else if backlog < 1024 {
        0
    } else if level < 1 {
        level
    } else {
        1
    }
}

/// Sets the load level by the longest backlog of any peer.
pub fn update_load_governor(s: &mut ServerState, max_backlog: u64)
    ensures
        final(s)@ == (State { load_level: level_at(max_backlog, old(s)@.load_level), ..old(s)@ }),
{
    s.load_level = if max_backlog >= EGRESS_SOFT_CAP {
        2
    } else if max_backlog >= EGRESS_SOFT_CAP / 2 {
        1
    } else if max_backlog < EGRESS_SOFT_CAP / 4 {
        0
    } else if s.load_level < 1 {
        s.load_level
    } else {
        1
    };
}

/// No flapping: in the band between rising and falling a level stays, and the level
/// is never above two.
pub proof fn law_level_holds(backlog: u64, level: u8)
    ensures
        level_at(backlog, level) <= 2,
        1024 <= backlog < 2048 && level <= 1 ==> level_at(backlog, level) == level,
        backlog < 1024 ==> level_at(backlog, level) == 0,
{
}

/// Whether a message may be dropped: the next one makes up for it.
pub open spec fn is_degradable(op: Seq<char>) -> bool {
    op == "ComponentUpdate"@ || op == "InspectorFrame"@
}

/// How many messages may wait for a peer at a load level.
pub open spec fn soft_cap(level: u8) -> u64 {
    if level == 0 {
        4096
    } else if level == 1 {
        2048
    } else {
        1024
    }
}

/// Whether a message is dropped before it is queued: it may be, and too many wait.
pub fn is_shed(s: &ServerState, op: &str, backlog: u64) -> (r: bool)
    ensures
        r == (is_degradable(op@) && backlog > soft_cap(s@.load_level)),
{
    let cap: u64 = if s.load_level == 0 {
        EGRESS_SOFT_CAP
    } else if s.load_level == 1 {
        EGRESS_SOFT_CAP / 2
    } else {
        EGRESS_SOFT_CAP / 4
    };
    may_drop(op) && backlog > cap
}

/// Whether a message may be dropped. A peer whose queue is full of messages that may
/// not be dropped is disconnected.
pub fn may_drop(op: &str) -> (r: bool)
    ensures
        r == is_degradable(op@),
{
    str_eq(op, "ComponentUpdate") || str_eq(op, "InspectorFrame")
}

impl State {
    /// The state without some peers.
    pub open spec fn reaped(self, kick: Set<Seq<char>>) -> State {
        State { workers: self.workers.remove_keys(kick), ..self }
    }
}

/// Removes the peers that do not keep up.
pub fn reap_disconnecting(s: &mut ServerState, kick: &StrSet)
    ensures
        final(s)@ == old(s)@.reaped(kick@),
{
    let ghost before = s@;
    let ids = kick.members();
    let ghost all = texts(ids@);
    let mut i: usize = 0;
    proof {
        assert(all.take(0).to_set() =~= Set::empty());
        assert(before.workers.remove_keys(Set::empty()) =~= before.workers);
    }
    while i < ids.len()
        invariant
            i <= ids.len(),
            all == texts(ids@),
            s@ == before.reaped(all.take(i as int).to_set()),
        decreases ids.len() - i,
    {
        let wid = ids[i].as_str();
        let ghost seen = all.take(i as int);
        s.workers.remove(wid);
        i = i + 1;
        proof {
            assert(all.take(i as int) =~= seen.push(wid@));
            assert forall|k: Seq<char>| all.take(i as int).to_set().contains(k) == (
            seen.to_set().contains(k) || k == wid@) by {
                crate::json::lemma_push_contains(seen, wid@, k);
            }
            assert(s@.workers =~= before.reaped(all.take(i as int).to_set()).workers);
        }
    }
    proof {
        assert(all.take(i as int) =~= all);
    }
}

/// What matters always gets through: a message that may not be dropped is not shed,
/// whatever the load.
pub proof fn law_critical_is_never_shed(op: Seq<char>)
    requires
        op == "AuthorityChange"@ || op == "AddEntity"@ || op == "RemoveEntity"@ || op
            == "CommandResponse"@ || op == "EntityEvent"@,
    ensures
        !is_degradable(op),
{
    reveal_strlit("AuthorityChange");
    reveal_strlit("AddEntity");
    reveal_strlit("RemoveEntity");
    reveal_strlit("CommandResponse");
    reveal_strlit("EntityEvent");
    reveal_strlit("ComponentUpdate");
    reveal_strlit("InspectorFrame");
    assert("ComponentUpdate"@.len() == 15 && "InspectorFrame"@.len() == 14);
    assert("AuthorityChange"@[0] != "ComponentUpdate"@[0]);
    assert("CommandResponse"@[3] != "ComponentUpdate"@[3]);
}

}

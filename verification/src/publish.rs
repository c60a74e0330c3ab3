//! Publishing a value: to those who see the entity, as often as they asked for.

use vstd::prelude::*;
use crate::doc::{Doc, Json};
use crate::entity::succ;
use crate::fidelity::{coarsen_component_value, coarsened, Rounded};
use crate::grants::{authority_key, component_key};
use crate::sight::{
    component_update, component_update_json, send_full, sorted_keys, take_from_sight, visible,
};
use crate::state::{emit, views, Peer, ServerState, State};
use crate::strmap::{texts, Dup, StrMap};
use crate::text::str_eq;

verus! {

broadcast use {crate::doc::group_json, crate::strmap::group_map};

/// How a position lies to a peer: whether it is in the area that the peer asked
/// for, whether it is in the inner area, and what the numbers that are shown outside of
/// that are rounded to.
pub struct Sight {
    pub wid: String,
    pub near: bool,
    pub full: bool,
    pub rounded: Vec<Rounded>,
}

/// A `Sight` by its views.
#[verifier::ext_equal]
pub ghost struct Glance {
    pub wid: Seq<char>,
    pub near: bool,
    pub full: bool,
    pub rounded: Seq<(u64, Option<u64>)>,
}

impl View for Sight {
    type V = Glance;

    open spec fn view(&self) -> Glance {
        Glance {
            wid: self.wid@,
            near: self.near,
            full: self.full,
            rounded: views(self.rounded@),
        }
    }
}

/// The value of a component as it is shown from afar.
pub open spec fn coarse_update(eid: Seq<char>, comp: Seq<char>, value: Doc) -> Doc {
    Doc::Obj(
        component_update(eid, comp, value)->Obj_0.insert("fidelity"@, Doc::Str("coarse"@)),
    )
}

impl Peer {
    /// How many coarse updates of a component the peer was due.
    pub open spec fn due(self, key: Seq<char>) -> u64 {
        if self.fidelity_seq.contains_key(key) {
            self.fidelity_seq[key]
        } else {
            0
        }
    }

    /// Every how many coarse updates one is sent.
    pub open spec fn rate(self) -> u64 {
        if self.coarse_rate == 0 {
            1
        } else {
            self.coarse_rate
        }
    }

    /// Whether the next coarse update of a component is sent.
    pub open spec fn is_due(self, key: Seq<char>) -> bool {
        (succ(self.due(key)) - 1) % (self.rate() as int) == 0
    }
}

impl State {
    /// The state after a peer that has an entity in view was sent a value of it.
    pub open spec fn value_sent(
        self,
        g: Glance,
        eid: Seq<char>,
        comp: Seq<char>,
        value: Doc,
    ) -> State {
        let w = self.workers[g.wid];
        if w.full_detail(g.full) {
            self.emitted(g.wid, component_update(eid, comp, value))
        } else {
            let key = component_key(eid, comp);
            let s = State {
                workers: self.workers.insert(
                    g.wid,
                    Peer { fidelity_seq: w.fidelity_seq.insert(key, succ(w.due(key))), ..w },
                ),
                ..self
            };
            if w.is_due(key) {
                s.emitted(
                    g.wid,
                    coarse_update(eid, comp, coarsened(comp, value, w.coarse_grid, g.rounded)),
                )
            } else {
                s
            }
        }
    }

    /// The state after a value reached one peer: it is shown the entity, loses it
    /// from sight, or gets the value.
    pub open spec fn told(self, g: Glance, eid: Seq<char>, comp: Seq<char>, value: Doc) -> State {
        if self.workers.contains_key(g.wid) && self.entities.contains_key(eid) {
            let w = self.workers[g.wid];
            let inside = w.sees(self.entities[eid], g.near);
            let had = w.view.contains(eid);
            if inside && !had {
                self.shown(g.wid, eid)
            } else if !inside && had {
                self.hidden(g.wid, eid)
            } else if inside {
                self.value_sent(g, eid, comp, value)
            } else {
                self
            }
        } else {
            self
        }
    }

    /// The state after a value reached some peers.
    pub open spec fn propagated(
        self,
        sights: Seq<Glance>,
        eid: Seq<char>,
        comp: Seq<char>,
        value: Doc,
    ) -> State
        decreases sights.len(),
    {
        if sights.len() == 0 {
            self
        } else {
            self.propagated(sights.drop_last(), eid, comp, value).told(
                sights.last(),
                eid,
                comp,
                value,
            )
        }
    }
}

fn send_value(s: &mut ServerState, g: &Sight, eid: &str, comp: &str, value: &Json)
    requires
        old(s)@.workers.contains_key(g.wid@),
    ensures
        final(s)@ == old(s)@.value_sent(g@, eid@, comp@, value@),
{
    let wid = g.wid.as_str();
    let mut full: bool = true;
    if let Some(w) = s.workers.get(wid) {
        full = w.full_fidelity_for(g.full);
    }
    if full {
        emit(s, wid, component_update_json(eid, comp, value.dup()));
        return;
    }
    let key = authority_key(eid, comp);
    let mut send: bool = false;
    let mut coarse: Json = Json::Null;
    if let Some(mut w) = s.workers.remove(wid) {
        let due: u64 = match w.fidelity_seq.get(key.as_str()) {
            Some(n) => *n,
            None => 0,
        };
        let rate: u64 = if w.fidelity_coarse_rate == 0 {
            1
        } else {
            w.fidelity_coarse_rate
        };
        let seq: u64 = due.saturating_add(1);
        send = (seq - 1) % rate == 0;
        w.fidelity_seq.insert(key.as_str(), seq);
        if send {
            coarse = coarsen_component_value(comp, value, &w.fidelity_coarse_grid, &g.rounded);
        }
        s.workers.insert(wid, w);
    }
    if send {
        let msg = StrMap::new().with("op", Json::str("ComponentUpdate")).with(
            "entity",
            Json::str(eid),
        ).with("comp", Json::str(comp)).with("value", coarse).with(
            "fidelity",
            Json::str("coarse"),
        ).done();
        emit(s, wid, msg);
    }
}

/// Brings a value to those of the peers that see the entity.
pub fn propagate(s: &mut ServerState, eid: &str, comp: &str, value: &Json, sights: &Vec<Sight>)
    ensures
        final(s)@ == old(s)@.propagated(views(sights@), eid@, comp@, value@),
{
    let ghost before = s@;
    let ghost all = views(sights@);
    let mut i: usize = 0;
    proof {
        assert(all.take(0) =~= Seq::empty());
    }
    while i < sights.len()
        invariant
            i <= sights.len(),
            all == views(sights@),
            s@ == before.propagated(all.take(i as int), eid@, comp@, value@),
        decreases sights.len() - i,
    {
        let g = &sights[i];
        proof {
            assert(all.take(i + 1).drop_last() =~= all.take(i as int));
            assert(all.take(i + 1).last() == g@);
        }
        let wid = g.wid.as_str();
        let mut known: bool = false;
        let mut inside: bool = false;
        let mut had: bool = false;
        if let Some(w) = s.workers.get(wid) {
            if let Some(e) = s.entities.get(eid) {
                known = true;
                inside = visible(w, e, g.near);
                had = w.view.contains(eid);
            }
        }
        if known {
            if inside && !had {
                send_full(s, wid, eid);
            } else if !inside && had {
                take_from_sight(s, wid, eid);
            } else if inside {
                send_value(s, g, eid, comp, value);
            }
        }
        i = i + 1;
    }
    proof {
        assert(all.take(i as int) =~= all);
    }
}

impl State {
    /// The state with the leases of a peer's regions renewed.
    pub open spec fn renewed(self, wid: Seq<char>, now_ms: u64) -> State {
        let until = crate::clock::plus(now_ms, self.lease_ttl_ms);
        State {
            region_expires: Map::new(
                |r: Seq<char>|
                    self.region_expires.contains_key(r) || (self.region_worker.contains_key(r)
                        && self.region_worker[r] == wid),
                |r: Seq<char>|
                    if self.region_worker.contains_key(r) && self.region_worker[r] == wid {
                        until
                    } else {
                        self.region_expires[r]
                    },
            ),
            ..self
        }
    }
}

/// Renews the leases of a peer's regions.
pub fn renew(s: &mut ServerState, wid: &str, now_ms: u64)
    ensures
        final(s)@ == old(s)@.renewed(wid@, now_ms),
{
    let ghost before = s@;
    let until: u64 = now_ms.saturating_add(s.lease_ttl_ms);
    let regions = sorted_keys(&s.region_worker);
    let ghost all = texts(regions@);
    let mut i: usize = 0;
    while i < regions.len()
        invariant
            i <= regions.len(),
            all == texts(regions@),
            all.to_set() == before.region_worker.dom(),
            until == crate::clock::plus(now_ms, before.lease_ttl_ms),
            s@ == (State { region_expires: s@.region_expires, ..before }),
            forall|r: Seq<char>|
                #[trigger] s@.region_expires.contains_key(r) <==> before.region_expires.contains_key(
                    r,
                ) || (all.take(i as int).contains(r) && before.region_worker[r] == wid@),
            forall|r: Seq<char>|
                #[trigger] s@.region_expires.contains_key(r) ==> s@.region_expires[r] == if all.take(
                    i as int,
                ).contains(r) && before.region_worker[r] == wid@ {
                    until
                } else {
                    before.region_expires[r]
                },
        decreases regions.len() - i,
    {
        let ghost seen = all.take(i as int);
        let r = regions[i].as_str();
        proof {
            assert(all[i as int] == r@);
            assert(all.to_set().contains(r@));
        }
        let mine: bool = match s.region_worker.get(r) {
            Some(o) => str_eq(o.as_str(), wid),
            None => false,
        };
        if mine {
            s.region_expires.insert(r, until);
        }
        i = i + 1;
        proof {
            assert(all.take(i as int) =~= seen.push(r@));
            assert forall|k: Seq<char>| #[trigger] all.take(i as int).contains(k) <==> (seen.contains(
                k,
            ) || k == r@) by {
                crate::json::lemma_push_contains(seen, r@, k);
            }
        }
    }
    proof {
        assert(all.take(i as int) =~= all);
        assert forall|k: Seq<char>| before.region_worker.contains_key(k) == all.contains(k) by {
            assert(all.to_set().contains(k) == all.contains(k));
        }
        assert(s@.region_expires =~= before.renewed(wid@, now_ms).region_expires);
    }
}

/// Nobody is told of what it does not see: a value reaches a peer only where the entity is
/// in the area that the peer looks at and may be read by it. One that loses sight of it is
/// told that, and nothing else.
pub proof fn law_unseen_is_not_told(
    s: State,
    g: Glance,
    eid: Seq<char>,
    comp: Seq<char>,
    value: Doc,
)
    requires
        s.workers.contains_key(g.wid),
        s.entities.contains_key(eid),
        !s.workers[g.wid].sees(s.entities[eid], g.near),
    ensures
        s.told(g, eid, comp, value) == if s.workers[g.wid].view.contains(eid) {
            s.hidden(g.wid, eid)
        } else {
            s
        },
{
}

}

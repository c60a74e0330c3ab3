//! The transfers that a step makes visible, as the tape records them.

use vstd::prelude::*;
use crate::adopt::{existing_mesh_adopt_matches, msg_entity, receiving_region_for_adopt};
use crate::dispatch::{answer_went, Answer, Job, Reply, Task};
use crate::doc::{Doc, Json};
use crate::entity::to_opt_string;
use crate::float::arr2;
use crate::mesh::{Departure, Leave};
use crate::state::{views, Hand, PreparedHandoff, ServerState, State};
use crate::tape_events::{HandoffRecord, Moved};

verus! {

broadcast use {crate::doc::group_json, crate::strmap::group_map};

/// A transfer between two regions of this broker.
pub open spec fn moved_here(h: Hand) -> Moved {
    Moved {
        path: "local"@,
        eid: h.eid,
        from: Some(h.from),
        to: Some(h.to),
        authority_epoch: Some(h.authority_epoch),
        source_durable_gen: Some(h.gen),
        lease_epoch: h.lease_epoch,
    }
}

/// A departure to a neighbour.
pub open spec fn moved_out(d: Leave) -> Moved {
    Moved {
        path: "mesh_out"@,
        eid: d.eid,
        from: Some(d.src_region),
        to: Some(d.target),
        authority_epoch: Some(d.authority_epoch),
        source_durable_gen: Some(d.gen),
        lease_epoch: d.lease_epoch,
    }
}

/// An arrival from a neighbour.
pub open spec fn moved_in(f: Doc, region: Seq<char>) -> Moved {
    Moved {
        path: "mesh_in"@,
        eid: msg_entity(f),
        from: f.get_str("src_region"@),
        to: Some(region),
        authority_epoch: f.get_u64("authority_epoch"@),
        source_durable_gen: f.get_u64("source_durable_gen"@),
        lease_epoch: f.get_u64("lease_epoch"@),
    }
}

impl State {
    /// The transfers among some that find their entity.
    pub open spec fn moves_here(self, hands: Seq<Hand>) -> Seq<Moved>
        decreases hands.len(),
    {
        if hands.len() == 0 {
            Seq::empty()
        } else {
            let before = self.moves_here(hands.drop_last());
            if self.entities.contains_key(hands.last().eid) {
                before.push(moved_here(hands.last()))
            } else {
                before
            }
        }
    }

    /// The transfers that the next step makes visible: those inside the broker and those
    /// to a neighbour once they are durable, and an arrival once it is on the log, or at
    /// once where it is here already.
    pub open spec fn moves(self, jobs: Seq<Job>, a: Reply) -> Seq<Moved> {
        if jobs.len() == 0 {
            Seq::empty()
        } else {
            match jobs.last() {
                Job::HandoffsSynced if a.went() => self.moves_here(self.pending_handoffs),
                Job::Left { d } if a.went() => seq![moved_out(d)],
                Job::Adopted { f, spawn, .. } if a.went() => seq![moved_in(f, spawn.2.region)],
                Job::Adopt { f, cell, .. } if self.adoption(f, cell) is Known => seq![
                    moved_in(f, self.entities[msg_entity(f)].region),
                ],
                _ => Seq::empty(),
            }
        }
    }
}

fn record_here(h: &PreparedHandoff) -> (r: HandoffRecord)
    ensures
        r@ == moved_here(h@),
{
    HandoffRecord {
        path: "local".to_owned(),
        eid: h.eid.clone(),
        from: Some(h.from.clone()),
        to: Some(h.to.clone()),
        authority_epoch: Some(h.authority_epoch),
        source_durable_gen: Some(h.gen),
        lease_epoch: h.lease_epoch,
    }
}

fn record_out(d: &Departure) -> (r: HandoffRecord)
    ensures
        r@ == moved_out(d@),
{
    HandoffRecord {
        path: "mesh_out".to_owned(),
        eid: d.eid.clone(),
        from: Some(d.src_region.clone()),
        to: Some(d.target.clone()),
        authority_epoch: Some(d.authority_epoch),
        source_durable_gen: Some(d.gen),
        lease_epoch: d.lease_epoch,
    }
}

fn record_in(f: &Json, region: &str) -> (r: HandoffRecord)
    ensures
        r@ == moved_in(f@, region@),
{
    HandoffRecord {
        path: "mesh_in".to_owned(),
        eid: f.str_or("entity", "").to_owned(),
        from: to_opt_string(f.get_str("src_region")),
        to: Some(region.to_owned()),
        authority_epoch: f.get_u64("authority_epoch"),
        source_durable_gen: f.get_u64("source_durable_gen"),
        lease_epoch: f.get_u64("lease_epoch"),
    }
}

fn records_here(s: &ServerState) -> (r: Vec<HandoffRecord>)
    ensures
        views(r@) == s@.moves_here(s@.pending_handoffs),
{
    let ghost all = views(s.pending_handoffs@);
    let mut out: Vec<HandoffRecord> = Vec::new();
    let mut i: usize = 0;
    proof {
        assert(all.take(0) =~= Seq::empty());
        assert(views(out@) =~= Seq::empty());
    }
    while i < s.pending_handoffs.len()
        invariant
            i <= s.pending_handoffs.len(),
            all == views(s.pending_handoffs@),
            views(out@) == s@.moves_here(all.take(i as int)),
        decreases s.pending_handoffs.len() - i,
    {
        let h = &s.pending_handoffs[i];
        let ghost before = views(out@);
        proof {
            assert(all.take(i + 1).drop_last() =~= all.take(i as int));
            assert(all.take(i + 1).last() == h@);
        }
        if s.entities.contains_key(h.eid.as_str()) {
            let item = record_here(h);
            out.push(item);
            proof {
                assert(views(out@) =~= before.push(item@));
            }
        }
        i = i + 1;
    }
    proof {
        assert(all.take(i as int) =~= all);
    }
    out
}

/// The transfers that the next step makes visible.
pub fn transfers(s: &ServerState, tasks: &Vec<Task>, answer: &Answer) -> (r: Vec<HandoffRecord>)
    ensures
        views(r@) == s@.moves(views(tasks@), answer@),
{
    let mut out: Vec<HandoffRecord> = Vec::new();
    proof {
        assert(views(out@) =~= Seq::empty());
    }
    if tasks.len() == 0 {
        return out;
    }
    let went: bool = answer_went(answer);
    let last = &tasks[tasks.len() - 1];
    proof {
        assert(views(tasks@).last() == last@);
    }
    match last {
        Task::HandoffsSynced => {
            if went {
                return records_here(s);
            }
        },
        Task::Left { d } => {
            if went {
                let item = record_out(d);
                out.push(item);
                proof {
                    assert(views(out@) =~= seq![item@]);
                }
            }
        },
        Task::Adopted { f, spawn, .. } => {
            if went {
                let item = record_in(f, spawn.entity.region.as_str());
                out.push(item);
                proof {
                    assert(views(out@) =~= seq![item@]);
                }
            }
        },
        Task::Adopt { f, cell, .. } => {
            let pos = arr2(f.get("pos"));
            let found = receiving_region_for_adopt(
                s,
                &pos.x,
                f.get_str("target"),
                cell.as_str(),
            );
            if let Some(region) = found {
                if existing_mesh_adopt_matches(
                    s,
                    f.str_or("entity", ""),
                    region.as_str(),
                    f.get_u64("authority_epoch"),
                ) {
                    let item = record_in(f, region.as_str());
                    out.push(item);
                    proof {
                        assert(views(out@) =~= seq![item@]);
                    }
                }
            }
        },
        _ => {},
    }
    out
}

/// A transfer that the log does not have is not recorded.
pub proof fn law_unlogged_is_not_recorded(s: State, jobs: Seq<Job>, a: Reply)
    requires
        jobs.len() > 0,
        !(jobs.last() is Adopt),
        !a.went(),
    ensures
        s.moves(jobs, a).len() == 0,
{
}

}

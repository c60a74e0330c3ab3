//! Entities on the move: which region they belong to now, how a transfer starts, and
//! what follows it.

use vstd::prelude::*;
use vstd::string::*;
use crate::doc::{Doc, Json, Num};
use crate::entity::{component_authority_epoch, component_authority_owner, Ent, Entity};
use crate::float::{arr2, point_of, Point, Vec2};
use crate::grants::{update_rejected, update_rejected_json};
use crate::handoff::{
    at, is_queued, is_remote_region, prepare_local_handoff, queue_remote_handoff, string_at,
    HandoffPlan,
};
use crate::json::text_or;
use crate::mesh::{prepare_mesh_forward, Departure};
use crate::order::{sorted, sorted_texts};
use crate::partition::{
    coarse, coarse_region, first_region, initial_region, intended, is_strip, is_strip_region_name,
    moved_region, movement_region_after, seam_intent_target,
};
use crate::sight::sorted_keys;
use crate::state::{
    emit, opt_point, views, Hand, HandoffIntent, Intent, PendingRemoteHandoff, PreparedHandoff,
    ServerState, State,
};
use crate::strmap::{texts, StrMap};
use crate::text::{opt_string, str_eq};

verus! {

broadcast use {crate::doc::group_json, crate::strmap::group_map};

/// What an owner is told that is about to lose an entity.
pub open spec fn loss_msg(eid: Seq<char>, i: Intent) -> Doc {
    Doc::Obj(
        map![
            "op"@ => Doc::Str("AuthorityChange"@),
            "entity"@ => Doc::Str(eid),
            "comp"@ => Doc::Str("pos"@),
            "authoritative"@ => Doc::Bool(true),
            "state"@ => Doc::Str("AUTHORITY_LOSS_IMMINENT"@),
            "authority_epoch"@ => Doc::Num(Num::Pos(i.epoch)),
            "mode"@ => Doc::Str("threshold_overlap"@),
            "handoff_target"@ => Doc::Str(i.target_worker),
            "handoff_target_region"@ => Doc::Str(i.target_region)],
    )
}

impl State {
    /// The state after the owner of an entity was warned that it is about to enter
    /// another region: once for each target and epoch.
    pub open spec fn loss_warned(
        self,
        eid: Seq<char>,
        source: Seq<char>,
        target: Seq<char>,
    ) -> State {
        if !self.entities.contains_key(eid) {
            self
        } else {
            let e = self.entities[eid];
            match (e.owner("pos"@), at(self.region_worker, target)) {
                (Some(w), Some(t)) => {
                    let i = Intent {
                        source_region: source,
                        target_region: target,
                        source_worker: w,
                        target_worker: t,
                        epoch: e.epoch("pos"@),
                    };
                    let known = at(self.pending_handoff_intent, eid);
                    if known is Some && (known->0).target_region == target && (known->0).epoch
                        == i.epoch {
                        self
                    } else {
                        (State {
                            pending_handoff_intent: self.pending_handoff_intent.insert(eid, i),
                            ..self
                        }).emitted(w, loss_msg(eid, i))
                    }
                },
                _ => self,
            }
        }
    }
}

/// Warns the owner of an entity that is about to enter another region.
pub fn maybe_emit_loss_imminent(
    s: &mut ServerState,
    eid: &str,
    source_region: &str,
    target_region: &str,
)
    ensures
        final(s)@ == old(s)@.loss_warned(eid@, source_region@, target_region@),
{
    let (owner, epoch) = match s.entities.get(eid) {
        Some(e) => (component_authority_owner(e, "pos"), component_authority_epoch(e, "pos")),
        None => return,
    };
    let w = match owner {
        Some(w) => w,
        None => return,
    };
    let t = match string_at(&s.region_worker, target_region) {
        Some(t) => t,
        None => return,
    };
    if let Some(i) = s.pending_handoff_intent.get(eid) {
        if str_eq(i.target_region.as_str(), target_region) && i.epoch == epoch {
            return;
        }
    }
    let msg = StrMap::new().with("op", Json::str("AuthorityChange")).with("entity", Json::str(eid)).with(
        "comp",
        Json::str("pos"),
    ).with("authoritative", Json::Bool(true)).with("state", Json::str("AUTHORITY_LOSS_IMMINENT")).with(
        "authority_epoch",
        Json::u64(epoch),
    ).with("mode", Json::str("threshold_overlap")).with("handoff_target", Json::str(t.as_str())).with(
        "handoff_target_region",
        Json::str(target_region),
    ).done();
    s.pending_handoff_intent.insert(
        eid,
        HandoffIntent {
            source_region: source_region.to_owned(),
            target_region: target_region.to_owned(),
            source_worker: w.clone(),
            target_worker: t,
            epoch,
        },
    );
    emit(s, w.as_str(), msg);
}

impl State {
    /// The region that an entity belongs to by its position. `cell` is the cell of the
    /// grid that it belongs to.
    pub open spec fn region_now(self, e: Ent, cell: Seq<char>) -> Seq<char> {
        if self.grid2d is Some {
            cell
        } else {
            moved_region(e.pos.x, e.region, self.boundaries, self.splits)
        }
    }

    /// Whether an entity is placed by its own position: a part follows its root.
    pub open spec fn is_root(self, eid: Seq<char>) -> bool {
        self.entities.contains_key(eid) && !self.entities[eid].components.contains_key("parent"@)
    }

    /// The region that a moved entity has to be handed to; none where it stays.
    pub open spec fn zone_target(
        self,
        eid: Seq<char>,
        comp: Seq<char>,
        cell: Seq<char>,
    ) -> Option<Seq<char>> {
        if comp == "pos"@ && self.is_root(eid) && self.region_now(self.entities[eid], cell)
            != self.entities[eid].region {
            Some(self.region_now(self.entities[eid], cell))
        } else {
            None
        }
    }

    /// The state after a moved entity was placed. A transfer takes up the warning; an
    /// entity in the band around a border has its owner warned; away from it the
    /// warning is withdrawn.
    pub open spec fn zoned(self, eid: Seq<char>, comp: Seq<char>, cell: Seq<char>) -> State {
        let cleared = State {
            pending_handoff_intent: self.pending_handoff_intent.remove(eid),
            ..self
        };
        if comp != "pos"@ || !self.is_root(eid) {
            self
        } else if self.zone_target(eid, comp, cell) is Some {
            cleared
        } else if self.grid2d is Some {
            self
        } else {
            let e = self.entities[eid];
            match intended(e.pos.x, e.region, self.boundaries) {
                Some(t) => self.loss_warned(eid, e.region, t),
                None => cleared,
            }
        }
    }
}

fn region_by_position(s: &ServerState, e: &Entity, cell: &str) -> (r: String)
    ensures
        r@ == s@.region_now(e@, cell@),
{
    if s.grid2d.is_some() {
        cell.to_owned()
    } else {
        movement_region_after(&e.pos.x, e.region.as_str(), &s.boundaries, &s.splits)
    }
}

/// Places an entity whose component was written. What comes out is the region that
/// it has to be handed to.
pub fn zone(s: &mut ServerState, eid: &str, comp: &str, cell: &str) -> (r: Option<String>)
    ensures
        opt_string(r) == old(s)@.zone_target(eid@, comp@, cell@),
        final(s)@ == old(s)@.zoned(eid@, comp@, cell@),
{
    if !str_eq(comp, "pos") {
        return None;
    }
    let mut target: Option<String> = None;
    let mut next: Option<String> = None;
    let mut cur = String::new();
    match s.entities.get(eid) {
        Some(e) => {
            if e.components.contains_key("parent") {
                return None;
            }
            let nr = region_by_position(s, e, cell);
            if !str_eq(nr.as_str(), e.region.as_str()) {
                target = Some(nr);
            } else if s.grid2d.is_some() {
                return None;
            } else {
                next = seam_intent_target(&e.pos.x, e.region.as_str(), &s.boundaries);
                cur = e.region.clone();
            }
        },
        None => return None,
    }
    if target.is_some() {
        s.pending_handoff_intent.remove(eid);
        return target;
    }
    match next {
        Some(t) => maybe_emit_loss_imminent(s, eid, cur.as_str(), t.as_str()),
        None => {
            s.pending_handoff_intent.remove(eid);
        },
    }
    None
}

/// How a transfer starts.
pub enum Start {
    /// It is queued, or cannot be.
    Done(bool),
    /// It goes to the log.
    Log(PreparedHandoff),
}

/// A `Start` by its views.
pub ghost enum Begun {
    Done(bool),
    Log(Hand),
}

impl View for Start {
    type V = Begun;

    open spec fn view(&self) -> Begun {
        match self {
            Start::Done(b) => Begun::Done(*b),
            Start::Log(h) => Begun::Log(h@),
        }
    }
}

impl State {
    /// How the transfer of an entity to a region of this broker starts.
    pub open spec fn local_begun(
        self,
        eid: Seq<char>,
        old: Seq<char>,
        new: Seq<char>,
        pos: Option<Vec2>,
        reason: Seq<char>,
    ) -> Begun {
        if is_queued(self.pending_handoffs, eid) {
            Begun::Done(true)
        } else if !self.entities.contains_key(eid) {
            Begun::Done(false)
        } else {
            Begun::Log(self.handoff_of(eid, old, new, pos, reason))
        }
    }

    /// How the transfer of an entity starts. To a neighbour's region it is queued until
    /// the writes before it are applied.
    pub open spec fn begun(
        self,
        eid: Seq<char>,
        old: Seq<char>,
        new: Seq<char>,
        pos: Option<Vec2>,
    ) -> Begun {
        if self.is_remote(new) {
            Begun::Done(self.entities.contains_key(eid))
        } else {
            self.local_begun(eid, old, new, pos, "handoff"@)
        }
    }

    /// The state after a transfer was started.
    pub open spec fn crossing_begun(self, eid: Seq<char>, new: Seq<char>) -> State {
        if self.is_remote(new) {
            self.crossing_queued(eid, new)
        } else {
            self
        }
    }
}

/// Starts the transfer of an entity to another region.
pub fn handoff_with_position(
    s: &mut ServerState,
    eid: &str,
    from: &str,
    to: &str,
    pos_override: &Option<Point>,
) -> (r: Start)
    ensures
        r@ == old(s)@.begun(eid@, from@, to@, opt_point(*pos_override)),
        final(s)@ == old(s)@.crossing_begun(eid@, to@),
{
    if is_remote_region(s, to) {
        let queued: bool = queue_remote_handoff(s, eid, to);
        return Start::Done(queued);
    }
    match prepare_local_handoff(s, eid, from, to, pos_override, "handoff") {
        HandoffPlan::Queued => Start::Done(true),
        HandoffPlan::Missing => Start::Done(false),
        HandoffPlan::Ready(h) => Start::Log(h),
    }
}

impl State {
    /// The transfer of the next part that has to follow its root, from the last of
    /// some on, and the parts that are left.
    pub open spec fn next_part_of(
        self,
        parts: Seq<Seq<char>>,
        to: Seq<char>,
    ) -> (Seq<Seq<char>>, Option<Hand>)
        decreases parts.len(),
    {
        if parts.len() == 0 {
            (parts, None)
        } else {
            let c = parts.last();
            let rest = parts.drop_last();
            if self.entities.contains_key(c) && self.entities[c].region != to && !is_queued(
                self.pending_handoffs,
                c,
            ) {
                (
                    rest,
                    Some(self.handoff_of(c, self.entities[c].region, to, None, "assembly"@)),
                )
            } else {
                self.next_part_of(rest, to)
            }
        }
    }
}

/// An optional transfer by its view.
pub open spec fn opt_hand(o: Option<PreparedHandoff>) -> Option<Hand> {
    match o {
        Some(h) => Some(h@),
        None => None,
    }
}

/// Takes the next part that has to follow its root into a region. What comes out goes
/// to the log.
pub fn next_part(s: &ServerState, parts: &mut Vec<String>, to: &str) -> (r: Option<PreparedHandoff>)
    ensures
        (texts(final(parts)@), opt_hand(r)) == s@.next_part_of(texts(old(parts)@), to@),
        final(parts).len() <= old(parts).len(),
        r is Some ==> final(parts).len() < old(parts).len(),
{
    let ghost before = texts(parts@);
    while parts.len() > 0
        invariant
            before == texts(old(parts)@),
            parts.len() <= old(parts).len(),
            s@.next_part_of(texts(parts@), to@) == s@.next_part_of(before, to@),
        decreases parts.len(),
    {
        let ghost now = texts(parts@);
        let c = match parts.pop() {
            Some(c) => c,
            None => return None,
        };
        proof {
            assert(now.last() == c@);
            assert(texts(parts@) =~= now.drop_last());
        }
        if let Some(e) = s.entities.get(c.as_str()) {
            if !str_eq(e.region.as_str(), to) {
                if let HandoffPlan::Ready(h) = prepare_local_handoff(
                    s,
                    c.as_str(),
                    e.region.as_str(),
                    to,
                    &None,
                    "assembly",
                ) {
                    return Some(h);
                }
            }
        }
    }
    proof {
        assert(texts(parts@) =~= Seq::empty());
    }
    None
}

impl State {
    /// Whether a crossing that waited still leads where the entity belongs.
    pub open spec fn is_current(self, eid: Seq<char>, target: Seq<char>, cell: Seq<char>) -> bool {
        self.entities.contains_key(eid) && self.region_now(self.entities[eid], cell) == target
            && self.is_remote(target)
    }
}

/// Whether a crossing that waited still leads where the entity belongs.
pub fn remote_handoff_target_still_current(
    s: &ServerState,
    eid: &str,
    target: &str,
    cell: &str,
) -> (r: bool)
    ensures
        r == s@.is_current(eid@, target@, cell@),
{
    match s.entities.get(eid) {
        Some(e) => {
            let next = region_by_position(s, e, cell);
            str_eq(next.as_str(), target) && is_remote_region(s, target)
        },
        None => false,
    }
}

/// Takes the crossings that wait.
pub fn take_remote_handoffs(s: &mut ServerState) -> (r: Vec<PendingRemoteHandoff>)
    ensures
        views(r@) == old(s)@.pending_remote_handoffs,
        final(s)@ == (State { pending_remote_handoffs: Seq::empty(), ..old(s)@ }),
{
    let mut out: Vec<PendingRemoteHandoff> = Vec::new();
    core::mem::swap(&mut s.pending_remote_handoffs, &mut out);
    proof {
        assert(views(s.pending_remote_handoffs@) =~= Seq::empty());
    }
    out
}

/// The departure that a crossing which waited becomes; none where it is outdated, or
/// where the entity cannot leave now.
pub fn flush_remote_handoff(s: &ServerState, h: &PendingRemoteHandoff, cell: &str) -> (r: Option<
    Departure,
>)
    ensures
        match r {
            Some(d) => {
                &&& s@.is_current(h@.0, h@.1, cell@)
                &&& s@.can_leave(h@.0, h@.1)
                &&& d@ == s@.departure_of(h@.0, h@.1)
            },
            None => !s@.is_current(h@.0, h@.1, cell@) || !s@.can_leave(h@.0, h@.1),
        },
{
    if !remote_handoff_target_still_current(s, h.eid.as_str(), h.target.as_str(), cell) {
        return None;
    }
    prepare_mesh_forward(s, h.eid.as_str(), h.target.as_str())
}

impl State {
    /// Where an entity goes when the broker is drained: the neighbour that its position
    /// belongs to, where there is a link to it, and else the first that there is.
    pub open spec fn drain_target(self, eid: Seq<char>) -> Seq<char> {
        let e = self.entities[eid];
        let n = first_region(e.pos.x, self.boundaries);
        if is_strip(coarse(e.region), self.boundaries.len()) && n != e.region && self.mesh.contains(n) {
            n
        } else {
            sorted(self.mesh)[0]
        }
    }
}

/// The entities of a broker that is drained, each with the neighbour that it goes to.
/// Without a link they stay.
pub fn drain_targets(s: &ServerState) -> (r: Vec<PendingRemoteHandoff>)
    ensures
        views(r@) == if s@.mesh.len() == 0 {
            Seq::empty()
        } else {
            sorted(s@.entities.dom()).map_values(|k: Seq<char>| (k, s@.drain_target(k)))
        },
{
    let mut out: Vec<PendingRemoteHandoff> = Vec::new();
    if s.mesh.len() == 0 {
        proof {
            assert(views(out@) =~= Seq::empty());
        }
        return out;
    }
    let links = sorted_texts(&s.mesh);
    proof {
        assert(texts(links@).len() == links@.len());
        if links@.len() == 0 {
            assert(texts(links@).to_set() =~= Set::empty());
        }
    }
    let ids = sorted_keys(&s.entities);
    let ghost all = texts(ids@);
    let mut i: usize = 0;
    while i < ids.len()
        invariant
            i <= ids.len(),
            out.len() == i,
            all == texts(ids@),
            all.to_set() == s@.entities.dom(),
            links.len() > 0,
            texts(links@) == sorted(s@.mesh),
            forall|j: int|
                0 <= j < i ==> (#[trigger] out@[j])@ == (all[j], s@.drain_target(all[j])),
        decreases ids.len() - i,
    {
        let eid = ids[i].as_str();
        proof {
            assert(all[i as int] == eid@);
            assert(all.to_set().contains(eid@));
            assert(texts(links@)[0] == links@[0]@);
        }
        let mut target = links[0].clone();
        if let Some(e) = s.entities.get(eid) {
            let c = coarse_region(e.region.as_str());
            if is_strip_region_name(c.as_str(), s.boundaries.len()) {
                let n = initial_region(&e.pos.x, &s.boundaries);
                if !str_eq(n.as_str(), e.region.as_str()) && s.mesh.contains(n.as_str()) {
                    target = n;
                }
            }
        }
        out.push(PendingRemoteHandoff { eid: ids[i].clone(), target });
        i = i + 1;
    }
    proof {
        assert(views(out@) =~= all.map_values(|k: Seq<char>| (k, s@.drain_target(k))));
    }
    out
}

/// What a request to fold an entity into a far region comes to.
pub struct Fold {
    pub eid: String,
    pub from: String,
    pub to: String,
    pub pos: Option<Point>,
}

impl State {
    /// Whether an entity is folded: the peer holds its region, and the target is
    /// another.
    pub open spec fn folds(self, wid: Seq<char>, f: Doc) -> bool {
        &&& f.get_str("entity"@) is Some
        &&& self.entities.contains_key(f.get_str("entity"@)->0)
        &&& at(self.region_worker, self.entities[f.get_str("entity"@)->0].region) == Some(wid)
        &&& text_or(f.get_str("region"@), ""@).len() > 0
        &&& text_or(f.get_str("region"@), ""@) != self.entities[f.get_str("entity"@)->0].region
    }

    /// The state after a request to fold that is not followed: a peer that does not
    /// hold the entity's region is refused.
    pub open spec fn fold_refused(self, wid: Seq<char>, f: Doc) -> State {
        match f.get_str("entity"@) {
            Some(eid) => if self.entities.contains_key(eid) && at(
                self.region_worker,
                self.entities[eid].region,
            ) != Some(wid) {
                self.emitted(
                    wid,
                    update_rejected(
                        eid,
                        "fold"@,
                        "not authoritative; cannot fold an entity you do not own"@,
                    ),
                )
            } else {
                self
            },
            None => self,
        }
    }
}

/// The position that a message gives, where it gives one.
pub open spec fn given_point(f: Doc) -> Option<Vec2> {
    match f.get("pos"@) {
        Some(p) => Some(point_of(Some(p))),
        None => None,
    }
}

/// Takes a request to fold an entity into a far region.
pub fn plan_fold(s: &mut ServerState, wid: &str, f: &Json) -> (r: Option<Fold>)
    ensures
        match r {
            Some(p) => {
                &&& old(s)@.folds(wid@, f@)
                &&& final(s)@ == old(s)@
                &&& Some(p.eid@) == f@.get_str("entity"@)
                &&& p.from@ == old(s)@.entities[p.eid@].region
                &&& p.to@ == text_or(f@.get_str("region"@), ""@)
                &&& opt_point(p.pos) == given_point(f@)
            },
            None => {
                &&& !old(s)@.folds(wid@, f@)
                &&& final(s)@ == old(s)@.fold_refused(wid@, f@)
            },
        },
{
    proof {
        reveal_strlit("");
    }
    let eid = match f.get_str("entity") {
        Some(e) => e,
        None => return None,
    };
    let to = f.str_or("region", "");
    let cur = match s.entities.get(eid) {
        Some(e) => e.region.clone(),
        None => return None,
    };
    let mine: bool = match s.region_worker.get(cur.as_str()) {
        Some(w) => str_eq(w.as_str(), wid),
        None => false,
    };
    if !mine {
        emit(
            s,
            wid,
            update_rejected_json(
                eid,
                "fold",
                "not authoritative; cannot fold an entity you do not own",
            ),
        );
        return None;
    }
    if to.is_empty() || str_eq(to, cur.as_str()) {
        return None;
    }
    let pos: Option<Point> = match f.get("pos") {
        Some(p) => Some(arr2(Some(p))),
        None => None,
    };
    Some(Fold { eid: eid.to_owned(), from: cur, to: to.to_owned(), pos })
}

/// Refuses a fold that could not be started.
pub fn refuse_fold(s: &mut ServerState, wid: &str, eid: &str)
    ensures
        final(s)@ == old(s)@.emitted(
            wid@,
            update_rejected(eid@, "fold"@, "fold handoff failed before durable commit"@),
        ),
{
    emit(
        s,
        wid,
        update_rejected_json(eid, "fold", "fold handoff failed before durable commit"),
    );
}

/// A part follows its root: it is never handed on by its own position.
pub proof fn law_parts_do_not_zone(s: State, eid: Seq<char>, comp: Seq<char>, cell: Seq<char>)
    requires
        s.entities.contains_key(eid),
        s.entities[eid].components.contains_key("parent"@),
    ensures
        s.zone_target(eid, comp, cell) is None,
        s.zoned(eid, comp, cell) == s,
{
}

/// A warning is not repeated: once the owner was warned of a target under an epoch it
/// is not warned again of the same.
pub proof fn law_one_warning(s: State, eid: Seq<char>, source: Seq<char>, target: Seq<char>)
    ensures
        s.loss_warned(eid, source, target).loss_warned(eid, source, target) == s.loss_warned(
            eid,
            source,
            target,
        ),
{
}

/// Nobody folds what is not theirs: such a request moves nothing.
pub proof fn law_only_the_holder_folds(s: State, wid: Seq<char>, f: Doc)
    requires
        f.get_str("entity"@) is Some,
        s.entities.contains_key(f.get_str("entity"@)->0),
        at(s.region_worker, s.entities[f.get_str("entity"@)->0].region) != Some(wid),
    ensures
        !s.folds(wid, f),
        s.fold_refused(wid, f).entities == s.entities,
        s.fold_refused(wid, f).pending_handoffs == s.pending_handoffs,
        s.fold_refused(wid, f).pending_remote_handoffs == s.pending_remote_handoffs,
{
}

}

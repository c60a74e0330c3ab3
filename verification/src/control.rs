//! What peers tell the broker about themselves, and the events and flags that they
//! spread.

use vstd::prelude::*;
use vstd::string::*;
use crate::commands::request_name;
use crate::components::named_entity;
use crate::doc::{float_bits, Doc, Json, Num};
use crate::entity::Ent;
use crate::float::{arr2, float_lt, opt_bits, point_of, Float, Point, Vec2};
use crate::grants::{authoritative_entity_owner, update_rejected, update_rejected_json};
use crate::json::{num_or, opt_doc, or_null, text_or};
use crate::order::sorted;
use crate::sight::{send_full, sorted_keys, take_from_sight, tell_each, visible};
use crate::state::{emit, views, Buffered, BufferedEvent, Peer, ServerState, State};
use crate::strmap::{Dup, texts, StrMap, StrSet};
use crate::text::str_eq;

verus! {

broadcast use {crate::doc::group_json, crate::strmap::group_map};

/// The largest radius that a peer may ask to see.
pub const MAX_AOI: u64 = 5_000;

/// The coarsest grid that a peer may ask for.
pub const MAX_GRID: u64 = 1_000_000;

/// A float between zero and a whole number.
pub open spec fn clamped(b: u64, max: u64) -> u64 {
    if float_lt(b, 0) {
        0
    } else if float_lt(float_bits(Num::Pos(max)), b) {
        float_bits(Num::Pos(max))
    } else {
        b
    }
}

fn clamp_float(f: Float, max: u64) -> (r: Float)
    ensures
        r@ == clamped(f@, max),
{
    let zero = Float::zero();
    let top = Float::of_u64(max);
    if f.lt(&zero) {
        zero
    } else if top.lt(&f) {
        top
    } else {
        f
    }
}

/// The member of a message under either of two names.
pub open spec fn either(f: Doc, a: Seq<char>, b: Seq<char>) -> Option<Doc> {
    match f.get(a) {
        Some(d) => Some(d),
        None => f.get(b),
    }
}

fn member_of_either<'a>(f: &'a Json, a: &str, b: &str) -> (r: Option<&'a Json>)
    ensures
        opt_doc(r) == either(f@, a@, b@),
{
    match f.get(a) {
        Some(d) => Some(d),
        None => f.get(b),
    }
}

/// A number in bounds.
pub open spec fn clamped_radius(d: Option<Doc>, max: u64) -> Option<u64> {
    match d {
        Some(v) => match v.as_float() {
            Some(b) => Some(clamped(b, max)),
            None => None,
        },
        None => None,
    }
}

fn read_clamped(d: Option<&Json>, max: u64) -> (r: Option<Float>)
    ensures
        opt_bits(r) == clamped_radius(opt_doc(d), max),
{
    match d {
        Some(v) => match Float::of_json(v) {
            Some(f) => Some(clamp_float(f, max)),
            None => None,
        },
        None => None,
    }
}

/// The centre that a peer asks to see around.
pub open spec fn asked_center(f: Doc) -> Option<Vec2> {
    match f.get("center"@) {
        Some(Doc::Arr(s)) => Some(point_of(Some(Doc::Arr(s)))),
        _ => None,
    }
}

/// The rate that a peer asks for.
pub open spec fn asked_rate(f: Doc) -> u64 {
    let n = match either(f, "coarse_rate"@, "coarseRate"@) {
        Some(d) => num_or(d.as_u64(), 1),
        None => 1,
    };
    if n < 1 {
        1
    } else if n > 1000 {
        1000
    } else {
        n
    }
}

/// The grid that a peer asks for.
pub open spec fn asked_grid(f: Doc) -> u64 {
    match clamped_radius(either(f, "coarse_grid"@, "coarseGrid"@), MAX_GRID) {
        Some(b) => b,
        None => 0,
    }
}

/// A peer with the area that it asks to see.
pub open spec fn attentive(w: Peer, f: Doc) -> Peer {
    Peer {
        aoi_center: asked_center(f),
        aoi_radius: clamped_radius(f.get("radius"@), MAX_AOI),
        full_radius: clamped_radius(either(f, "full_radius"@, "fullRadius"@), MAX_AOI),
        coarse_rate: asked_rate(f),
        coarse_grid: asked_grid(f),
        fidelity_seq: Map::empty(),
        ..w
    }
}

/// The reason that a peer does not get to see everything.
pub open spec fn global_denied() -> Doc {
    Doc::Obj(
        map![
            "op"@ => Doc::Str("UpdateRejected"@),
            "comp"@ => Doc::Str("interest"@),
            "reason"@ => Doc::Str(
                "global OBS interest requires the observer/debug/inspector attribute"@,
            )],
    )
}

impl State {
    /// The state after the sight of a peer was brought up to date for some entities.
    pub open spec fn refocused(
        self,
        wid: Seq<char>,
        names: Seq<Seq<char>>,
        near: Set<Seq<char>>,
    ) -> State
        decreases names.len(),
    {
        if names.len() == 0 {
            self
        } else {
            let s = self.refocused(wid, names.drop_last(), near);
            let eid = names.last();
            if s.workers.contains_key(wid) && s.entities.contains_key(eid) {
                let w = s.workers[wid];
                let inside = w.sees(s.entities[eid], near.contains(eid));
                let had = w.view.contains(eid);
                if inside && !had {
                    s.shown(wid, eid)
                } else if !inside && had {
                    s.hidden(wid, eid)
                } else {
                    s
                }
            } else {
                s
            }
        }
    }

    /// The state after a peer asked for an area to see.
    pub open spec fn focused(self, wid: Seq<char>, f: Doc, near: Set<Seq<char>>) -> State {
        if self.workers.contains_key(wid) {
            let w = self.workers[wid];
            let s = State { workers: self.workers.insert(wid, attentive(w, f)), ..self };
            let s2 = if asked_center(f) is None && w.region == "OBS"@ && !w.sees_all() {
                s.emitted(wid, global_denied())
            } else {
                s
            };
            s2.refocused(wid, sorted(self.entities.dom()), near)
        } else {
            self
        }
    }
}

/// Sets the area that a peer asks to see, and brings its sight up to date. `near`
/// are the entities in the new area.
pub fn handle_interest(s: &mut ServerState, wid: &str, f: &Json, near: &StrSet)
    ensures
        final(s)@ == old(s)@.focused(wid@, f@, near@),
{
    let center: Option<Point> = match f.get("center") {
        Some(c) => match c.as_array() {
            Some(_) => Some(arr2(Some(c))),
            None => None,
        },
        None => None,
    };
    let rate: u64 = match member_of_either(f, "coarse_rate", "coarseRate") {
        Some(d) => match d.as_u64() {
            Some(n) => n,
            None => 1,
        },
        None => 1,
    };
    let rate: u64 = if rate < 1 {
        1
    } else if rate > 1000 {
        1000
    } else {
        rate
    };
    let grid: Float = match read_clamped(member_of_either(f, "coarse_grid", "coarseGrid"), MAX_GRID) {
        Some(g) => g,
        None => Float::zero(),
    };
    let mut denied: bool = false;
    match s.workers.remove(wid) {
        None => return,
        Some(mut w) => {
            denied = center.is_none() && str_eq(w.region.as_str(), "OBS")
                && !w.has_global_observer_claim();
            w.aoi_center = center;
            w.aoi_radius = read_clamped(f.get("radius"), MAX_AOI);
            w.fidelity_full_radius = read_clamped(
                member_of_either(f, "full_radius", "fullRadius"),
                MAX_AOI,
            );
            w.fidelity_coarse_rate = rate;
            w.fidelity_coarse_grid = grid;
            w.fidelity_seq = StrMap::new();
            s.workers.insert(wid, w);
        },
    }
    if denied {
        let msg = StrMap::new().with("op", Json::str("UpdateRejected")).with(
            "comp",
            Json::str("interest"),
        ).with(
            "reason",
            Json::str("global OBS interest requires the observer/debug/inspector attribute"),
        ).done();
        emit(s, wid, msg);
    }
    let ghost before = s@;
    let ids = sorted_keys(&s.entities);
    let ghost all = texts(ids@);
    let mut i: usize = 0;
    proof {
        assert(all.take(0) =~= Seq::empty());
    }
    while i < ids.len()
        invariant
            i <= ids.len(),
            all == texts(ids@),
            s@ == before.refocused(wid@, all.take(i as int), near@),
        decreases ids.len() - i,
    {
        let eid = ids[i].as_str();
        proof {
            assert(all.take(i + 1).drop_last() =~= all.take(i as int));
            assert(all.take(i + 1).last() == eid@);
        }
        let mut inside: bool = false;
        let mut had: bool = false;
        if let Some(w) = s.workers.get(wid) {
            if let Some(e) = s.entities.get(eid) {
                inside = visible(w, e, near.contains(eid));
                had = w.view.contains(eid);
            }
        }
        if inside && !had {
            send_full(s, wid, eid);
        } else if !inside && had {
            take_from_sight(s, wid, eid);
        }
        i = i + 1;
    }
    proof {
        assert(all.take(i as int) =~= all);
    }
}

/// The class of an event: critical unless stated otherwise.
pub open spec fn event_class(f: Doc) -> Seq<char> {
    text_or(f.get_str("class"@), "critical"@)
}

/// The key under which events are merged: stated, or the entity and the event.
pub open spec fn event_key(f: Doc) -> Seq<char> {
    match f.get_str("coalesce_key"@) {
        Some(k) => k,
        None => named_entity(f) + ":"@ + text_or(f.get_str("event"@), ""@),
    }
}

/// A component of an entity, or null.
pub open spec fn stamp(e: Ent, comp: Seq<char>) -> Doc {
    if e.components.contains_key(comp) {
        e.components[comp]
    } else {
        Doc::Null
    }
}

/// An event as it is sent.
pub open spec fn event_msg(b: Buffered) -> Doc {
    Doc::Obj(
        map![
            "op"@ => Doc::Str("EntityEvent"@),
            "entity"@ => Doc::Str(b.eid),
            "event"@ => b.event,
            "payload"@ => b.payload,
            "sim_time"@ => b.sim_time,
            "gen"@ => b.gen,
            "class"@ => Doc::Str(b.class)],
    )
}

fn event_msg_fields(b: &BufferedEvent) -> (r: StrMap<Json>)
    ensures
        Doc::Obj(r@) == event_msg(b@),
{
    StrMap::new().with("op", Json::str("EntityEvent")).with("entity", Json::str(b.eid.as_str())).with(
        "event",
        b.event.dup(),
    ).with("payload", b.payload.dup()).with("sim_time", b.sim_time.dup()).with("gen", b.gen.dup()).with(
        "class",
        Json::str(b.class.as_str()),
    )
}

impl State {
    /// Those of some peers that see an entity.
    pub open spec fn watchers(
        self,
        eid: Seq<char>,
        near: Set<Seq<char>>,
        names: Seq<Seq<char>>,
    ) -> Seq<Seq<char>>
        decreases names.len(),
    {
        if names.len() == 0 {
            Seq::empty()
        } else {
            let before = self.watchers(eid, near, names.drop_last());
            let wid = names.last();
            if self.workers.contains_key(wid) && self.entities.contains_key(eid)
                && self.workers[wid].sees(self.entities[eid], near.contains(wid)) {
                before.push(wid)
            } else {
                before
            }
        }
    }

    /// The event that a request fires, with the clocks of its entity.
    pub open spec fn event_of(self, f: Doc, near: Set<Seq<char>>) -> Buffered {
        let eid = named_entity(f);
        Buffered {
            targets: self.watchers(eid, near, sorted(self.workers.dom())),
            eid,
            event: or_null(f.get("event"@)),
            payload: or_null(f.get("payload"@)),
            class: event_class(f),
            key: event_key(f),
            sim_time: stamp(self.entities[eid], "sim_time"@),
            gen: stamp(self.entities[eid], "gen"@),
        }
    }

    /// The state after an event: a critical one reaches everybody who sees the entity
    /// at once, the others wait to be merged.
    pub open spec fn fired(self, wid: Seq<char>, f: Doc, near: Set<Seq<char>>) -> State {
        let eid = named_entity(f);
        match self.entity_refusal(wid, eid) {
            Some(reason) => self.emitted(wid, update_rejected(eid, "event"@, reason)),
            None => {
                let b = self.event_of(f, near);
                if b.class == "critical"@ {
                    self.told_each(b.targets, event_msg(b))
                } else {
                    State { event_outbox: self.event_outbox.push(b), ..self }
                }
            },
        }
    }
}

fn collect_watchers(s: &ServerState, eid: &str, near: &StrSet) -> (r: Vec<String>)
    ensures
        texts(r@) == s@.watchers(eid@, near@, sorted(s@.workers.dom())),
{
    let wids = sorted_keys(&s.workers);
    let ghost all = texts(wids@);
    let mut out: Vec<String> = Vec::new();
    let mut i: usize = 0;
    proof {
        assert(all.take(0) =~= Seq::empty());
        assert(texts(out@) =~= Seq::empty());
    }
    while i < wids.len()
        invariant
            i <= wids.len(),
            all == texts(wids@),
            texts(out@) == s@.watchers(eid@, near@, all.take(i as int)),
        decreases wids.len() - i,
    {
        let wid = wids[i].as_str();
        let ghost before = texts(out@);
        proof {
            assert(all.take(i + 1).drop_last() =~= all.take(i as int));
            assert(all.take(i + 1).last() == wid@);
        }
        if let Some(w) = s.workers.get(wid) {
            if let Some(e) = s.entities.get(eid) {
                if visible(w, e, near.contains(wid)) {
                    out.push(wids[i].clone());
                    proof {
                        assert(texts(out@) =~= before.push(wid@));
                    }
                }
            }
        }
        i = i + 1;
    }
    proof {
        assert(all.take(i as int) =~= all);
    }
    out
}

/// Fires an event of an entity. `near` are the peers whose area the entity is in.
pub fn handle_entity_event(s: &mut ServerState, wid: &str, f: &Json, near: &StrSet)
    ensures
        final(s)@ == old(s)@.fired(wid@, f@, near@),
{
    let eid = f.str_or("entity", "");
    if let Err(reason) = authoritative_entity_owner(s, wid, eid) {
        emit(s, wid, update_rejected_json(eid, "event", reason.as_str()));
        return;
    }
    let mut sim_time = Json::Null;
    let mut gen = Json::Null;
    if let Some(e) = s.entities.get(eid) {
        if let Some(v) = e.components.get("sim_time") {
            sim_time = v.dup();
        }
        if let Some(v) = e.components.get("gen") {
            gen = v.dup();
        }
    }
    let key: String = match f.get_str("coalesce_key") {
        Some(k) => k.to_owned(),
        None => {
            let mut k = eid.to_owned();
            k.append(":");
            k.append(f.str_or("event", ""));
            k
        },
    };
    let b = BufferedEvent {
        target_wids: collect_watchers(s, eid, near),
        eid: eid.to_owned(),
        event: f.member("event"),
        payload: f.member("payload"),
        class: f.str_or("class", "critical").to_owned(),
        coalesce_key: key,
        sim_time,
        gen,
    };
    proof {
        assert(b@ =~= s@.event_of(f@, near@));
    }
    if str_eq(b.class.as_str(), "critical") {
        let msg = event_msg_fields(&b).done();
        tell_each(s, &b.target_wids, &msg);
    } else {
        let ghost before = views(s.event_outbox@);
        s.event_outbox.push(b);
        proof {
            assert(views(s.event_outbox@) =~= before.push(b@));
        }
    }
}

/// The state of a flag, as it is sent.
pub open spec fn flag_msg(flag: Seq<char>, value: Doc) -> Doc {
    Doc::Obj(
        map![
            "op"@ => Doc::Str("FlagUpdate"@),
            "flag"@ => Doc::Str(flag),
            "value"@ => value],
    )
}

impl State {
    /// The state after a flag was set, and everybody told.
    pub open spec fn flagged(self, f: Doc) -> State {
        let flag = text_or(f.get_str("flag"@), ""@);
        let value = or_null(f.get("value"@));
        (State { flags: self.flags.insert(flag, value), ..self }).told_each(
            sorted(self.workers.dom()),
            flag_msg(flag, value),
        )
    }

    /// The state with a peer's load on record.
    pub open spec fn load_noted(self, wid: Seq<char>, f: Doc) -> State {
        let load = match f.get("load"@) {
            Some(d) => match d.as_float() {
                Some(b) => b,
                None => 0,
            },
            None => 0,
        };
        State { worker_load: self.worker_load.insert(wid, load), ..self }
    }
}

/// Sets a flag, and tells everybody.
pub fn handle_flag_update(s: &mut ServerState, f: &Json)
    ensures
        final(s)@ == old(s)@.flagged(f@),
{
    let flag = f.str_or("flag", "");
    let value = f.member("value");
    let msg = StrMap::new().with("op", Json::str("FlagUpdate")).with("flag", Json::str(flag)).with(
        "value",
        value.dup(),
    ).done();
    s.flags.insert(flag, value);
    let wids = sorted_keys(&s.workers);
    tell_each(s, &wids, &msg);
}

/// Puts a peer's load on record.
pub fn handle_metrics(s: &mut ServerState, wid: &str, f: &Json)
    ensures
        final(s)@ == old(s)@.load_noted(wid@, f@),
{
    let load: Float = match f.get("load") {
        Some(v) => match Float::of_json(v) {
            Some(x) => x,
            None => Float::zero(),
        },
        None => Float::zero(),
    };
    s.worker_load.insert(wid, load);
}

/// The event that a block of entity numbers was reserved.
pub open spec fn reserve_event(first: u64, count: u64, next: u64) -> Doc {
    Doc::Obj(
        map![
            "kind"@ => Doc::Str("reserve_entity_ids"@),
            "first_id"@ => Doc::Num(Num::Pos(first)),
            "count"@ => Doc::Num(Num::Pos(count)),
            "next_id"@ => Doc::Num(Num::Pos(next))],
    )
}

/// The event of a reservation.
pub fn reserve_wal_event(first: u64, count: u64, next: u64) -> (r: Json)
    ensures
        r@ == reserve_event(first, count, next),
{
    StrMap::new().with("kind", Json::str("reserve_entity_ids")).with("first_id", Json::u64(first)).with(
        "count",
        Json::u64(count),
    ).with("next_id", Json::u64(next)).done()
}

/// How many numbers a request asks for.
pub open spec fn reserve_count(f: Doc) -> u64 {
    num_or(f.get_u64("count"@), 1)
}

/// Plans the reservation of a block of entity numbers: what goes to the log.
pub fn plan_reserve(s: &ServerState, f: &Json) -> (r: Json)
    ensures
        r@ == reserve_event(
            s@.entity_id_reservations,
            reserve_count(f@),
            crate::clock::plus(s@.entity_id_reservations, reserve_count(f@)),
        ),
{
    let n: u64 = f.u64_or("count", 1);
    let first: u64 = s.entity_id_reservations;
    reserve_wal_event(first, n, first.saturating_add(n))
}

/// A rejection that answers a request.
pub open spec fn request_rejected(req: Seq<char>, reason: Seq<char>) -> Doc {
    Doc::Obj(
        map![
            "op"@ => Doc::Str("UpdateRejected"@),
            "request_id"@ => Doc::Str(req),
            "reason"@ => Doc::Str(reason)],
    )
}

/// A rejection that answers a request.
pub fn request_rejected_json(req: &str, reason: &str) -> (r: Json)
    ensures
        r@ == request_rejected(req@, reason@),
{
    StrMap::new().with("op", Json::str("UpdateRejected")).with("request_id", Json::str(req)).with(
        "reason",
        Json::str(reason),
    ).done()
}

/// The answer to a request for numbers.
pub open spec fn block_given(f: Doc, first: u64, count: u64) -> Doc {
    Doc::Obj(
        map![
            "op"@ => Doc::Str("ReserveEntityIdsResponse"@),
            "request_id"@ => Doc::Str(request_name(f)),
            "first_id"@ => Doc::Num(Num::Pos(first)),
            "count"@ => Doc::Num(Num::Pos(count))],
    )
}

impl State {
    /// The state after a reservation went to the log, or did not: only then are the
    /// numbers given out.
    pub open spec fn reserved(self, wid: Seq<char>, f: Doc, written: bool) -> State {
        let n = reserve_count(f);
        if written {
            (State {
                entity_id_reservations: crate::clock::plus(self.entity_id_reservations, n),
                ..self
            }).emitted(wid, block_given(f, self.entity_id_reservations, n))
        } else {
            self.emitted(
                wid,
                request_rejected(
                    request_name(f),
                    "wal_persist_failed: id reservation not durably recorded"@,
                ),
            )
        }
    }
}

/// Gives out a block of entity numbers whose reservation is on the log.
pub fn finish_reserve(s: &mut ServerState, wid: &str, f: &Json, written: bool)
    ensures
        final(s)@ == old(s)@.reserved(wid@, f@, written),
{
    let req = f.str_or("request_id", "");
    if !written {
        emit(
            s,
            wid,
            request_rejected_json(
                req,
                "wal_persist_failed: id reservation not durably recorded",
            ),
        );
        return;
    }
    let n: u64 = f.u64_or("count", 1);
    let first: u64 = s.entity_id_reservations;
    s.entity_id_reservations = first.saturating_add(n);
    let msg = StrMap::new().with("op", Json::str("ReserveEntityIdsResponse")).with(
        "request_id",
        Json::str(req),
    ).with("first_id", Json::u64(first)).with("count", Json::u64(n)).done();
    emit(s, wid, msg);
}

/// No number is given out twice: a later block starts where the one before ended,
/// or above.
pub proof fn law_blocks_do_not_overlap(s: State, wid: Seq<char>, f: Doc, written: bool)
    ensures
        s.reserved(wid, f, written).entity_id_reservations >= s.entity_id_reservations,
        written && s.entity_id_reservations + reserve_count(f) <= u64::MAX ==> s.reserved(
            wid,
            f,
            written,
        ).entity_id_reservations == s.entity_id_reservations + reserve_count(f),
{
}

}

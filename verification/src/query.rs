//! Queries over the entities that a peer sees.

use vstd::prelude::*;
use crate::authority::{authority_doc, authority_to_json};
use crate::commands::request_name;
use crate::doc::{docs, Doc, Json, Num};
use crate::entity::{acl_read_ok_components, may_read, Ent};
use crate::float::{arr2, float_lt, opt_bits, point_of, Float, Point, Vec2};
use crate::json::text_or;
use crate::order::sorted;
use crate::sight::{sorted_keys, visible};
use crate::state::{
    emit, GhostEntity, HandoffIntent, Intent, Mirror, Peer, ServerState, State, Worker,
};
use crate::strmap::{texts, Dup, StrMap, StrSet};
use crate::text::str_eq;

verus! {

broadcast use {crate::doc::group_json, crate::strmap::group_map};

/// The kind of a query: `all` where it states none.
pub open spec fn query_kind(q: Doc) -> Seq<char> {
    text_or(q.get_str("type"@), "all"@)
}

/// Whether a coordinate lies between two others.
pub open spec fn between(x: Option<u64>, lo: Option<u64>, hi: Option<u64>) -> bool {
    &&& x is Some
    &&& lo is Some
    &&& hi is Some
    &&& !float_lt(x->0, lo->0)
    &&& !float_lt(hi->0, x->0)
}

/// Whether a thing matches a query, by its position, its components and its region;
/// `in_sphere` is whether the position lies in the sphere of the query.
pub open spec fn matches(
    q: Doc,
    pos: Vec2,
    comps: Map<Seq<char>, Doc>,
    region: Seq<char>,
    in_sphere: bool,
) -> bool {
    let kind = query_kind(q);
    if kind == "all"@ {
        true
    } else if kind == "sphere"@ {
        in_sphere
    } else if kind == "box"@ {
        let lo = point_of(q.get("min"@));
        let hi = point_of(q.get("max"@));
        between(pos.x, lo.x, hi.x) && between(pos.y, lo.y, hi.y)
    } else if kind == "component"@ {
        let comp = text_or(q.get_str("comp"@), ""@);
        comps.contains_key(comp) || comp == "pos"@ || comp == "vel"@
    } else if kind == "region"@ {
        q.get_str("region"@) == Some(region)
    } else {
        false
    }
}

fn lies_between(x: &Option<Float>, lo: &Option<Float>, hi: &Option<Float>) -> (r: bool)
    ensures
        r == between(opt_bits(*x), opt_bits(*lo), opt_bits(*hi)),
{
    match x {
        Some(x) => match lo {
            Some(lo) => match hi {
                Some(hi) => !x.lt(lo) && !hi.lt(x),
                None => false,
            },
            None => false,
        },
        None => false,
    }
}

/// Whether a thing matches a query.
pub fn matches_query(
    q: &Json,
    pos: &Point,
    comps: &StrMap<Json>,
    region: &str,
    in_sphere: bool,
) -> (r: bool)
    ensures
        r == matches(q@, pos@, comps@, region@, in_sphere),
{
    let kind = q.str_or("type", "all");
    if str_eq(kind, "all") {
        true
    } else if str_eq(kind, "sphere") {
        in_sphere
    } else if str_eq(kind, "box") {
        let lo = arr2(q.get("min"));
        let hi = arr2(q.get("max"));
        lies_between(&pos.x, &lo.x, &hi.x) && lies_between(&pos.y, &lo.y, &hi.y)
    } else if str_eq(kind, "component") {
        let comp = q.str_or("comp", "");
        comps.contains_key(comp) || str_eq(comp, "pos") || str_eq(comp, "vel")
    } else if str_eq(kind, "region") {
        match q.get_str("region") {
            Some(r) => str_eq(r, region),
            None => false,
        }
    } else {
        false
    }
}

/// The warning of a transfer as a document.
pub open spec fn intent_doc(i: Intent) -> Doc {
    Doc::Obj(
        map![
            "source"@ => Doc::Str(i.source_worker),
            "target"@ => Doc::Str(i.target_worker),
            "source_region"@ => Doc::Str(i.source_region),
            "target_region"@ => Doc::Str(i.target_region),
            "epoch"@ => Doc::Num(Num::Pos(i.epoch)),
            "state"@ => Doc::Str("AUTHORITY_LOSS_IMMINENT"@)],
    )
}

/// The warning of a transfer as a value.
pub fn handoff_intent_to_json(i: &HandoffIntent) -> (r: Json)
    ensures
        r@ == intent_doc(i@),
{
    StrMap::new().with("source", Json::str(i.source_worker.as_str())).with(
        "target",
        Json::str(i.target_worker.as_str()),
    ).with("source_region", Json::str(i.source_region.as_str())).with(
        "target_region",
        Json::str(i.target_region.as_str()),
    ).with("epoch", Json::u64(i.epoch)).with("state", Json::str("AUTHORITY_LOSS_IMMINENT")).done()
}

/// An entity as a row of an answer.
pub open spec fn entity_row(eid: Seq<char>, e: Ent, intent: Option<Intent>) -> Doc {
    let m = map![
        "entity"@ => Doc::Str(eid),
        "pos"@ => e.pos.doc(),
        "components"@ => Doc::Obj(e.components),
        "region"@ => Doc::Str(e.region),
        "authority"@ => authority_doc(e.authority)];
    match intent {
        Some(i) => Doc::Obj(m.insert("handoff_intent"@, intent_doc(i))),
        None => Doc::Obj(m),
    }
}

/// A mirror as a row of an answer: marked as such, and without authority.
pub open spec fn mirror_row(eid: Seq<char>, g: Mirror) -> Doc {
    Doc::Obj(
        map![
            "entity"@ => Doc::Str(eid),
            "pos"@ => g.pos.doc(),
            "components"@ => Doc::Obj(g.components.insert("ghost"@, Doc::Bool(true))),
            "region"@ => Doc::Str(g.owner_region),
            "ghost"@ => Doc::Bool(true),
            "owner_region"@ => Doc::Str(g.owner_region),
            "authority"@ => Doc::Obj(Map::empty())],
    )
}

/// What distances say about a query: which things lie in its sphere, and which in
/// the area that the peer asked to see.
pub struct Reach {
    pub in_sphere: StrSet,
    pub near: StrSet,
}

impl State {
    /// Whether a peer gets warnings of transfers.
    pub open spec fn wants_intents(self, wid: Seq<char>, f: Doc) -> bool {
        let a = self.workers[wid].attributes;
        f.get("include_handoff_intent"@) == Some(Doc::Bool(true)) && (a.contains("observer"@)
            || a.contains("debug"@))
    }

    /// The rows of those of some entities that match a query and that a peer sees.
    pub open spec fn entity_rows(
        self,
        wid: Seq<char>,
        f: Doc,
        in_sphere: Set<Seq<char>>,
        near: Set<Seq<char>>,
        names: Seq<Seq<char>>,
    ) -> Seq<Doc>
        decreases names.len(),
    {
        if names.len() == 0 {
            Seq::empty()
        } else {
            let before = self.entity_rows(wid, f, in_sphere, near, names.drop_last());
            let eid = names.last();
            let e = self.entities[eid];
            if self.entities.contains_key(eid) && matches(
                query_of(f),
                e.pos,
                e.components,
                e.region,
                in_sphere.contains(eid),
            ) && self.workers[wid].sees(e, near.contains(eid)) {
                before.push(
                    entity_row(
                        eid,
                        e,
                        if self.wants_intents(wid, f) {
                            crate::handoff::at(self.pending_handoff_intent, eid)
                        } else {
                            None
                        },
                    ),
                )
            } else {
                before
            }
        }
    }

    /// The rows of those of some mirrors that match a query and that a peer sees.
    pub open spec fn mirror_rows(
        self,
        wid: Seq<char>,
        f: Doc,
        in_sphere: Set<Seq<char>>,
        near: Set<Seq<char>>,
        names: Seq<Seq<char>>,
    ) -> Seq<Doc>
        decreases names.len(),
    {
        if names.len() == 0 {
            Seq::empty()
        } else {
            let before = self.mirror_rows(wid, f, in_sphere, near, names.drop_last());
            let eid = names.last();
            let g = self.ghosts[eid];
            if self.ghosts.contains_key(eid) && matches(
                query_of(f),
                g.pos,
                g.components,
                g.owner_region,
                in_sphere.contains(eid),
            ) && self.workers[wid].sees_mirror(g, near.contains(eid)) {
                before.push(mirror_row(eid, g))
            } else {
                before
            }
        }
    }

    /// The state after a query was answered: the entities first, then the mirrors.
    pub open spec fn queried(
        self,
        wid: Seq<char>,
        f: Doc,
        in_sphere: Set<Seq<char>>,
        near: Set<Seq<char>>,
    ) -> State {
        if self.workers.contains_key(wid) {
            let rows = self.entity_rows(wid, f, in_sphere, near, sorted(self.entities.dom()))
                + self.mirror_rows(wid, f, in_sphere, near, sorted(self.ghosts.dom()));
            self.emitted(
                wid,
                Doc::Obj(
                    map![
                        "op"@ => Doc::Str("EntityQueryResponse"@),
                        "request_id"@ => Doc::Str(request_name(f)),
                        "count"@ => Doc::Num(Num::Pos(rows.len() as u64)),
                        "entities"@ => Doc::Arr(rows)],
                ),
            )
        } else {
            self
        }
    }
}

impl Peer {
    /// Whether the peer sees a mirror: it is interested, and may read it.
    pub open spec fn sees_mirror(self, g: Mirror, near: bool) -> bool {
        self.interested(g.pos, near) && may_read(self.attributes, g.components)
    }
}

/// Whether a peer sees a mirror.
pub fn ghost_visible(w: &Worker, g: &GhostEntity, near: bool) -> (r: bool)
    ensures
        r == w@.sees_mirror(g@, near),
{
    w.interested_in(&g.pos, near) && acl_read_ok_components(&w.attributes, &g.components)
}

/// The query that a request asks: all where it asks none.
pub open spec fn query_of(f: Doc) -> Doc {
    match f.get("query"@) {
        Some(q) => q,
        None => Doc::Obj(map!["type"@ => Doc::Str("all"@)]),
    }
}

fn read_query(f: &Json) -> (r: Json)
    ensures
        r@ == query_of(f@),
{
    match f.get("query") {
        Some(q) => q.dup(),
        None => StrMap::new().with("type", Json::str("all")).done(),
    }
}

fn collect_entity_rows(s: &ServerState, w: &Worker, wid: &str, f: &Json, q: &Json, reach: &Reach) -> (r:
    Vec<Json>)
    requires
        s@.workers.contains_key(wid@),
        s@.workers[wid@] == w@,
        q@ == query_of(f@),
    ensures
        docs(r@) == s@.entity_rows(
            wid@,
            f@,
            reach.in_sphere@,
            reach.near@,
            sorted(s@.entities.dom()),
        ),
{
    let asked: bool = match f.get("include_handoff_intent") {
        Some(v) => match v.as_bool() {
            Some(b) => b,
            None => false,
        },
        None => false,
    };
    let intents: bool = asked && (w.attributes.contains("observer") || w.attributes.contains("debug"));
    proof {
        assert(intents == s@.wants_intents(wid@, f@));
    }
    let ids = sorted_keys(&s.entities);
    let ghost all = texts(ids@);
    let mut rows: Vec<Json> = Vec::new();
    let mut i: usize = 0;
    proof {
        assert(all.take(0) =~= Seq::empty());
        assert(docs(rows@) =~= Seq::<Doc>::empty());
    }
    while i < ids.len()
        invariant
            i <= ids.len(),
            all == texts(ids@),
            s@.workers.contains_key(wid@),
            s@.workers[wid@] == w@,
            q@ == query_of(f@),
            intents == s@.wants_intents(wid@, f@),
            docs(rows@) == s@.entity_rows(
                wid@,
                f@,
                reach.in_sphere@,
                reach.near@,
                all.take(i as int),
            ),
        decreases ids.len() - i,
    {
        let eid = ids[i].as_str();
        let ghost before = docs(rows@);
        proof {
            assert(all.take(i + 1).drop_last() =~= all.take(i as int));
            assert(all.take(i + 1).last() == eid@);
        }
        if let Some(e) = s.entities.get(eid) {
            if matches_query(
                q,
                &e.pos,
                &e.components,
                e.region.as_str(),
                reach.in_sphere.contains(eid),
            ) && visible(w, e, reach.near.contains(eid)) {
                let row = StrMap::new().with("entity", Json::str(eid)).with("pos", e.pos.json()).with(
                    "components",
                    e.components.dup().done(),
                ).with("region", Json::str(e.region.as_str())).with(
                    "authority",
                    authority_to_json(&e.authority),
                );
                let row = if intents {
                    match s.pending_handoff_intent.get(eid) {
                        Some(i) => row.with("handoff_intent", handoff_intent_to_json(i)),
                        None => row,
                    }
                } else {
                    row
                };
                let j = row.done();
                rows.push(j);
                proof {
                    assert(docs(rows@) =~= before.push(j@));
                }
            }
        }
        i = i + 1;
    }
    proof {
        assert(all.take(i as int) =~= all);
    }
    rows
}

fn collect_mirror_rows(s: &ServerState, w: &Worker, wid: &str, f: &Json, q: &Json, reach: &Reach) -> (r:
    Vec<Json>)
    requires
        s@.workers.contains_key(wid@),
        s@.workers[wid@] == w@,
        q@ == query_of(f@),
    ensures
        docs(r@) == s@.mirror_rows(
            wid@,
            f@,
            reach.in_sphere@,
            reach.near@,
            sorted(s@.ghosts.dom()),
        ),
{
    let ids = sorted_keys(&s.ghosts);
    let ghost all = texts(ids@);
    let mut rows: Vec<Json> = Vec::new();
    let mut i: usize = 0;
    proof {
        assert(all.take(0) =~= Seq::empty());
        assert(docs(rows@) =~= Seq::<Doc>::empty());
    }
    while i < ids.len()
        invariant
            i <= ids.len(),
            all == texts(ids@),
            s@.workers.contains_key(wid@),
            s@.workers[wid@] == w@,
            q@ == query_of(f@),
            docs(rows@) == s@.mirror_rows(
                wid@,
                f@,
                reach.in_sphere@,
                reach.near@,
                all.take(i as int),
            ),
        decreases ids.len() - i,
    {
        let eid = ids[i].as_str();
        let ghost before = docs(rows@);
        proof {
            assert(all.take(i + 1).drop_last() =~= all.take(i as int));
            assert(all.take(i + 1).last() == eid@);
        }
        if let Some(g) = s.ghosts.get(eid) {
            if matches_query(
                q,
                &g.pos,
                &g.components,
                g.owner_region.as_str(),
                reach.in_sphere.contains(eid),
            ) && ghost_visible(w, g, reach.near.contains(eid)) {
                let mut comps = g.components.dup();
                comps.insert("ghost", Json::Bool(true));
                let none: StrMap<Json> = StrMap::new();
                let j = StrMap::new().with("entity", Json::str(eid)).with("pos", g.pos.json()).with(
                    "components",
                    comps.done(),
                ).with("region", Json::str(g.owner_region.as_str())).with("ghost", Json::Bool(true)).with(
                    "owner_region",
                    Json::str(g.owner_region.as_str()),
                ).with("authority", none.done()).done();
                rows.push(j);
                proof {
                    assert(docs(rows@) =~= before.push(j@));
                }
            }
        }
        i = i + 1;
    }
    proof {
        assert(all.take(i as int) =~= all);
    }
    rows
}

/// Answers a query.
pub fn handle_entity_query(s: &mut ServerState, wid: &str, f: &Json, reach: &Reach)
    ensures
        final(s)@ == old(s)@.queried(wid@, f@, reach.in_sphere@, reach.near@),
{
    let q = read_query(f);
    let w = match s.workers.get(wid) {
        Some(w) => w,
        None => return,
    };
    let mut rows = collect_entity_rows(s, w, wid, f, &q, reach);
    let mut more = collect_mirror_rows(s, w, wid, f, &q, reach);
    let ghost a = docs(rows@);
    let ghost b = docs(more@);
    rows.append(&mut more);
    proof {
        assert(docs(rows@) =~= a + b);
    }
    let count: u64 = rows.len() as u64;
    let msg = StrMap::new().with("op", Json::str("EntityQueryResponse")).with(
        "request_id",
        Json::str(f.str_or("request_id", "")),
    ).with("count", Json::u64(count)).with("entities", Json::Arr(rows)).done();
    emit(s, wid, msg);
}

/// What a peer may not read it is not told of: no answer holds a row of an entity
/// whose readers it is not among.
pub proof fn law_queries_respect_readers(
    s: State,
    wid: Seq<char>,
    f: Doc,
    in_sphere: Set<Seq<char>>,
    near: Set<Seq<char>>,
    names: Seq<Seq<char>>,
)
    requires
        forall|i: int|
            0 <= i < names.len() && s.entities.contains_key(#[trigger] names[i]) ==> !may_read(
                s.workers[wid].attributes,
                s.entities[names[i]].components,
            ),
        forall|i: int|
            0 <= i < names.len() && s.ghosts.contains_key(#[trigger] names[i]) ==> !may_read(
                s.workers[wid].attributes,
                s.ghosts[names[i]].components,
            ),
    ensures
        s.entity_rows(wid, f, in_sphere, near, names).len() == 0,
        s.mirror_rows(wid, f, in_sphere, near, names).len() == 0,
    decreases names.len(),
{
    if names.len() > 0 {
        let d = names.drop_last();
        assert forall|i: int|
            0 <= i < d.len() && s.entities.contains_key(#[trigger] d[i]) implies !may_read(
            s.workers[wid].attributes,
            s.entities[d[i]].components,
        ) by {
            assert(d[i] == names[i]);
        }
        assert forall|i: int|
            0 <= i < d.len() && s.ghosts.contains_key(#[trigger] d[i]) implies !may_read(
            s.workers[wid].attributes,
            s.ghosts[d[i]].components,
        ) by {
            assert(d[i] == names[i]);
        }
        law_queries_respect_readers(s, wid, f, in_sphere, near, d);
        assert(names.last() == names[names.len() - 1]);
    }
}

}

//! What is told and asked: events reach those who see them, queries find what matches them,
//! and mirrors last as long as they are refreshed.

use vstd::prelude::*;
use vstd::string::*;
use crate::attention::{
    law_gone_from_all_views, lemma_all_names, lemma_prefix, lemma_sent_on, was_sent,
};
use crate::components::named_entity;
use crate::control::event_msg;
use crate::doc::Doc;
use crate::entity::may_read;
use crate::events::{audience, is_for, is_merged, merge_keys, merged_count, merged_msg, newest};
use crate::float::{float_lt, point_of, Vec2};
use crate::handoff::at;
use crate::order::{lemma_sorted_of, sorted};
use crate::query::query_of;
use crate::state::{Buffered, Peer, Sent, State};

verus! {

broadcast use {crate::doc::group_json, crate::strmap::group_map};

proof fn lemma_watchers(s: State, eid: Seq<char>, near: Set<Seq<char>>, names: Seq<Seq<char>>)
    ensures
        forall|w: Seq<char>| #[trigger]
            s.watchers(eid, near, names).contains(w) == (names.contains(w) && s.workers.contains_key(w)
                && s.entities.contains_key(eid) && s.workers[w].sees(
                s.entities[eid],
                near.contains(w),
            )),
    decreases names.len(),
{
    let q = s.watchers(eid, near, names);
    if names.len() > 0 {
        let d = names.drop_last();
        let l = names.last();
        lemma_watchers(s, eid, near, d);
        let p = s.watchers(eid, near, d);
        assert(names =~= d.push(l));
        assert forall|w: Seq<char>| #[trigger] q.contains(w) == (names.contains(w)
            && s.workers.contains_key(w) && s.entities.contains_key(eid) && s.workers[w].sees(
            s.entities[eid],
            near.contains(w),
        )) by {
            crate::json::lemma_push_contains(d, l, w);
            crate::json::lemma_push_contains(p, l, w);
        }
    } else {
        assert(forall|w: Seq<char>| !q.contains(w));
    }
}

pub proof fn lemma_told_each(s: State, names: Seq<Seq<char>>, msg: Doc)
    ensures
        ({
            let t = s.told_each(names, msg);
            &&& t == (State { outbox: t.outbox, ..s })
            &&& s.outbox.is_prefix_of(t.outbox)
            &&& forall|w: Seq<char>| #[trigger]
                was_sent(s, t, w, msg) == (names.contains(w) && s.workers.contains_key(w))
            &&& forall|k: int|
                s.outbox.len() <= k < t.outbox.len() ==> (#[trigger] t.outbox[k] matches Sent::Peer {
                    wid,
                    msg: m,
                } && m == msg && names.contains(wid))
        }),
    decreases names.len(),
{
    let t = s.told_each(names, msg);
    if names.len() > 0 {
        let d = names.drop_last();
        let l = names.last();
        lemma_told_each(s, d, msg);
        let p = s.told_each(d, msg);
        assert(names =~= d.push(l));
        assert forall|w: Seq<char>| #[trigger] names.contains(w) == (d.contains(w) || w == l) by {
            crate::json::lemma_push_contains(d, l, w);
        }
        assert(p.outbox.is_prefix_of(t.outbox));
        lemma_prefix(s.outbox, p.outbox, t.outbox);
        assert forall|w: Seq<char>| #[trigger] was_sent(s, t, w, msg) == (names.contains(w)
            && s.workers.contains_key(w)) by {
            if was_sent(s, t, w, msg) {
                let k = choose|k: int|
                    s.outbox.len() <= k < t.outbox.len() && #[trigger] t.outbox[k] == (Sent::Peer {
                        wid: w,
                        msg,
                    });
                if k < p.outbox.len() {
                    assert(p.outbox[k] == t.outbox[k]);
                    assert(was_sent(s, p, w, msg));
                }
            }
            if d.contains(w) && s.workers.contains_key(w) {
                assert(was_sent(s, p, w, msg));
                lemma_sent_on(s, p, t, w, msg);
            }
            if w == l && s.workers.contains_key(w) {
                assert(t.outbox[p.outbox.len() as int] == (Sent::Peer { wid: w, msg }));
            }
        }
        assert forall|k: int| s.outbox.len() <= k < t.outbox.len() implies (#[trigger] t.outbox[k] matches Sent::Peer {
            wid,
            msg: m,
        } && m == msg && names.contains(wid)) by {
            if k < p.outbox.len() {
                assert(t.outbox[k] == p.outbox[k]);
            }
        }
    } else {
        assert(forall|w: Seq<char>| !names.contains(w));
        assert(forall|w: Seq<char>| !was_sent(s, t, w, msg));
    }
}

/// An event is fired for an entity by the holder of its region or an administrator, and by
/// nobody else. A critical one reaches everybody who sees the entity at once, and nobody
/// else; any other waits, addressed to the same.
pub proof fn law_events_reach_those_who_see(
    s: State,
    wid: Seq<char>,
    f: Doc,
    near: Set<Seq<char>>,
)
    requires
        s.workers.dom().finite(),
    ensures
        ({
            let t = s.fired(wid, f, near);
            let k = named_entity(f);
            let b = s.event_of(f, near);
            let msg = event_msg(b);
            let may = s.entities.contains_key(k) && (at(s.region_worker, s.entities[k].region)
                == Some(wid) || s.has_attr(wid, "kernel_admin"@));
            let class = match f.get_str("class"@) {
                Some(c) => c,
                None => "critical"@,
            };
            &&& t.entities == s.entities && t.workers == s.workers
            &&& may && class == "critical"@ ==> t.event_outbox == s.event_outbox && forall|
                w: Seq<char>,
            | #[trigger]
                was_sent(s, t, w, msg) == (s.workers.contains_key(w) && s.workers[w].sees(
                    s.entities[k],
                    near.contains(w),
                ))
            &&& may && class != "critical"@ ==> t.outbox == s.outbox && t.event_outbox
                == s.event_outbox.push(b) && b.class == class && forall|w: Seq<char>| #[trigger]
                b.targets.contains(w) == (s.workers.contains_key(w) && s.workers[w].sees(
                    s.entities[k],
                    near.contains(w),
                ))
            &&& !may ==> t.event_outbox == s.event_outbox && t.outbox.len() <= s.outbox.len() + 1
                && forall|w: Seq<char>| w != wid ==> !#[trigger] was_sent(s, t, w, msg)
            &&& b.eid == k
        }),
{
    let k = named_entity(f);
    let b = s.event_of(f, near);
    let names = sorted(s.workers.dom());
    lemma_all_names(s.workers.dom());
    lemma_watchers(s, k, near, names);
    lemma_told_each(s, b.targets, event_msg(b));
    assert forall|w: Seq<char>| names.contains(w) == s.workers.contains_key(w) by {}
}

/// An event is sent as it was fired, with the clocks of its entity.
pub proof fn law_events_are_handed_on(s: State, f: Doc, near: Set<Seq<char>>)
    requires
        s.entities.contains_key(named_entity(f)),
    ensures
        ({
            let m = event_msg(s.event_of(f, near));
            let e = s.entities[named_entity(f)];
            let given = |k: Seq<char>| match f.get(k) {
                Some(d) => d,
                None => Doc::Null,
            };
            let clock = |k: Seq<char>|
                if e.components.contains_key(k) {
                    e.components[k]
                } else {
                    Doc::Null
                };
            &&& m.get_str("op"@) == Some("EntityEvent"@)
            &&& m.get_str("entity"@) == Some(named_entity(f))
            &&& m.get("event"@) == Some(given("event"@))
            &&& m.get("payload"@) == Some(given("payload"@))
            &&& m.get("sim_time"@) == Some(clock("sim_time"@))
            &&& m.get("gen"@) == Some(clock("gen"@))
        }),
{
    reveal_strlit("op");
    reveal_strlit("entity");
    reveal_strlit("event");
    reveal_strlit("payload");
    reveal_strlit("sim_time");
    reveal_strlit("gen");
    reveal_strlit("class");
    assert("op"@.len() == 2 && "entity"@.len() == 6 && "event"@.len() == 5 && "payload"@.len() == 7
        && "sim_time"@.len() == 8 && "gen"@.len() == 3 && "class"@.len() == 5);
    assert("event"@[0] == 'e' && "class"@[0] == 'c');
}

proof fn lemma_plain(s: State, evs: Seq<Buffered>, wid: Seq<char>)
    ensures
        ({
            let t = s.plain_sent(evs, wid);
            &&& t == (State { outbox: t.outbox, ..s })
            &&& s.outbox.is_prefix_of(t.outbox)
            &&& s.workers.contains_key(wid) ==> t.outbox.len() == s.outbox.len() + evs.filter(
                |b: Buffered| b.targets.contains(wid) && b.class != "visual"@ && b.class != "debug"@,
            ).len()
            &&& s.workers.contains_key(wid) ==> forall|i: int|
                0 <= i < evs.len() && (#[trigger] evs[i]).targets.contains(wid) && evs[i].class
                    != "visual"@ && evs[i].class != "debug"@ ==> was_sent(
                    s,
                    t,
                    wid,
                    event_msg(evs[i]),
                )
        }),
    decreases evs.len(),
{
    let t = s.plain_sent(evs, wid);
    reveal(Seq::filter);
    if evs.len() > 0 {
        let d = evs.drop_last();
        lemma_plain(s, d, wid);
        let p = s.plain_sent(d, wid);
        assert(p.outbox.is_prefix_of(t.outbox));
        lemma_prefix(s.outbox, p.outbox, t.outbox);
        if s.workers.contains_key(wid) {
            assert forall|i: int|
                0 <= i < evs.len() && (#[trigger] evs[i]).targets.contains(wid) && evs[i].class
                    != "visual"@ && evs[i].class != "debug"@ implies was_sent(
                s,
                t,
                wid,
                event_msg(evs[i]),
            ) by {
                if i < d.len() {
                    assert(d[i] == evs[i]);
                    lemma_sent_on(s, p, t, wid, event_msg(evs[i]));
                } else {
                    assert(t.outbox[p.outbox.len() as int] == (Sent::Peer {
                        wid,
                        msg: event_msg(evs[i]),
                    }));
                }
            }
        }
    }
}

proof fn lemma_merged(s: State, evs: Seq<Buffered>, wid: Seq<char>, keys: Seq<Seq<char>>)
    ensures
        ({
            let t = s.merged_sent(evs, wid, keys);
            &&& t == (State { outbox: t.outbox, ..s })
            &&& s.outbox.is_prefix_of(t.outbox)
            &&& s.workers.contains_key(wid) ==> t.outbox.len() == s.outbox.len() + keys.len()
            &&& s.workers.contains_key(wid) ==> forall|k: Seq<char>| #[trigger]
                keys.contains(k) ==> was_sent(s, t, wid, merged_msg(evs, wid, k))
        }),
    decreases keys.len(),
{
    let t = s.merged_sent(evs, wid, keys);
    if keys.len() > 0 {
        let d = keys.drop_last();
        let l = keys.last();
        lemma_merged(s, evs, wid, d);
        let p = s.merged_sent(evs, wid, d);
        assert(p.outbox.is_prefix_of(t.outbox));
        lemma_prefix(s.outbox, p.outbox, t.outbox);
        if s.workers.contains_key(wid) {
            assert forall|k: Seq<char>| #[trigger] keys.contains(k) implies was_sent(
                s,
                t,
                wid,
                merged_msg(evs, wid, k),
            ) by {
                assert(keys =~= d.push(l));
                crate::json::lemma_push_contains(d, l, k);
                if d.contains(k) {
                    lemma_sent_on(s, p, t, wid, merged_msg(evs, wid, k));
                } else {
                    assert(t.outbox[p.outbox.len() as int] == (Sent::Peer {
                        wid,
                        msg: merged_msg(evs, wid, k),
                    }));
                }
            }
        }
    }
}

/// The keys under which a peer gets events merged, when only so many may be.
pub open spec fn merged_for(evs: Seq<Buffered>, wid: Seq<char>, budget: nat) -> Seq<Seq<char>> {
    let keys = sorted(merge_keys(evs, wid));
    if keys.len() <= budget {
        keys
    } else {
        keys.take(budget as int)
    }
}

proof fn lemma_events(s: State, evs: Seq<Buffered>, wids: Seq<Seq<char>>, budget: nat)
    ensures
        ({
            let t = s.events_sent(evs, wids, budget);
            &&& t == (State { outbox: t.outbox, ..s })
            &&& s.outbox.is_prefix_of(t.outbox)
            &&& forall|w: Seq<char>, i: int|
                #![trigger wids.contains(w), evs[i]]
                wids.contains(w) && s.workers.contains_key(w) && 0 <= i < evs.len()
                    && evs[i].targets.contains(w) && evs[i].class != "visual"@ && evs[i].class
                    != "debug"@ ==> was_sent(s, t, w, event_msg(evs[i]))
            &&& forall|w: Seq<char>, k: Seq<char>|
                #![trigger wids.contains(w), merged_msg(evs, w, k)]
                wids.contains(w) && s.workers.contains_key(w) && merged_for(evs, w, budget).contains(
                    k,
                ) ==> was_sent(s, t, w, merged_msg(evs, w, k))
        }),
    decreases wids.len(),
{
    let t = s.events_sent(evs, wids, budget);
    if wids.len() > 0 {
        let d = wids.drop_last();
        let l = wids.last();
        lemma_events(s, evs, d, budget);
        let p = s.events_sent(evs, d, budget);
        let q = p.plain_sent(evs, l);
        lemma_plain(p, evs, l);
        lemma_merged(q, evs, l, merged_for(evs, l, budget));
        lemma_prefix(p.outbox, q.outbox, t.outbox);
        lemma_prefix(s.outbox, p.outbox, t.outbox);
        assert(wids =~= d.push(l));
        assert forall|w: Seq<char>, i: int|
            #![trigger wids.contains(w), evs[i]]
            wids.contains(w) && s.workers.contains_key(w) && 0 <= i < evs.len()
                && evs[i].targets.contains(w) && evs[i].class != "visual"@ && evs[i].class
                != "debug"@ implies was_sent(s, t, w, event_msg(evs[i])) by {
            crate::json::lemma_push_contains(d, l, w);
            if d.contains(w) {
                lemma_sent_on(s, p, t, w, event_msg(evs[i]));
            } else {
                lemma_sent_on(p, q, t, w, event_msg(evs[i]));
                lemma_sent_on(s, p, t, w, event_msg(evs[i]));
            }
        }
        assert forall|w: Seq<char>, k: Seq<char>|
            #![trigger wids.contains(w), merged_msg(evs, w, k)]
            wids.contains(w) && s.workers.contains_key(w) && merged_for(evs, w, budget).contains(k) implies was_sent(
            s,
            t,
            w,
            merged_msg(evs, w, k),
        ) by {
            crate::json::lemma_push_contains(d, l, w);
            if d.contains(w) {
                lemma_sent_on(s, p, t, w, merged_msg(evs, w, k));
            } else {
                lemma_sent_on(p, q, t, w, merged_msg(evs, w, k));
                lemma_sent_on(s, p, t, w, merged_msg(evs, w, k));
            }
        }
    } else {
        assert(forall|w: Seq<char>| !wids.contains(w));
    }
}

proof fn lemma_audience(evs: Seq<Buffered>)
    ensures
        audience(evs).finite(),
    decreases evs.len(),
{
    if evs.len() == 0 {
        assert(audience(evs) =~= Set::empty());
    } else {
        let d = evs.drop_last();
        lemma_audience(d);
        let more = evs.last().targets.to_set();
        vstd::seq_lib::seq_to_set_is_finite(evs.last().targets);
        assert forall|w: Seq<char>| audience(evs).contains(w) implies audience(d).union(more).contains(
            w,
        ) by {
            let i = choose|i: int| 0 <= i < evs.len() && is_for(#[trigger] evs[i], w);
            if i < d.len() {
                assert(is_for(d[i], w));
            }
        }
        assert(audience(evs).subset_of(audience(d).union(more)));
        vstd::set_lib::lemma_set_subset_finite(audience(d).union(more), audience(evs));
    }
}

proof fn lemma_merge_keys(evs: Seq<Buffered>, wid: Seq<char>)
    ensures
        merge_keys(evs, wid).finite(),
    decreases evs.len(),
{
    if evs.len() == 0 {
        assert(merge_keys(evs, wid) =~= Set::empty());
    } else {
        let d = evs.drop_last();
        lemma_merge_keys(d, wid);
        let all = merge_keys(d, wid).insert(evs.last().key);
        assert forall|k: Seq<char>| merge_keys(evs, wid).contains(k) implies all.contains(k) by {
            let i = choose|i: int| 0 <= i < evs.len() && is_merged(#[trigger] evs[i], wid, k);
            if i < d.len() {
                assert(is_merged(d[i], wid, k));
            }
        }
        assert(merge_keys(evs, wid).subset_of(all));
        vstd::set_lib::lemma_set_subset_finite(all, merge_keys(evs, wid));
    }
}

/// Waiting events are delivered: every connected peer that one is for gets it as it is, but
/// for those that only decorate, which it gets as one for each key that says how many they
/// are, and for those that only debug, which are dropped. There are at most so many merged
/// ones at once, fewer the higher the load: sixty-four, and half of it for each level.
/// Nothing waits afterwards.
pub proof fn law_waiting_events_are_delivered(s: State, w: Seq<char>, i: int, key: Seq<char>)
    requires
        s.workers.contains_key(w),
        0 <= i < s.event_outbox.len(),
        s.event_outbox[i].targets.contains(w),
    ensures
        ({
            let t = s.events_flushed();
            let evs = s.event_outbox;
            let budget: nat = if s.load_level == 0 {
                64
            } else if s.load_level == 1 {
                32
            } else if s.load_level == 2 {
                16
            } else {
                8
            };
            &&& t.event_outbox.len() == 0
            &&& t.entities == s.entities && t.workers == s.workers
            &&& evs[i].class != "visual"@ && evs[i].class != "debug"@ ==> was_sent(
                s,
                t,
                w,
                event_msg(evs[i]),
            )
            &&& evs[i].class == "visual"@ && merge_keys(evs, w).len() <= budget ==> was_sent(
                s,
                t,
                w,
                merged_msg(evs, w, evs[i].key),
            )
            &&& merged_for(evs, w, budget).contains(key) ==> was_sent(
                s,
                t,
                w,
                merged_msg(evs, w, key),
            )
        }),
{
    let evs = s.event_outbox;
    let a = State { event_outbox: Seq::empty(), ..s };
    let t = s.events_flushed();
    lemma_audience(evs);
    lemma_all_names(audience(evs));
    lemma_events(a, evs, sorted(audience(evs)), s.event_budget());
    assert(is_for(evs[i], w));
    assert(sorted(audience(evs)).contains(w));
    if evs[i].class != "visual"@ && evs[i].class != "debug"@ {
        assert(was_sent(a, t, w, event_msg(evs[i])));
        assert(was_sent(s, t, w, event_msg(evs[i])));
    }
    lemma_merge_keys(evs, w);
    lemma_sorted_of(merge_keys(evs, w));
    lemma_all_names(merge_keys(evs, w));
    if evs[i].class == "visual"@ {
        assert(is_merged(evs[i], w, evs[i].key));
        assert(merge_keys(evs, w).contains(evs[i].key));
        let m = merged_msg(evs, w, evs[i].key);
        if merge_keys(evs, w).len() <= s.event_budget() {
            assert(merged_for(evs, w, s.event_budget()).contains(evs[i].key));
            assert(was_sent(a, t, w, m));
            assert(was_sent(s, t, w, m));
        }
    }
    if merged_for(evs, w, s.event_budget()).contains(key) {
        let m = merged_msg(evs, w, key);
        assert(was_sent(a, t, w, m));
        assert(was_sent(s, t, w, m));
    }
}

/// A merged event is the last of those that it stands for, and says how many they are.
pub proof fn law_merged_events_stand_for_all(
    evs: Seq<Buffered>,
    wid: Seq<char>,
    key: Seq<char>,
    last: int,
)
    requires
        0 <= last < evs.len() <= u64::MAX,
        evs[last].targets.contains(wid) && evs[last].class == "visual"@ && evs[last].key == key,
        forall|j: int|
            last < j < evs.len() ==> !((#[trigger] evs[j]).targets.contains(wid) && evs[j].class
                == "visual"@ && evs[j].key == key),
    ensures
        ({
            let m = merged_msg(evs, wid, key);
            let n = evs.filter(
                |b: Buffered| b.targets.contains(wid) && b.class == "visual"@ && b.key == key,
            ).len();
            &&& m.get_u64("count"@) == Some(n as u64)
            &&& n <= evs.len()
            &&& forall|k: Seq<char>| k != "count"@ ==> #[trigger] m.get(k) == event_msg(
                evs[last],
            ).get(k)
        }),
{
    lemma_merged_count(evs, wid, key);
    lemma_newest(evs, wid, key, last);
}

proof fn lemma_merged_count(evs: Seq<Buffered>, wid: Seq<char>, key: Seq<char>)
    ensures
        merged_count(evs, wid, key) == evs.filter(
            |b: Buffered| b.targets.contains(wid) && b.class == "visual"@ && b.key == key,
        ).len(),
        merged_count(evs, wid, key) <= evs.len(),
    decreases evs.len(),
{
    reveal(Seq::filter);
    if evs.len() > 0 {
        lemma_merged_count(evs.drop_last(), wid, key);
    }
}

proof fn lemma_newest(evs: Seq<Buffered>, wid: Seq<char>, key: Seq<char>, last: int)
    requires
        0 <= last < evs.len(),
        is_merged(evs[last], wid, key),
        forall|j: int| last < j < evs.len() ==> !is_merged(#[trigger] evs[j], wid, key),
    ensures
        newest(evs, wid, key) == event_msg(evs[last]),
    decreases evs.len(),
{
    let d = evs.drop_last();
    assert(evs.last() == evs[evs.len() - 1]);
    if last < d.len() {
        assert(d[last] == evs[last]);
        assert forall|j: int| last < j < d.len() implies !is_merged(#[trigger] d[j], wid, key) by {
            assert(d[j] == evs[j]);
        }
        lemma_newest(d, wid, key, last);
    }
}

/// What a query finds: everything; what lies in its sphere; what lies in its box, edges
/// included; what has its component, which for the position and the velocity everything has;
/// or what is in its region. One of another kind finds nothing.
pub proof fn law_what_queries_find(
    q: Doc,
    pos: Vec2,
    comps: Map<Seq<char>, Doc>,
    region: Seq<char>,
    near: bool,
    x: u64,
    y: u64,
    lo: Vec2,
    hi: Vec2,
)
    requires
        pos.x == Some(x) && pos.y == Some(y),
        lo == point_of(q.get("min"@)) && lo.x is Some && lo.y is Some,
        hi == point_of(q.get("max"@)) && hi.x is Some && hi.y is Some,
    ensures
        q.get_str("type"@) is None ==> crate::query::matches(q, pos, comps, region, near),
        q.get_str("type"@) == Some("all"@) ==> crate::query::matches(q, pos, comps, region, near),
        q.get_str("type"@) == Some("sphere"@) ==> crate::query::matches(q, pos, comps, region, near) == near,
        q.get_str("type"@) == Some("box"@) ==> crate::query::matches(q, pos, comps, region, near) == (!float_lt(
            x,
            lo.x->0,
        ) && !float_lt(hi.x->0, x) && !float_lt(y, lo.y->0) && !float_lt(hi.y->0, y)),
        forall|c: Seq<char>|
            q.get_str("type"@) == Some("component"@) && #[trigger] q.get_str("comp"@) == Some(c)
                ==> crate::query::matches(q, pos, comps, region, near) == (comps.contains_key(c) || c == "pos"@
                || c == "vel"@),
        q.get_str("type"@) == Some("region"@) ==> crate::query::matches(q, pos, comps, region, near) == (
        q.get_str("region"@) == Some(region)),
        q.get_str("type"@) == Some("nothing"@) ==> !crate::query::matches(q, pos, comps, region, near),
{
    reveal_strlit("all");
    reveal_strlit("sphere");
    reveal_strlit("box");
    reveal_strlit("component");
    reveal_strlit("region");
    reveal_strlit("nothing");
    assert("all"@.len() == 3 && "sphere"@.len() == 6 && "box"@.len() == 3 && "component"@.len() == 9
        && "region"@.len() == 6 && "nothing"@.len() == 7);
    assert("all"@[0] == 'a' && "box"@[0] == 'b' && "sphere"@[0] == 's' && "region"@[0] == 'r');
}

/// Whether a row is of a thing.
pub open spec fn is_row_of(d: Doc, eid: Seq<char>) -> bool {
    d.get_str("entity"@) == Some(eid)
}

proof fn lemma_rows(
    s: State,
    wid: Seq<char>,
    f: Doc,
    sphere: Set<Seq<char>>,
    near: Set<Seq<char>>,
    names: Seq<Seq<char>>,
)
    ensures
        ({
            let q = s.entity_rows(wid, f, sphere, near, names);
            let g = s.mirror_rows(wid, f, sphere, near, names);
            let found = |k: Seq<char>|
                s.entities.contains_key(k) && crate::query::matches(
                    query_of(f),
                    s.entities[k].pos,
                    s.entities[k].components,
                    s.entities[k].region,
                    sphere.contains(k),
                ) && s.workers[wid].sees(s.entities[k], near.contains(k));
            let seen = |k: Seq<char>|
                s.ghosts.contains_key(k) && crate::query::matches(
                    query_of(f),
                    s.ghosts[k].pos,
                    s.ghosts[k].components,
                    s.ghosts[k].owner_region,
                    sphere.contains(k),
                ) && s.workers[wid].sees_mirror(s.ghosts[k], near.contains(k));
            &&& q.len() == names.filter(found).len()
            &&& forall|i: int|
                0 <= i < q.len() ==> is_row_of(#[trigger] q[i], names.filter(found)[i])
                    && q[i].get("pos"@) == Some(s.entities[names.filter(found)[i]].pos.doc())
                    && q[i].get("components"@) == Some(
                    Doc::Obj(s.entities[names.filter(found)[i]].components),
                ) && q[i].get_str("region"@) == Some(s.entities[names.filter(found)[i]].region)
            &&& g.len() == names.filter(seen).len()
            &&& forall|i: int|
                0 <= i < g.len() ==> is_row_of(#[trigger] g[i], names.filter(seen)[i]) && g[i].get(
                    "ghost"@,
                ) == Some(Doc::Bool(true)) && g[i].get("pos"@) == Some(
                    s.ghosts[names.filter(seen)[i]].pos.doc(),
                )
        }),
    decreases names.len(),
{
    reveal(Seq::filter);
    if names.len() > 0 {
        lemma_rows(s, wid, f, sphere, near, names.drop_last());
        reveal_strlit("entity");
        reveal_strlit("pos");
        reveal_strlit("components");
        reveal_strlit("region");
        reveal_strlit("authority");
        reveal_strlit("handoff_intent");
        reveal_strlit("ghost");
        reveal_strlit("owner_region");
        assert("entity"@.len() == 6 && "pos"@.len() == 3 && "components"@.len() == 10
            && "region"@.len() == 6 && "authority"@.len() == 9 && "handoff_intent"@.len() == 14
            && "ghost"@.len() == 5 && "owner_region"@.len() == 12);
        assert("entity"@[0] == 'e' && "region"@[0] == 'r');
    }
}

/// A query is answered with what matches it and what its sender sees: a row for every such
/// entity, then one for every such mirror, marked as one; each with what the thing is; and
/// their number. Nobody else is told anything.
pub proof fn law_queries_find_what_is_seen(
    s: State,
    wid: Seq<char>,
    f: Doc,
    sphere: Set<Seq<char>>,
    near: Set<Seq<char>>,
)
    requires
        s.workers.contains_key(wid),
        s.entities.dom().finite(),
        s.ghosts.dom().finite(),
    ensures
        ({
            let t = s.queried(wid, f, sphere, near);
            let w = s.workers[wid];
            let found = |k: Seq<char>|
                s.entities.contains_key(k) && crate::query::matches(
                    query_of(f),
                    s.entities[k].pos,
                    s.entities[k].components,
                    s.entities[k].region,
                    sphere.contains(k),
                ) && w.sees(s.entities[k], near.contains(k));
            let seen = |k: Seq<char>|
                s.ghosts.contains_key(k) && crate::query::matches(
                    query_of(f),
                    s.ghosts[k].pos,
                    s.ghosts[k].components,
                    s.ghosts[k].owner_region,
                    sphere.contains(k),
                ) && w.interested(s.ghosts[k].pos, near.contains(k)) && may_read(
                    w.attributes,
                    s.ghosts[k].components,
                );
            let a = sorted(s.entities.dom()).filter(found);
            let b = sorted(s.ghosts.dom()).filter(seen);
            &&& t == (State { outbox: t.outbox, ..s })
            &&& t.outbox.len() == s.outbox.len() + 1
            &&& t.outbox.drop_last() == s.outbox
            &&& t.outbox.last() matches Sent::Peer { wid: to, msg } && {
                &&& to == wid
                &&& msg.get_str("op"@) == Some("EntityQueryResponse"@)
                &&& msg.get_str("request_id"@) == Some(crate::commands::request_name(f))
                &&& msg.get_u64("count"@) == Some((a.len() + b.len()) as u64)
                &&& msg.get("entities"@) matches Some(Doc::Arr(rows)) && {
                    &&& rows.len() == a.len() + b.len()
                    &&& forall|i: int| 0 <= i < a.len() ==> is_row_of(#[trigger] rows[i], a[i])
                    &&& forall|i: int|
                        0 <= i < b.len() ==> is_row_of(#[trigger] rows[a.len() + i], b[i])
                }
            }
            &&& forall|k: Seq<char>| #[trigger] a.contains(k) == found(k)
            &&& forall|k: Seq<char>| #[trigger] b.contains(k) == seen(k)
        }),
{
    let w = s.workers[wid];
    let ids = sorted(s.entities.dom());
    let gs = sorted(s.ghosts.dom());
    lemma_all_names(s.entities.dom());
    lemma_all_names(s.ghosts.dom());
    lemma_rows(s, wid, f, sphere, near, ids);
    lemma_rows(s, wid, f, sphere, near, gs);
    let t = s.queried(wid, f, sphere, near);
    assert(t.outbox.drop_last() =~= s.outbox);
    reveal_strlit("op");
    reveal_strlit("request_id");
    reveal_strlit("count");
    reveal_strlit("entities");
    assert("op"@.len() == 2 && "request_id"@.len() == 10 && "count"@.len() == 5 && "entities"@.len()
        == 8);
    let found = |k: Seq<char>|
        s.entities.contains_key(k) && crate::query::matches(
            query_of(f),
            s.entities[k].pos,
            s.entities[k].components,
            s.entities[k].region,
            sphere.contains(k),
        ) && w.sees(s.entities[k], near.contains(k));
    let seen = |k: Seq<char>|
        s.ghosts.contains_key(k) && crate::query::matches(
            query_of(f),
            s.ghosts[k].pos,
            s.ghosts[k].components,
            s.ghosts[k].owner_region,
            sphere.contains(k),
        ) && w.sees_mirror(s.ghosts[k], near.contains(k));
    let seen2 = |k: Seq<char>|
        s.ghosts.contains_key(k) && crate::query::matches(
            query_of(f),
            s.ghosts[k].pos,
            s.ghosts[k].components,
            s.ghosts[k].owner_region,
            sphere.contains(k),
        ) && w.interested(s.ghosts[k].pos, near.contains(k)) && may_read(
            w.attributes,
            s.ghosts[k].components,
        );
    lemma_same_filter(gs, seen, seen2);
    lemma_filtered(ids, found);
    lemma_filtered(gs, seen2);
}

proof fn lemma_same_filter(
    q: Seq<Seq<char>>,
    f: spec_fn(Seq<char>) -> bool,
    g: spec_fn(Seq<char>) -> bool,
)
    requires
        forall|k: Seq<char>| #[trigger] f(k) == g(k),
    ensures
        q.filter(f) == q.filter(g),
    decreases q.len(),
{
    reveal(Seq::filter);
    if q.len() > 0 {
        lemma_same_filter(q.drop_last(), f, g);
    }
}

pub proof fn lemma_filtered(q: Seq<Seq<char>>, f: spec_fn(Seq<char>) -> bool)
    ensures
        forall|k: Seq<char>| #[trigger] q.filter(f).contains(k) == (q.contains(k) && f(k)),
    decreases q.len(),
{
    reveal(Seq::filter);
    if q.len() > 0 {
        let d = q.drop_last();
        let l = q.last();
        lemma_filtered(d, f);
        assert(q =~= d.push(l));
        assert forall|k: Seq<char>| #[trigger] q.filter(f).contains(k) == (q.contains(k) && f(k)) by {
            crate::json::lemma_push_contains(d, l, k);
            crate::json::lemma_push_contains(d.filter(f), l, k);
        }
    } else {
        assert(forall|k: Seq<char>| !q.contains(k));
        assert(forall|k: Seq<char>| !q.filter(f).contains(k));
    }
}

proof fn lemma_reaped(s: State, names: Seq<Seq<char>>, now_ms: u64)
    requires
        s.workers.dom().finite(),
    ensures
        ({
            let t = s.mirrors_reaped(names, now_ms);
            &&& t.entities == s.entities
            &&& t.workers.dom() == s.workers.dom()
            &&& forall|k: Seq<char>| #[trigger]
                t.ghosts.contains_key(k) == (s.ghosts.contains_key(k) && !(names.contains(k) && now_ms
                    - s.ghosts[k].last_seen_ms > 1500))
            &&& forall|k: Seq<char>| #[trigger]
                t.ghosts.contains_key(k) ==> t.ghosts[k] == s.ghosts[k]
            &&& forall|w: Seq<char>, k: Seq<char>|
                #![trigger t.workers[w].view.contains(k)]
                s.workers.contains_key(w) ==> t.workers[w].view.contains(k) == (
                s.workers[w].view.contains(k) && (t.ghosts.contains_key(k)
                    || !s.ghosts.contains_key(k)))
        }),
    decreases names.len(),
{
    let t = s.mirrors_reaped(names, now_ms);
    if names.len() > 0 {
        let d = names.drop_last();
        let l = names.last();
        lemma_reaped(s, d, now_ms);
        let p = s.mirrors_reaped(d, now_ms);
        assert(names =~= d.push(l));
        assert forall|k: Seq<char>| #[trigger] names.contains(k) == (d.contains(k) || k == l) by {
            crate::json::lemma_push_contains(d, l, k);
        }
        if p.ghosts.contains_key(l) && now_ms - p.ghosts[l].last_seen_ms > 1500 {
            let a = State { ghosts: p.ghosts.remove(l), ..p };
            law_gone_from_all_views(a, l);
            crate::rights::lemma_hidden_keeps(a, sorted(a.workers.dom()), l);
            assert forall|w: Seq<char>, k: Seq<char>|
                #![trigger t.workers[w].view.contains(k)]
                s.workers.contains_key(w) implies t.workers[w].view.contains(k) == (
            s.workers[w].view.contains(k) && (t.ghosts.contains_key(k) || !s.ghosts.contains_key(k))) by {
                assert(p.workers.dom().contains(w));
                assert(a.workers.contains_key(w));
                assert(t.workers[w].view == p.workers[w].view.remove(l));
                assert(p.workers[w].view.contains(k) == (s.workers[w].view.contains(k) && (
                p.ghosts.contains_key(k) || !s.ghosts.contains_key(k))));
            }
        }
    } else {
        assert(forall|k: Seq<char>| !names.contains(k));
    }
}

/// A mirror lasts as long as it is refreshed: those that were not for a second and a half are
/// gone, from everybody's view too, and all others stay.
pub proof fn law_mirrors_last_while_refreshed(s: State, now_ms: u64)
    requires
        s.workers.dom().finite(),
        s.ghosts.dom().finite(),
    ensures
        ({
            let t = s.mirrors_reaped(sorted(s.ghosts.dom()), now_ms);
            &&& t.entities == s.entities
            &&& forall|k: Seq<char>| #[trigger]
                t.ghosts.contains_key(k) == (s.ghosts.contains_key(k) && now_ms
                    - s.ghosts[k].last_seen_ms <= 1500)
            &&& forall|k: Seq<char>| #[trigger]
                t.ghosts.contains_key(k) ==> t.ghosts[k] == s.ghosts[k]
            &&& forall|w: Seq<char>, k: Seq<char>|
                #![trigger t.workers[w].view.contains(k)]
                s.workers.contains_key(w) ==> t.workers[w].view.contains(k) == (
                s.workers[w].view.contains(k) && (t.ghosts.contains_key(k)
                    || !s.ghosts.contains_key(k)))
        }),
{
    lemma_all_names(s.ghosts.dom());
    lemma_reaped(s, sorted(s.ghosts.dom()), now_ms);
    assert forall|k: Seq<char>| sorted(s.ghosts.dom()).contains(k) == s.ghosts.contains_key(k) by {}
}

}

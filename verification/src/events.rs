//! Events that are merged before they are sent, so that a storm of them stays small.

use vstd::prelude::*;
use crate::control::event_msg;
use crate::doc::{Doc, Json, Num};
use crate::order::{sorted, sorted_texts};
use crate::state::{emit, views, Buffered, BufferedEvent, ServerState, State};
use crate::strmap::{Dup, texts, StrMap, StrSet};
use crate::text::str_eq;

verus! {

broadcast use {crate::doc::group_json, crate::strmap::group_map};

/// Whether an event is for a peer.
pub open spec fn is_for(b: Buffered, wid: Seq<char>) -> bool {
    b.targets.contains(wid)
}

/// Whether an event is sent as it is: not merged, and not dropped.
pub open spec fn is_plain(b: Buffered) -> bool {
    b.class != "visual"@ && b.class != "debug"@
}

/// Whether an event for a peer is merged under a key.
pub open spec fn is_merged(b: Buffered, wid: Seq<char>, key: Seq<char>) -> bool {
    is_for(b, wid) && b.class == "visual"@ && b.key == key
}

/// How many of some events for a peer are merged under a key.
pub open spec fn merged_count(evs: Seq<Buffered>, wid: Seq<char>, key: Seq<char>) -> nat
    decreases evs.len(),
{
    if evs.len() == 0 {
        0
    } else {
        merged_count(evs.drop_last(), wid, key) + if is_merged(evs.last(), wid, key) {
            1nat
        } else {
            0nat
        }
    }
}

/// The newest of some events for a peer under a key.
pub open spec fn newest(evs: Seq<Buffered>, wid: Seq<char>, key: Seq<char>) -> Doc
    decreases evs.len(),
{
    if evs.len() == 0 {
        Doc::Null
    } else if is_merged(evs.last(), wid, key) {
        event_msg(evs.last())
    } else {
        newest(evs.drop_last(), wid, key)
    }
}

/// The keys under which events for a peer are merged.
pub open spec fn merge_keys(evs: Seq<Buffered>, wid: Seq<char>) -> Set<Seq<char>> {
    Set::new(
        |k: Seq<char>| exists|i: int| 0 <= i < evs.len() && is_merged(#[trigger] evs[i], wid, k),
    )
}

/// The peers that some events are for.
pub open spec fn audience(evs: Seq<Buffered>) -> Set<Seq<char>> {
    Set::new(|w: Seq<char>| exists|i: int| 0 <= i < evs.len() && is_for(#[trigger] evs[i], w))
}

/// The events under a key, merged into one that says how many they are.
pub open spec fn merged_msg(evs: Seq<Buffered>, wid: Seq<char>, key: Seq<char>) -> Doc {
    Doc::Obj(
        newest(evs, wid, key)->Obj_0.insert(
            "count"@,
            Doc::Num(Num::Pos(merged_count(evs, wid, key) as u64)),
        ),
    )
}

impl State {
    /// The state after a peer was sent those of some events that are sent as they
    /// are.
    pub open spec fn plain_sent(self, evs: Seq<Buffered>, wid: Seq<char>) -> State
        decreases evs.len(),
    {
        if evs.len() == 0 {
            self
        } else {
            let s = self.plain_sent(evs.drop_last(), wid);
            if is_for(evs.last(), wid) && is_plain(evs.last()) {
                s.emitted(wid, event_msg(evs.last()))
            } else {
                s
            }
        }
    }

    /// The state after a peer was sent the merged events under some keys.
    pub open spec fn merged_sent(
        self,
        evs: Seq<Buffered>,
        wid: Seq<char>,
        keys: Seq<Seq<char>>,
    ) -> State
        decreases keys.len(),
    {
        if keys.len() == 0 {
            self
        } else {
            self.merged_sent(evs, wid, keys.drop_last()).emitted(
                wid,
                merged_msg(evs, wid, keys.last()),
            )
        }
    }

    /// The state after some peers were sent their events: all that are not merged,
    /// and of the merged ones as many as the budget allows.
    pub open spec fn events_sent(
        self,
        evs: Seq<Buffered>,
        wids: Seq<Seq<char>>,
        budget: nat,
    ) -> State
        decreases wids.len(),
    {
        if wids.len() == 0 {
            self
        } else {
            let s = self.events_sent(evs, wids.drop_last(), budget);
            let wid = wids.last();
            let keys = sorted(merge_keys(evs, wid));
            s.plain_sent(evs, wid).merged_sent(
                evs,
                wid,
                if keys.len() <= budget {
                    keys
                } else {
                    keys.take(budget as int)
                },
            )
        }
    }

    /// How many merged events a peer is sent at once: fewer under load.
    pub open spec fn event_budget(self) -> nat {
        if self.load_level == 0 {
            64
        } else if self.load_level == 1 {
            32
        } else if self.load_level == 2 {
            16
        } else {
            8
        }
    }

    /// The state after the waiting events were sent.
    pub open spec fn events_flushed(self) -> State {
        (State { event_outbox: Seq::empty(), ..self }).events_sent(
            self.event_outbox,
            sorted(audience(self.event_outbox)),
            self.event_budget(),
        )
    }
}

fn targets_contain(b: &BufferedEvent, wid: &str) -> (r: bool)
    ensures
        r == is_for(b@, wid@),
{
    let ghost all = texts(b.target_wids@);
    let mut i: usize = 0;
    while i < b.target_wids.len()
        invariant
            i <= b.target_wids.len(),
            all == texts(b.target_wids@),
            forall|j: int| 0 <= j < i ==> #[trigger] all[j] != wid@,
        decreases b.target_wids.len() - i,
    {
        assert(all[i as int] == b.target_wids@[i as int]@);
        if str_eq(b.target_wids[i].as_str(), wid) {
            assert(all.contains(wid@));
            return true;
        }
        i = i + 1;
    }
    false
}

fn collect_audience(evs: &Vec<BufferedEvent>) -> (r: StrSet)
    ensures
        r@ == audience(views(evs@)),
{
    let ghost all = views(evs@);
    let mut out = StrSet::new();
    let mut i: usize = 0;
    while i < evs.len()
        invariant
            i <= evs.len(),
            all == views(evs@),
            forall|w: Seq<char>|
                #[trigger] out@.contains(w) <==> exists|j: int|
                    0 <= j < i && is_for(#[trigger] all[j], w),
        decreases evs.len() - i,
    {
        let b = &evs[i];
        let ghost before = out@;
        let ghost ts = texts(b.target_wids@);
        let mut k: usize = 0;
        while k < b.target_wids.len()
            invariant
                k <= b.target_wids.len(),
                ts == texts(b.target_wids@),
                forall|w: Seq<char>|
                    #[trigger] out@.contains(w) <==> before.contains(w) || ts.take(
                        k as int,
                    ).contains(w),
            decreases b.target_wids.len() - k,
        {
            let ghost seen = ts.take(k as int);
            let ghost c = b.target_wids@[k as int]@;
            out.insert(b.target_wids[k].as_str());
            k = k + 1;
            proof {
                assert(ts[k - 1] == c);
                assert(ts.take(k as int) =~= seen.push(c));
                assert forall|w: Seq<char>| #[trigger] ts.take(k as int).contains(w) <==> (
                seen.contains(w) || w == c) by {
                    crate::json::lemma_push_contains(seen, c, w);
                }
            }
        }
        proof {
            assert(ts.take(k as int) =~= ts);
            assert(all[i as int] == b@);
            assert forall|w: Seq<char>|
                #[trigger] out@.contains(w) <==> exists|j: int|
                    0 <= j < i + 1 && is_for(#[trigger] all[j], w) by {
                if before.contains(w) {
                    let j = choose|j: int| 0 <= j < i && is_for(#[trigger] all[j], w);
                    assert(is_for(all[j], w));
                }
                if ts.contains(w) {
                    assert(is_for(all[i as int], w));
                }
                if exists|j: int| 0 <= j < i + 1 && is_for(#[trigger] all[j], w) {
                    let j = choose|j: int| 0 <= j < i + 1 && is_for(#[trigger] all[j], w);
                    if j < i {
                        assert(before.contains(w));
                    } else {
                        assert(ts.contains(w));
                    }
                }
            }
        }
        i = i + 1;
    }
    proof {
        assert(out@ =~= audience(all));
    }
    out
}

fn collect_keys(evs: &Vec<BufferedEvent>, wid: &str) -> (r: StrSet)
    ensures
        r@ == merge_keys(views(evs@), wid@),
{
    let ghost all = views(evs@);
    let mut out = StrSet::new();
    let mut i: usize = 0;
    while i < evs.len()
        invariant
            i <= evs.len(),
            all == views(evs@),
            forall|k: Seq<char>|
                #[trigger] out@.contains(k) <==> exists|j: int|
                    0 <= j < i && is_merged(#[trigger] all[j], wid@, k),
        decreases evs.len() - i,
    {
        let b = &evs[i];
        let ghost before = out@;
        let merged: bool = targets_contain(b, wid) && str_eq(b.class.as_str(), "visual");
        if merged {
            out.insert(b.coalesce_key.as_str());
        }
        i = i + 1;
        proof {
            assert(all[i - 1] == b@);
            assert forall|k: Seq<char>|
                #[trigger] out@.contains(k) <==> exists|j: int|
                    0 <= j < i && is_merged(#[trigger] all[j], wid@, k) by {
                if before.contains(k) {
                    let j = choose|j: int| 0 <= j < i - 1 && is_merged(#[trigger] all[j], wid@, k);
                    assert(is_merged(all[j], wid@, k));
                }
                if merged && k == b@.key {
                    assert(is_merged(all[i - 1], wid@, k));
                }
                if exists|j: int| 0 <= j < i && is_merged(#[trigger] all[j], wid@, k) {
                    let j = choose|j: int| 0 <= j < i && is_merged(#[trigger] all[j], wid@, k);
                    if j < i - 1 {
                        assert(before.contains(k));
                    }
                }
            }
        }
    }
    proof {
        assert(out@ =~= merge_keys(all, wid@));
    }
    out
}

fn event_fields(b: &BufferedEvent) -> (r: StrMap<Json>)
    ensures
        Doc::Obj(r@) == event_msg(b@),
{
    StrMap::new().with("op", Json::str("EntityEvent")).with("entity", Json::str(b.eid.as_str())).with(
        "event",
        b.event.dup(),
    ).with("payload", b.payload.dup()).with("sim_time", b.sim_time.dup()).with("gen", b.gen.dup()).with(
        "class",
        Json::str(b.class.as_str()),
    )
}

fn send_plain(s: &mut ServerState, evs: &Vec<BufferedEvent>, wid: &str)
    ensures
        final(s)@ == old(s)@.plain_sent(views(evs@), wid@),
{
    let ghost before = s@;
    let ghost all = views(evs@);
    let mut i: usize = 0;
    proof {
        assert(all.take(0) =~= Seq::empty());
    }
    while i < evs.len()
        invariant
            i <= evs.len(),
            all == views(evs@),
            s@ == before.plain_sent(all.take(i as int), wid@),
        decreases evs.len() - i,
    {
        let b = &evs[i];
        proof {
            assert(all.take(i + 1).drop_last() =~= all.take(i as int));
            assert(all.take(i + 1).last() == b@);
        }
        if targets_contain(b, wid) && !str_eq(b.class.as_str(), "visual") && !str_eq(
            b.class.as_str(),
            "debug",
        ) {
            emit(s, wid, event_fields(b).done());
        }
        i = i + 1;
    }
    proof {
        assert(all.take(i as int) =~= all);
    }
}

fn merge(evs: &Vec<BufferedEvent>, wid: &str, key: &str) -> (r: Json)
    requires
        merge_keys(views(evs@), wid@).contains(key@),
    ensures
        r@ == merged_msg(views(evs@), wid@, key@),
{
    let ghost all = views(evs@);
    let mut count: u64 = 0;
    let mut rep: StrMap<Json> = StrMap::new();
    let mut i: usize = 0;
    proof {
        assert(all.take(0) =~= Seq::empty());
    }
    while i < evs.len()
        invariant
            i <= evs.len(),
            all == views(evs@),
            count <= i,
            count == merged_count(all.take(i as int), wid@, key@),
            count > 0 ==> Doc::Obj(rep@) == newest(all.take(i as int), wid@, key@),
            count == 0 ==> forall|j: int| 0 <= j < i ==> !is_merged(#[trigger] all[j], wid@, key@),
        decreases evs.len() - i,
    {
        let b = &evs[i];
        proof {
            assert(all.take(i + 1).drop_last() =~= all.take(i as int));
            assert(all.take(i + 1).last() == b@);
            assert(all[i as int] == b@);
        }
        if targets_contain(b, wid) && str_eq(b.class.as_str(), "visual") && str_eq(
            b.coalesce_key.as_str(),
            key,
        ) {
            rep = event_fields(b);
            count = count + 1;
        }
        i = i + 1;
    }
    proof {
        assert(all.take(i as int) =~= all);
        let j = choose|j: int| 0 <= j < all.len() && is_merged(#[trigger] all[j], wid@, key@);
        assert(is_merged(all[j], wid@, key@));
        assert(count > 0);
    }
    rep.with("count", Json::u64(count)).done()
}

fn send_merged(s: &mut ServerState, evs: &Vec<BufferedEvent>, wid: &str, budget: usize)
    ensures
        final(s)@ == old(s)@.merged_sent(
            views(evs@),
            wid@,
            if sorted(merge_keys(views(evs@), wid@)).len() <= budget {
                sorted(merge_keys(views(evs@), wid@))
            } else {
                sorted(merge_keys(views(evs@), wid@)).take(budget as int)
            },
        ),
{
    let ghost before = s@;
    let set = collect_keys(evs, wid);
    let keys = sorted_texts(&set);
    let ghost all = texts(keys@);
    let n: usize = if keys.len() <= budget {
        keys.len()
    } else {
        budget
    };
    let mut i: usize = 0;
    proof {
        assert(all.take(0) =~= Seq::empty());
    }
    while i < n
        invariant
            i <= n <= keys.len(),
            all == texts(keys@),
            all.to_set() == merge_keys(views(evs@), wid@),
            s@ == before.merged_sent(views(evs@), wid@, all.take(i as int)),
        decreases n - i,
    {
        let key = keys[i].as_str();
        proof {
            assert(all.take(i + 1).drop_last() =~= all.take(i as int));
            assert(all.take(i + 1).last() == key@);
            assert(all[i as int] == key@);
            assert(all.to_set().contains(key@));
        }
        let msg = merge(evs, wid, key);
        emit(s, wid, msg);
        i = i + 1;
    }
    proof {
        if all.len() <= budget {
            assert(all.take(i as int) =~= all);
        }
    }
}

/// Sends the waiting events: those that are merged, one for each key with their
/// number.
pub fn flush_events(s: &mut ServerState)
    ensures
        final(s)@ == old(s)@.events_flushed(),
{
    let mut evs: Vec<BufferedEvent> = Vec::new();
    let ghost start = s@;
    core::mem::swap(&mut s.event_outbox, &mut evs);
    proof {
        assert(views(s.event_outbox@) =~= Seq::<Buffered>::empty());
    }
    let budget: usize = if s.load_level == 0 {
        64
    } else if s.load_level == 1 {
        32
    } else if s.load_level == 2 {
        16
    } else {
        8
    };
    let set = collect_audience(&evs);
    let wids = sorted_texts(&set);
    let ghost before = s@;
    let ghost all = texts(wids@);
    let mut i: usize = 0;
    proof {
        assert(all.take(0) =~= Seq::empty());
    }
    while i < wids.len()
        invariant
            i <= wids.len(),
            all == texts(wids@),
            s@ == before.events_sent(views(evs@), all.take(i as int), budget as nat),
        decreases wids.len() - i,
    {
        let wid = wids[i].as_str();
        proof {
            assert(all.take(i + 1).drop_last() =~= all.take(i as int));
            assert(all.take(i + 1).last() == wid@);
        }
        send_plain(s, &evs, wid);
        send_merged(s, &evs, wid, budget);
        i = i + 1;
    }
    proof {
        assert(all.take(i as int) =~= all);
    }
}

/// A storm stays small: whatever waits, a peer is sent at most the budget of merged
/// events at once.
pub proof fn law_merged_events_are_bounded(
    s: State,
    evs: Seq<Buffered>,
    wid: Seq<char>,
    keys: Seq<Seq<char>>,
)
    ensures
        s.merged_sent(evs, wid, keys).outbox.len() <= s.outbox.len() + keys.len(),
    decreases keys.len(),
{
    if keys.len() > 0 {
        law_merged_events_are_bounded(s, evs, wid, keys.drop_last());
    }
}

}

//! What rebalancing is for: the burden goes from those who have more to those who have less,
//! and whatever belongs elsewhere afterwards is what is handed on.

use vstd::prelude::*;
use vstd::string::*;
use crate::attention::lemma_all_names;
use crate::borders::law_band_names;
use crate::clock::plus;
use crate::float::float_lt;
use crate::handoff::at;
use crate::order::{lemma_sorted_of, sorted};
use crate::partition::{band_from, coarse, is_strip, moved_region, strip_after, Line};
use crate::rebalance::{
    before_count, is_median, lemma_one_median, median, place, upto_count, IMBALANCE_HI,
    IMBALANCE_LO, LINE_HI, LINE_LO,
};
use crate::state::State;
use crate::text::{decimal, find_from};

verus! {

broadcast use {crate::doc::group_json, crate::strmap::group_map};

proof fn lemma_past(s: State, region: Seq<char>, x: u64, names: Seq<Seq<char>>)
    requires
        names.no_duplicates(),
    ensures
        ({
            let q = s.past(region, x, names);
            &&& q.no_duplicates()
            &&& forall|k: Seq<char>| #[trigger]
                q.contains(k) == (names.contains(k) && s.entities.contains_key(k)
                    && s.entities[k].region == region && s.entities[k].pos.x is Some && !float_lt(
                    s.entities[k].pos.x->0,
                    x,
                ))
        }),
    decreases names.len(),
{
    let q = s.past(region, x, names);
    if names.len() > 0 {
        let d = names.drop_last();
        let l = names.last();
        crate::succession::lemma_last_is_new(names);
        lemma_past(s, region, x, d);
        let p = s.past(region, x, d);
        if q.len() > p.len() {
            assert(q == p.push(l));
            assert forall|k: Seq<char>| #[trigger] q.contains(k) == (p.contains(k) || k == l) by {
                crate::json::lemma_push_contains(p, l, k);
            }
            assert(!p.contains(l));
            assert forall|i: int, j: int| 0 <= i < q.len() && 0 <= j < q.len() && i != j implies q[i]
                != q[j] by {
                if i < p.len() && j < p.len() {
                    assert(q[i] == p[i] && q[j] == p[j]);
                } else if i < p.len() {
                    assert(p.contains(q[i]));
                } else {
                    assert(p.contains(q[j]));
                }
            }
        }
    } else {
        assert(forall|k: Seq<char>| !q.contains(k));
    }
}

proof fn lemma_misplaced(s: State, names: Seq<Seq<char>>)
    ensures
        forall|k: Seq<char>| #[trigger]
            s.misplaced(names).contains(k) == (names.contains(k) && s.entities.contains_key(k)
                && is_strip(s.entities[k].region, s.boundaries.len()) && moved_region(
                s.entities[k].pos.x,
                s.entities[k].region,
                s.boundaries,
                s.splits,
            ) != s.entities[k].region),
    decreases names.len(),
{
    let q = s.misplaced(names);
    if names.len() > 0 {
        let d = names.drop_last();
        let l = names.last();
        lemma_misplaced(s, d);
        let p = s.misplaced(d);
        assert(names =~= d.push(l));
        assert forall|k: Seq<char>| #[trigger] q.contains(k) == (names.contains(k)
            && s.entities.contains_key(k) && is_strip(s.entities[k].region, s.boundaries.len())
            && moved_region(
            s.entities[k].pos.x,
            s.entities[k].region,
            s.boundaries,
            s.splits,
        ) != s.entities[k].region) by {
            crate::json::lemma_push_contains(d, l, k);
            crate::json::lemma_push_contains(p, l, k);
        }
    } else {
        assert(forall|k: Seq<char>| !q.contains(k));
    }
}

/// Shifting the line relieves the worker with more load: where the western worker has more,
/// by more than the threshold, the line goes to the lower place, so that its side shrinks,
/// and where the eastern has, to the higher one. The entities that are then to be routed
/// anew are exactly those of a strip which the new line puts elsewhere.
pub proof fn law_line_goes_away_from_the_less_loaded(
    s: State,
    imbalance: u64,
    lower: Line,
    higher: Line,
)
    requires
        s.entities.dom().finite(),
        s.grid2d is None,
        s.rebalance_jobs.len() == 0,
        s.boundaries.len() == 1,
    ensures
        ({
            let t = s.evened_out(imbalance, lower, higher);
            let west = float_lt(0x3FD0_0000_0000_0000, imbalance) && float_lt(
                0xC01C_0000_0000_0000,
                s.boundary,
            );
            let east = float_lt(imbalance, 0xBFD0_0000_0000_0000) && float_lt(
                s.boundary,
                0x401C_0000_0000_0000,
            );
            &&& west ==> t.boundaries == seq![lower] && t.boundary == lower.at
            &&& !west && east ==> t.boundaries == seq![higher] && t.boundary == higher.at
            &&& !west && !east ==> t == s
            &&& t.entities == s.entities && t.splits == s.splits && t.region_worker
                == s.region_worker
            &&& west || east ==> forall|k: Seq<char>| #[trigger]
                s.entities.contains_key(k) ==> {
                    let e = s.entities[k];
                    let moves = is_strip(e.region, 1) && moved_region(
                        e.pos.x,
                        e.region,
                        t.boundaries,
                        t.splits,
                    ) != e.region;
                    moves == (t.rebalance_jobs.len() == 1 && (t.rebalance_jobs[0]).0.contains(k))
                }
            &&& t.rebalance_jobs.len() > 0 ==> (t.rebalance_jobs[0]).1 == 0
        }),
{
    let t = s.evened_out(imbalance, lower, higher);
    let west = float_lt(IMBALANCE_HI, imbalance) && float_lt(LINE_LO, s.boundary);
    let east = float_lt(imbalance, IMBALANCE_LO) && float_lt(s.boundary, LINE_HI);
    if west || east {
        let cut = if west {
            lower
        } else {
            higher
        };
        let a = (State { boundary: cut.at, boundaries: seq![cut], ..s }).partition_logged();
        lemma_all_names(s.entities.dom());
        lemma_misplaced(a, sorted(s.entities.dom()));
        let q = a.misplaced(sorted(s.entities.dom()));
        assert forall|k: Seq<char>| #[trigger] s.entities.contains_key(k) implies {
            let e = s.entities[k];
            let moves = is_strip(e.region, 1) && moved_region(
                e.pos.x,
                e.region,
                t.boundaries,
                t.splits,
            ) != e.region;
            moves == (t.rebalance_jobs.len() == 1 && (t.rebalance_jobs[0]).0.contains(k))
        } by {
            assert(sorted(s.entities.dom()).contains(k));
            if q.contains(k) {
                assert(q.len() > 0);
            }
        }
    }
}

proof fn lemma_upto_all(xs: Seq<u64>, m: u64)
    requires
        forall|i: int| 0 <= i < xs.len() ==> place(#[trigger] xs[i]) <= place(m),
    ensures
        upto_count(xs, m) == xs.len(),
    decreases xs.len(),
{
    if xs.len() > 0 {
        let d = xs.drop_last();
        assert forall|i: int| 0 <= i < d.len() implies place(#[trigger] d[i]) <= place(m) by {
            assert(d[i] == xs[i]);
        }
        assert(place(xs[xs.len() - 1]) <= place(m));
        lemma_upto_all(d, m);
    }
}

proof fn lemma_greatest(xs: Seq<u64>, limit: int) -> (m: u64)
    requires
        exists|i: int| 0 <= i < xs.len() && place(#[trigger] xs[i]) < limit,
    ensures
        xs.contains(m),
        place(m) < limit,
        forall|i: int| 0 <= i < xs.len() && place(#[trigger] xs[i]) < limit ==> place(xs[i]) <= place(m),
    decreases xs.len(),
{
    let d = xs.drop_last();
    let l = xs.last();
    if exists|i: int| 0 <= i < d.len() && place(#[trigger] d[i]) < limit {
        let m = lemma_greatest(d, limit);
        let j = choose|j: int| 0 <= j < d.len() && d[j] == m;
        assert(xs[j] == m);
        let best = if place(l) < limit && place(m) < place(l) {
            l
        } else {
            m
        };
        assert(xs[xs.len() - 1] == l);
        assert forall|i: int| 0 <= i < xs.len() && place(#[trigger] xs[i]) < limit implies place(xs[i])
            <= place(best) by {
            if i < d.len() {
                assert(d[i] == xs[i]);
            }
        }
        best
    } else {
        let i = choose|i: int| 0 <= i < xs.len() && place(#[trigger] xs[i]) < limit;
        if i < d.len() {
            assert(d[i] == xs[i]);
        }
        assert(xs[xs.len() - 1] == l);
        assert forall|i: int| 0 <= i < xs.len() && place(#[trigger] xs[i]) < limit implies place(xs[i])
            <= place(l) by {
            if i < d.len() {
                assert(d[i] == xs[i]);
            }
        }
        l
    }
}

proof fn lemma_counts_meet(xs: Seq<u64>, a: u64, b: u64)
    requires
        place(a) < place(b),
        forall|i: int| 0 <= i < xs.len() && place(#[trigger] xs[i]) < place(b) ==> place(xs[i]) <= place(a),
    ensures
        upto_count(xs, a) == before_count(xs, b),
    decreases xs.len(),
{
    if xs.len() > 0 {
        let d = xs.drop_last();
        assert forall|i: int| 0 <= i < d.len() && place(#[trigger] d[i]) < place(b) implies place(d[i])
            <= place(a) by {
            assert(d[i] == xs[i]);
        }
        assert(xs[xs.len() - 1] == xs.last());
        lemma_counts_meet(d, a, b);
    }
}

proof fn lemma_some_before(xs: Seq<u64>, m: u64)
    requires
        before_count(xs, m) > 0,
    ensures
        exists|i: int| 0 <= i < xs.len() && place(#[trigger] xs[i]) < place(m),
    decreases xs.len(),
{
    if place(xs.last()) < place(m) {
        assert(place(xs[xs.len() - 1]) < place(m));
    } else {
        lemma_some_before(xs.drop_last(), m);
        let d = xs.drop_last();
        let i = choose|i: int| 0 <= i < d.len() && place(#[trigger] d[i]) < place(m);
        assert(xs[i] == d[i]);
    }
}

proof fn lemma_descend(xs: Seq<u64>, m: u64) -> (r: u64)
    requires
        xs.contains(m),
        upto_count(xs, m) > xs.len() / 2,
    ensures
        xs.contains(r),
        is_median(xs, r),
    decreases before_count(xs, m),
{
    if before_count(xs, m) <= xs.len() / 2 {
        m
    } else {
        lemma_some_before(xs, m);
        let a = lemma_greatest(xs, place(m));
        lemma_counts_meet(xs, a, m);
        lemma_fewer(xs, a);
        lemma_descend(xs, a)
    }
}

proof fn lemma_fewer(xs: Seq<u64>, m: u64)
    requires
        xs.contains(m),
    ensures
        before_count(xs, m) < upto_count(xs, m),
    decreases xs.len(),
{
    let j = choose|j: int| 0 <= j < xs.len() && xs[j] == m;
    let d = xs.drop_last();
    lemma_at_most(d, m);
    if j < d.len() {
        assert(d[j] == m);
        lemma_fewer(d, m);
    }
}

proof fn lemma_at_most(xs: Seq<u64>, m: u64)
    ensures
        before_count(xs, m) <= upto_count(xs, m),
    decreases xs.len(),
{
    if xs.len() > 0 {
        lemma_at_most(xs.drop_last(), m);
    }
}

proof fn lemma_median_is_there(xs: Seq<u64>)
    requires
        xs.len() > 0,
    ensures
        xs.contains(median(xs)),
        is_median(xs, median(xs)),
{
    assert(place(xs[0]) < 0x1_0000_0000_0000_0000);
    let top = lemma_greatest(xs, 0x1_0000_0000_0000_0000);
    lemma_upto_all(xs, top);
    let m = lemma_descend(xs, top);
    lemma_one_median(xs, m);
}

/// The ids of the entities of a region that have a place along the x axis.
pub open spec fn placed(s: State, region: Seq<char>, names: Seq<Seq<char>>) -> Seq<Seq<char>> {
    names.filter(
        |k: Seq<char>|
            s.entities.contains_key(k) && s.entities[k].region == region && s.entities[k].pos.x is Some,
    )
}

proof fn lemma_counts_of(s: State, region: Seq<char>, names: Seq<Seq<char>>, m: u64)
    ensures
        s.xs_of(region, names).len() == placed(s, region, names).len(),
        placed(s, region, names).filter(
            |k: Seq<char>| float_lt(s.entities[k].pos.x->0, m),
        ).len() <= before_count(s.xs_of(region, names), m),
        placed(s, region, names).filter(
            |k: Seq<char>| !float_lt(m, s.entities[k].pos.x->0),
        ).len() >= upto_count(s.xs_of(region, names), m),
        forall|x: u64| #[trigger]
            s.xs_of(region, names).contains(x) ==> exists|k: Seq<char>| #[trigger]
                names.contains(k) && s.entities.contains_key(k) && s.entities[k].region == region
                    && s.entities[k].pos.x == Some(x),
    decreases names.len(),
{
    let f = |k: Seq<char>|
        s.entities.contains_key(k) && s.entities[k].region == region && s.entities[k].pos.x is Some;
    let lt = |k: Seq<char>| float_lt(s.entities[k].pos.x->0, m);
    let le = |k: Seq<char>| !float_lt(m, s.entities[k].pos.x->0);
    let q = placed(s, region, names);
    let xs = s.xs_of(region, names);
    reveal(Seq::filter);
    if names.len() > 0 {
        let d = names.drop_last();
        let l = names.last();
        lemma_counts_of(s, region, d, m);
        let p = placed(s, region, d);
        let ys = s.xs_of(region, d);
        if f(l) {
            assert(q == p.push(l));
            assert(q.drop_last() =~= p);
            assert(xs == ys.push(s.entities[l].pos.x->0));
            assert(xs.drop_last() =~= ys);
        } else {
            assert(q == p);
        }
        assert forall|x: u64| #[trigger] xs.contains(x) implies exists|k: Seq<char>| #[trigger]
            names.contains(k) && s.entities.contains_key(k) && s.entities[k].region == region
                && s.entities[k].pos.x == Some(x) by {
            let i = choose|i: int| 0 <= i < xs.len() && xs[i] == x;
            if i < ys.len() {
                assert(ys[i] == x);
                assert(ys.contains(x));
                let k = choose|k: Seq<char>| #[trigger]
                    d.contains(k) && s.entities.contains_key(k) && s.entities[k].region == region
                        && s.entities[k].pos.x == Some(x);
                let j = choose|j: int| 0 <= j < d.len() && d[j] == k;
                assert(names[j] == k);
                assert(names.contains(k));
            } else {
                assert(names[names.len() - 1] == l);
                assert(names.contains(l));
            }
        }
    }
}

/// A crowded region is shared: it is split where as many of its entities stand below as
/// above, the first standby gets the upper part under a fresh lease, and the entities that
/// are then to be handed over are exactly those of the region that stand at the split or
/// past it. These are the ones which belong to the standby's part now; all others that are
/// within the region's borders belong where they are.
pub proof fn law_split_shares_the_region(s: State, region: Seq<char>, now_ms: u64)
    requires
        s.entities.dom().finite(),
        s.standbys.len() > 0,
        !region.contains('#'),
        s.splits.contains_key(region) ==> s.splits[region].len() == 0,
        s.xs_of(region, sorted(s.entities.dom())).len() >= 2,
    ensures
        ({
            let t = s.region_split(region, now_ms);
            let m = t.splits[region][0];
            let job = t.rebalance_jobs.last();
            let new = region + "#1"@;
            let ids = placed(s, region, sorted(s.entities.dom()));
            &&& t.entities == s.entities
            &&& t.splits == s.splits.insert(region, seq![m])
            &&& t.region_worker == s.region_worker.insert(new, s.standbys[0])
            &&& t.region_expires == s.region_expires.insert(new, plus(now_ms, s.lease_ttl_ms))
            &&& t.standbys == s.standbys.remove(0)
            &&& t.rebalance_jobs.len() == s.rebalance_jobs.len() + 1
            &&& job.1 == 0
            &&& job.0.no_duplicates()
            &&& forall|k: Seq<char>| #[trigger]
                job.0.contains(k) == (s.entities.contains_key(k) && s.entities[k].region == region
                    && s.entities[k].pos.x is Some && !float_lt(s.entities[k].pos.x->0, m))
            &&& forall|k: Seq<char>| #[trigger]
                s.entities.contains_key(k) && s.entities[k].region == region
                    && s.entities[k].pos.x is Some && (is_strip(region, s.boundaries.len())
                    ==> strip_after(s.entities[k].pos.x, region, s.boundaries) == region) ==> {
                    let next = moved_region(s.entities[k].pos.x, region, t.boundaries, t.splits);
                    &&& job.0.contains(k) == (next != region)
                    &&& job.0.contains(k) ==> next == new
                }
            &&& ids.filter(|k: Seq<char>| float_lt(s.entities[k].pos.x->0, m)).len() <= ids.len() / 2
            &&& ids.filter(|k: Seq<char>| !float_lt(m, s.entities[k].pos.x->0)).len() > ids.len() / 2
            &&& exists|k: Seq<char>| #[trigger]
                s.entities.contains_key(k) && s.entities[k].region == region && s.entities[k].pos.x
                    == Some(m)
        }),
{
    let names = sorted(s.entities.dom());
    lemma_all_names(s.entities.dom());
    let xs = s.xs_of(region, names);
    let m = median(xs);
    lemma_median_is_there(xs);
    lemma_counts_of(s, region, names, m);
    lemma_past(s, region, m, names);
    let t = s.region_split(region, now_ms);
    let job = t.rebalance_jobs.last();
    let subs = if s.splits.contains_key(region) {
        s.splits[region]
    } else {
        Seq::empty()
    };
    assert(subs.push(m) =~= seq![m]);
    assert(t.splits == s.splits.insert(region, seq![m]));
    let k0 = choose|k: Seq<char>| #[trigger]
        names.contains(k) && s.entities.contains_key(k) && s.entities[k].region == region
            && s.entities[k].pos.x == Some(m);
    assert(s.entities.contains_key(k0));
    assert forall|k: Seq<char>| #[trigger] job.0.contains(k) == (s.entities.contains_key(k)
        && s.entities[k].region == region && s.entities[k].pos.x is Some && !float_lt(
        s.entities[k].pos.x->0,
        m,
    )) by {
        assert(names.contains(k) == s.entities.contains_key(k));
    }
    law_band_names(region, 0, 1);
    reveal_strlit("#1");
    reveal_strlit("#");
    assert(decimal(1) =~= seq!['1']) by {
        assert(decimal(1).len() == 1);
    }
    assert("#"@ + decimal(1) =~= "#1"@);
    assert(region + "#"@ + decimal(1) =~= region + "#1"@);
    assert forall|k: Seq<char>| #[trigger]
        s.entities.contains_key(k) && s.entities[k].region == region && s.entities[k].pos.x is Some
            && (is_strip(region, s.boundaries.len()) ==> strip_after(
            s.entities[k].pos.x,
            region,
            s.boundaries,
        ) == region) implies {
        let next = moved_region(s.entities[k].pos.x, region, t.boundaries, t.splits);
        &&& job.0.contains(k) == (next != region)
        &&& job.0.contains(k) ==> next == region + "#1"@
    } by {
        let x = s.entities[k].pos.x;
        let subs = seq![m];
        assert(t.splits[region] == subs);
        assert(coarse(region) == region);
        assert(band_from(x, subs, 1) == 1);
        assert(band_from(x, subs, 0) == if float_lt(x->0, m) {
            0int
        } else {
            1int
        });
    }
}

proof fn lemma_hottest(s: State, names: Seq<Seq<char>>)
    ensures
        match s.hottest(names) {
            Some(r) => names.contains(r) && s.is_hot(r) && forall|k: Seq<char>|
                names.contains(k) && #[trigger] s.is_hot(k) ==> !float_lt(
                    s.region_load(r)->0,
                    s.region_load(k)->0,
                ),
            None => forall|k: Seq<char>| names.contains(k) ==> !#[trigger] s.is_hot(k),
        },
    decreases names.len(),
{
    if names.len() > 0 {
        let d = names.drop_last();
        let l = names.last();
        lemma_hottest(s, d);
        assert(names =~= d.push(l));
        assert forall|k: Seq<char>| #[trigger] names.contains(k) == (d.contains(k) || k == l) by {
            crate::json::lemma_push_contains(d, l, k);
        }
    } else {
        assert(forall|k: Seq<char>| !names.contains(k));
    }
}

proof fn lemma_unmarked(region: Seq<char>)
    ensures
        (find_from(region, '#', 0) >= region.len()) == !region.contains('#'),
{
    crate::borders::law_coarse_names(region);
    crate::borders::lemma_find(region, '#', 0);
    let i = find_from(region, '#', 0);
    if i < region.len() {
        assert(region[i] == '#');
    } else if region.contains('#') {
        let j = choose|j: int| 0 <= j < region.len() && region[j] == '#';
        assert(region[j] != '#');
    }
}

/// The region that is split is the most loaded of those that are overloaded and not split
/// yet; none is without a standby, with a job under way, on a grid, or with fewer than two
/// entities that have a place.
pub proof fn law_most_loaded_region_is_split(s: State)
    requires
        s.region_worker.dom().finite(),
        s.entities.dom().finite(),
    ensures
        ({
            let over = |r: Seq<char>|
                {
                    &&& s.region_worker.contains_key(r)
                    &&& !r.contains('#')
                    &&& !(s.splits.contains_key(r) && s.splits[r].len() > 0)
                    &&& s.worker_load.contains_key(s.region_worker[r])
                    &&& float_lt(0x3FEB_3333_3333_3333, s.worker_load[s.region_worker[r]])
                };
            match s.split_region() {
                Some(r) => {
                    &&& over(r)
                    &&& forall|k: Seq<char>| #[trigger]
                        over(k) ==> !float_lt(
                            s.worker_load[s.region_worker[r]],
                            s.worker_load[s.region_worker[k]],
                        )
                    &&& s.standbys.len() > 0
                    &&& s.rebalance_jobs.len() == 0
                    &&& s.grid2d is None
                    &&& placed(s, r, sorted(s.entities.dom())).len() >= 2
                },
                None => s.standbys.len() == 0 || s.rebalance_jobs.len() > 0 || s.grid2d is Some || (
                forall|k: Seq<char>| !#[trigger] over(k)) || exists|r: Seq<char>| #[trigger]
                    over(r) && placed(s, r, sorted(s.entities.dom())).len() < 2,
            }
        }),
{
    let names = sorted(s.region_worker.dom());
    lemma_all_names(s.region_worker.dom());
    lemma_hottest(s, names);
    let over = |r: Seq<char>|
        {
            &&& s.region_worker.contains_key(r)
            &&& !r.contains('#')
            &&& !(s.splits.contains_key(r) && s.splits[r].len() > 0)
            &&& s.worker_load.contains_key(s.region_worker[r])
            &&& float_lt(0x3FEB_3333_3333_3333, s.worker_load[s.region_worker[r]])
        };
    assert forall|r: Seq<char>| #[trigger] over(r) == (names.contains(r) && s.is_hot(r)) by {
        lemma_unmarked(r);
    }
    match s.hottest(names) {
        Some(r) => {
            lemma_counts_of(s, r, sorted(s.entities.dom()), 0);
            assert(over(r));
            assert forall|k: Seq<char>| #[trigger] over(k) implies !float_lt(
                s.worker_load[s.region_worker[r]],
                s.worker_load[s.region_worker[k]],
            ) by {
                assert(s.is_hot(k));
            }
        },
        None => {
            assert forall|k: Seq<char>| !#[trigger] over(k) by {
                assert(names.contains(k) ==> !s.is_hot(k));
            }
        },
    }
}

/// A job is worked off: what a batch hands out are the next of the job's entities, at most
/// eight, and at least one where any is left; what is left after it are the ones behind
/// them. A job of which nothing is left is gone, and the others wait as they did.
pub proof fn law_batches_work_off_the_job(s: State)
    requires
        s.rebalance_jobs.len() > 0,
        (s.rebalance_jobs[0]).1 <= (s.rebalance_jobs[0]).0.len(),
    ensures
        ({
            let t = s.batch_taken();
            let (eids, cursor) = s.rebalance_jobs[0];
            let q = s.next_batch();
            let left = eids.skip(cursor as int);
            &&& q.len() <= 8
            &&& q.is_prefix_of(left)
            &&& left.len() > 0 ==> q.len() > 0
            &&& left.len() > q.len() ==> q.len() == 8
            &&& left.len() > q.len() ==> t.rebalance_jobs.len() == s.rebalance_jobs.len()
                && (t.rebalance_jobs[0]).0.skip((t.rebalance_jobs[0]).1 as int) == left.skip(
                q.len() as int,
            ) && t.rebalance_jobs.skip(1) == s.rebalance_jobs.skip(1)
            &&& left.len() == q.len() ==> t.rebalance_jobs == s.rebalance_jobs.skip(1)
            &&& t.entities == s.entities
        }),
{
    let t = s.batch_taken();
    let (eids, cursor) = s.rebalance_jobs[0];
    let q = s.next_batch();
    let left = eids.skip(cursor as int);
    assert(q =~= left.take(q.len() as int));
    if left.len() > q.len() {
        assert((t.rebalance_jobs[0]).0.skip((t.rebalance_jobs[0]).1 as int) =~= left.skip(
            q.len() as int,
        ));
        assert(t.rebalance_jobs.skip(1) =~= s.rebalance_jobs.skip(1));
    } else {
        assert(t.rebalance_jobs =~= s.rebalance_jobs.skip(1));
    }
}

/// The entities of some regions.
pub open spec fn crowd_in(s: State, regions: Set<Seq<char>>) -> Set<Seq<char>> {
    s.entities.dom().filter(|k: Seq<char>| regions.contains(s.entities[k].region))
}

proof fn lemma_crowd(s: State, region: Seq<char>, names: Seq<Seq<char>>)
    requires
        names.no_duplicates(),
    ensures
        s.crowd(region, names) == names.to_set().filter(
            |k: Seq<char>| set![region].contains(s.entities[k].region),
        ).len(),
        names.to_set().finite(),
    decreases names.len(),
{
    let f = |k: Seq<char>| set![region].contains(s.entities[k].region);
    vstd::seq_lib::seq_to_set_is_finite(names);
    if names.len() == 0 {
        assert(names.to_set().filter(f) =~= Set::empty());
    } else {
        let d = names.drop_last();
        let l = names.last();
        crate::succession::lemma_last_is_new(names);
        lemma_crowd(s, region, d);
        assert forall|k: Seq<char>| names.to_set().contains(k) == (d.to_set().contains(k) || k == l) by {
            assert(names.contains(k) == (d.contains(k) || k == l));
        }
        assert(!d.to_set().contains(l));
        if f(l) {
            assert(names.to_set().filter(f) =~= d.to_set().filter(f).insert(l));
        } else {
            assert(names.to_set().filter(f) =~= d.to_set().filter(f));
        }
    }
}

proof fn lemma_burden(s: State, w: Seq<char>, names: Seq<Seq<char>>)
    requires
        names.no_duplicates(),
    ensures
        s.burden(w, names) == names.to_set().filter(
            |k: Seq<char>| s.blocks_of(w).contains(s.entities[k].region),
        ).len(),
        names.to_set().finite(),
    decreases names.len(),
{
    let f = |k: Seq<char>| s.blocks_of(w).contains(s.entities[k].region);
    vstd::seq_lib::seq_to_set_is_finite(names);
    if names.len() == 0 {
        assert(names.to_set().filter(f) =~= Set::empty());
    } else {
        let d = names.drop_last();
        let l = names.last();
        crate::succession::lemma_last_is_new(names);
        lemma_burden(s, w, d);
        assert forall|k: Seq<char>| names.to_set().contains(k) == (d.to_set().contains(k) || k == l) by {
            assert(names.contains(k) == (d.contains(k) || k == l));
        }
        assert(!d.to_set().contains(l));
        if f(l) {
            assert(names.to_set().filter(f) =~= d.to_set().filter(f).insert(l));
        } else {
            assert(names.to_set().filter(f) =~= d.to_set().filter(f));
        }
    }
}

proof fn lemma_counted(s: State, w: Seq<char>, region: Seq<char>)
    requires
        s.entities.dom().finite(),
    ensures
        s.burden_of(w) == crowd_in(s, s.blocks_of(w)).len(),
        s.crowd_of(region) == crowd_in(s, set![region]).len(),
{
    let ids = sorted(s.entities.dom());
    lemma_all_names(s.entities.dom());
    lemma_sorted_of(s.entities.dom());
    lemma_burden(s, w, ids);
    lemma_crowd(s, region, ids);
}

proof fn lemma_extremes(s: State, ws: Seq<Seq<char>>)
    requires
        ws.len() > 0,
    ensures
        ws.contains(s.most_burdened(ws)),
        ws.contains(s.least_burdened(ws)),
        forall|w: Seq<char>|
            ws.contains(w) ==> s.burden_of(s.least_burdened(ws)) <= #[trigger] s.burden_of(w)
                <= s.burden_of(s.most_burdened(ws)),
    decreases ws.len(),
{
    let l = ws.last();
    assert(ws[ws.len() - 1] == l);
    if ws.len() > 1 {
        let d = ws.drop_last();
        lemma_extremes(s, d);
        assert(ws =~= d.push(l));
        assert forall|w: Seq<char>| #[trigger] ws.contains(w) == (d.contains(w) || w == l) by {
            crate::json::lemma_push_contains(d, l, w);
        }
    } else {
        assert(ws[0] == l);
        assert(forall|w: Seq<char>| ws.contains(w) ==> w == l);
    }
}

proof fn lemma_fits(s: State, regions: Seq<Seq<char>>, target: nat)
    requires
        regions.len() > 0,
    ensures
        regions.contains(s.best_fit(regions, target)),
        forall|r: Seq<char>|
            regions.contains(r) ==> s.misfit(s.best_fit(regions, target), target)
                <= #[trigger] s.misfit(r, target),
    decreases regions.len(),
{
    let l = regions.last();
    assert(regions[regions.len() - 1] == l);
    if regions.len() > 1 {
        let d = regions.drop_last();
        lemma_fits(s, d, target);
        assert(regions =~= d.push(l));
        assert forall|w: Seq<char>| #[trigger] regions.contains(w) == (d.contains(w) || w == l) by {
            crate::json::lemma_push_contains(d, l, w);
        }
    } else {
        assert(regions[0] == l);
        assert(forall|w: Seq<char>| regions.contains(w) ==> w == l);
    }
}

/// How far apart two numbers are.
pub open spec fn apart(a: nat, b: nat) -> int {
    if a <= b {
        b - a
    } else {
        a - b
    }
}

/// A block evens out the grid: it goes from the worker with the most entities to the one
/// with the fewest, is one that the former holds besides others, and of these the one whose
/// entities make up half of the difference most closely. None goes where the difference is
/// not large enough, or while something is under way.
pub proof fn law_blocks_even_out(s: State)
    requires
        s.entities.dom().finite(),
        s.region_worker.dom().finite(),
        s.holders().finite(),
    ensures
        match s.evening_move() {
            Some((block, hot, cold)) => {
                let a = crowd_in(s, s.blocks_of(hot)).len();
                let b = crowd_in(s, s.blocks_of(cold)).len();
                let half = ((a - b) / 2) as nat;
                &&& s.grid2d is Some && s.rebalance_jobs.len() == 0
                &&& s.region_worker.contains_key(block) && s.region_worker[block] == hot
                &&& exists|r: Seq<char>| #[trigger]
                    s.region_worker.contains_key(r) && r != block && s.region_worker[r] == hot
                &&& s.holders().contains(cold)
                &&& hot != cold
                &&& 2 * a >= 3 * b + 8
                &&& forall|w: Seq<char>| #[trigger]
                    s.holders().contains(w) ==> b <= crowd_in(s, s.blocks_of(w)).len() <= a
                &&& forall|r: Seq<char>| #[trigger]
                    s.blocks_of(hot).contains(r) ==> apart(crowd_in(s, set![block]).len(), half)
                        <= apart(crowd_in(s, set![r]).len(), half)
            },
            None => s.grid2d is None || s.rebalance_jobs.len() > 0 || s.holders().len() == 0
                || exists|hot: Seq<char>| #[trigger]
                s.holders().contains(hot) && (forall|w: Seq<char>| #[trigger]
                    s.holders().contains(w) ==> crowd_in(s, s.blocks_of(w)).len() <= crowd_in(
                        s,
                        s.blocks_of(hot),
                    ).len()) && (s.blocks_of(hot).len() < 2 || forall|w: Seq<char>| #[trigger]
                    s.holders().contains(w) ==> w == hot || 2 * crowd_in(s, s.blocks_of(hot)).len()
                        < 3 * crowd_in(s, s.blocks_of(w)).len() + 8),
        },
{
    let ws = sorted(s.holders());
    lemma_all_names(s.holders());
    match s.evening_move() {
        Some((block, hot, cold)) => {
            lemma_extremes(s, ws);
            let a = s.burden_of(hot);
            let b = s.burden_of(cold);
            let held = s.blocks_of(hot);
            assert(held.subset_of(s.region_worker.dom()));
            vstd::set_lib::lemma_set_subset_finite(s.region_worker.dom(), held);
            let blocks = sorted(held);
            lemma_all_names(held);
            lemma_fits(s, blocks, ((a - b) / 2) as nat);
            lemma_counted(s, hot, block);
            lemma_counted(s, cold, block);
            assert(held.contains(block));
            let other = if blocks[0] == block {
                blocks[1]
            } else {
                blocks[0]
            };
            assert(held.contains(blocks[0]) && held.contains(blocks[1]));
            assert(s.region_worker.contains_key(other) && other != block);
            assert forall|w: Seq<char>| #[trigger] s.holders().contains(w) implies crowd_in(
                s,
                s.blocks_of(cold),
            ).len() <= crowd_in(s, s.blocks_of(w)).len() <= crowd_in(s, s.blocks_of(hot)).len() by {
                lemma_counted(s, w, block);
                assert(ws.contains(w));
                assert(s.burden_of(w) == crowd_in(s, s.blocks_of(w)).len());
            }
            assert forall|r: Seq<char>| #[trigger] held.contains(r) implies apart(
                crowd_in(s, set![block]).len(),
                ((a - b) / 2) as nat,
            ) <= apart(crowd_in(s, set![r]).len(), ((a - b) / 2) as nat) by {
                lemma_counted(s, hot, r);
                assert(blocks.contains(r));
                assert(s.misfit(block, ((a - b) / 2) as nat) <= s.misfit(r, ((a - b) / 2) as nat));
            }
        },
        None => {
            if s.grid2d is Some && s.rebalance_jobs.len() == 0 && s.holders().len() > 0 {
                lemma_sorted_of(s.holders());
                lemma_extremes(s, ws);
                let hot = s.most_burdened(ws);
                let cold = s.least_burdened(ws);
                assert(s.holders().contains(hot));
                let held = s.blocks_of(hot);
                assert(held.subset_of(s.region_worker.dom()));
                vstd::set_lib::lemma_set_subset_finite(s.region_worker.dom(), held);
                lemma_sorted_of(held);
                lemma_counted(s, hot, hot);
                lemma_counted(s, cold, hot);
                assert forall|w: Seq<char>| #[trigger] s.holders().contains(w) implies crowd_in(
                    s,
                    s.blocks_of(w),
                ).len() <= crowd_in(s, s.blocks_of(hot)).len() by {
                    lemma_counted(s, w, hot);
                    assert(ws.contains(w));
                }
                if held.len() >= 2 {
                    assert forall|w: Seq<char>| #[trigger] s.holders().contains(w) implies w == hot
                        || 2 * crowd_in(s, s.blocks_of(hot)).len() < 3 * crowd_in(
                        s,
                        s.blocks_of(w),
                    ).len() + 8 by {
                        lemma_counted(s, w, hot);
                        assert(ws.contains(w));
                        assert(s.burden_of(w) >= s.burden_of(cold));
                        if ws.len() == 1 {
                            assert(ws[0] == w && ws[0] == hot);
                        }
                    }
                }
            }
        },
    }
}

/// Where an entity is routed to when its turn comes: on a grid to the cell that it belongs
/// to, and among strips where its place says; one that is where it belongs, or in a place
/// with a name of its own, stays.
pub proof fn law_routed_where_it_belongs(s: State, eid: Seq<char>, cell: Seq<char>)
    ensures
        ({
            let e = s.entities[eid];
            let next = moved_region(e.pos.x, e.region, s.boundaries, s.splits);
            match s.route_of(eid, cell) {
                Some(r) => {
                    &&& s.entities.contains_key(eid)
                    &&& r != e.region
                    &&& s.grid2d is Some ==> r == cell
                    &&& s.grid2d is None ==> r == next && is_strip(e.region, s.boundaries.len())
                },
                None => s.entities.contains_key(eid) ==> {
                    &&& s.grid2d is Some ==> e.region == cell
                    &&& s.grid2d is None && is_strip(e.region, s.boundaries.len()) ==> next
                        == e.region
                },
            }
        }),
{
}

}

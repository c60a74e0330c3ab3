//! Moving load: shifting the line between two workers, splitting a crowded region,
//! and handing over a block of the grid.

use vstd::prelude::*;
use vstd::string::*;
use crate::clock::plus;
use crate::entity::Ent;
use crate::failover::prepare_block_migration;
use crate::float::{bits_lt, float_lt, opt_bits, Float};
use crate::handoff::at;
use crate::order::{sorted, sorted_texts};
use crate::partition::{
    is_strip, is_strip_region_name, lines, moved_region, movement_region_after, reaches, Cut, Line,
    Splits,
};
use crate::sight::sorted_keys;
use crate::state::{views, Migration, PreparedBlockMigration, RebalanceJob, ServerState, State};
use crate::strmap::{texts, Dup, StrSet};
use crate::text::{chars_of, find_char, find_from, str_eq};
use crate::topology::wal_partition_config;

verus! {

broadcast use {crate::doc::group_json, crate::strmap::group_map};

impl State {
    /// Whether the line between two workers may be shifted: there is one line, and no
    /// earlier shift is still being worked off.
    pub open spec fn may_shift(self) -> bool {
        self.grid2d is None && self.rebalance_jobs.len() == 0 && self.boundaries.len() == 1
    }

    /// The load that the worker of a region last reported.
    pub open spec fn region_load(self, region: Seq<char>) -> Option<u64> {
        match at(self.region_worker, region) {
            Some(w) => at(self.worker_load, w),
            None => None,
        }
    }

    /// Whether a strip's entity belongs elsewhere by now.
    pub open spec fn is_misplaced(self, e: Ent) -> bool {
        is_strip(e.region, self.boundaries.len()) && moved_region(
            e.pos.x,
            e.region,
            self.boundaries,
            self.splits,
        ) != e.region
    }

    /// Those of some entities that belong elsewhere by now.
    pub open spec fn misplaced(self, names: Seq<Seq<char>>) -> Seq<Seq<char>>
        decreases names.len(),
    {
        if names.len() == 0 {
            Seq::empty()
        } else {
            let before = self.misplaced(names.drop_last());
            let k = names.last();
            if self.entities.contains_key(k) && self.is_misplaced(self.entities[k]) {
                before.push(k)
            } else {
                before
            }
        }
    }

    /// The state with entities to be routed anew.
    pub open spec fn job_queued(self, eids: Seq<Seq<char>>) -> State {
        State { rebalance_jobs: self.rebalance_jobs.push((eids, 0nat)), ..self }
    }

    /// The state after the line between two workers was shifted. The new line is on
    /// its way to the log before anything is routed by it.
    pub open spec fn line_shifted(self, cut: Line) -> State {
        let s = (State { boundary: cut.at, boundaries: seq![cut], ..self }).partition_logged();
        let eids = s.misplaced(sorted(s.entities.dom()));
        if eids.len() > 0 {
            s.job_queued(eids)
        } else {
            s
        }
    }
}

fn load_at(s: &ServerState, region: &str) -> (r: Option<Float>)
    ensures
        opt_bits(r) == s@.region_load(region@),
{
    match s.region_worker.get(region) {
        Some(w) => match s.worker_load.get(w.as_str()) {
            Some(l) => Some(l.dup()),
            None => None,
        },
        None => None,
    }
}

/// The loads of the western and the eastern worker, where the line between them may
/// be shifted.
pub fn rebalance_loads(s: &ServerState) -> (r: Option<(Option<Float>, Option<Float>)>)
    ensures
        match r {
            Some((w, e)) => s@.may_shift() && opt_bits(w) == s@.region_load("W"@) && opt_bits(e)
                == s@.region_load("E"@),
            None => !s@.may_shift(),
        },
{
    if s.grid2d.is_some() || s.rebalance_jobs.len() > 0 || s.boundaries.len() != 1 {
        return None;
    }
    Some((load_at(s, "W"), load_at(s, "E")))
}

fn find_misplaced(s: &ServerState) -> (r: Vec<String>)
    ensures
        texts(r@) == s@.misplaced(sorted(s@.entities.dom())),
{
    let ids = sorted_keys(&s.entities);
    let ghost all = texts(ids@);
    let mut out: Vec<String> = Vec::new();
    let mut i: usize = 0;
    proof {
        assert(all.take(0) =~= Seq::empty());
        assert(texts(out@) =~= Seq::empty());
    }
    while i < ids.len()
        invariant
            i <= ids.len(),
            all == texts(ids@),
            texts(out@) == s@.misplaced(all.take(i as int)),
        decreases ids.len() - i,
    {
        let eid = ids[i].as_str();
        let ghost before = texts(out@);
        proof {
            assert(all.take(i + 1).drop_last() =~= all.take(i as int));
            assert(all.take(i + 1).last() == eid@);
        }
        if let Some(e) = s.entities.get(eid) {
            if is_strip_region_name(e.region.as_str(), s.boundaries.len()) {
                let next = movement_region_after(
                    &e.pos.x,
                    e.region.as_str(),
                    &s.boundaries,
                    &s.splits,
                );
                if !str_eq(next.as_str(), e.region.as_str()) {
                    out.push(ids[i].clone());
                    proof {
                        assert(texts(out@) =~= before.push(eid@));
                    }
                }
            }
        }
        i = i + 1;
    }
    proof {
        assert(all.take(i as int) =~= all);
    }
    out
}

fn queue_job(s: &mut ServerState, eids: Vec<String>)
    ensures
        final(s)@ == old(s)@.job_queued(texts(eids@)),
{
    let ghost before = views(s.rebalance_jobs@);
    let ghost names = texts(eids@);
    s.rebalance_jobs.push(RebalanceJob { eids, cursor: 0 });
    proof {
        assert(views(s.rebalance_jobs@) =~= before.push((names, 0nat)));
    }
}

/// Shifts the line between two workers, and has the entities routed anew that change
/// sides.
fn shift_boundary(s: &mut ServerState, cut: Cut)
    requires
        old(s)@.may_shift(),
    ensures
        final(s)@ == old(s)@.line_shifted(cut@),
{
    s.boundary = cut.at.dup();
    let ghost line = cut@;
    let mut cuts: Vec<Cut> = Vec::new();
    cuts.push(cut);
    proof {
        assert(lines(cuts@) =~= seq![line]);
    }
    s.boundaries = cuts;
    wal_partition_config(s);
    let eids = find_misplaced(s);
    proof {
        assert(texts(eids@).len() == eids@.len());
    }
    if eids.len() > 0 {
        queue_job(s, eids);
    }
}

/// By how much one worker is more loaded before the line is shifted: 0.25, and less than
/// zero.
pub const IMBALANCE_HI: u64 = 0x3FD0_0000_0000_0000;

pub const IMBALANCE_LO: u64 = 0xBFD0_0000_0000_0000;

/// How far the line goes: from -7 to 7.
pub const LINE_LO: u64 = 0xC01C_0000_0000_0000;

pub const LINE_HI: u64 = 0x401C_0000_0000_0000;

impl State {
    /// The state after the line between two workers was looked at: it goes away from the
    /// less loaded one, to the next place on that side, unless it is at its end.
    pub open spec fn evened_out(self, imbalance: u64, lower: Line, higher: Line) -> State {
        if !self.may_shift() {
            self
        } else if float_lt(IMBALANCE_HI, imbalance) && float_lt(LINE_LO, self.boundary) {
            self.line_shifted(lower)
        } else if float_lt(imbalance, IMBALANCE_LO) && float_lt(self.boundary, LINE_HI) {
            self.line_shifted(higher)
        } else {
            self
        }
    }
}

/// Evens out the load of two workers. `imbalance` is the western load less the eastern, by
/// its bits, and `lower` and `higher` are the next places of the line on either side. What
/// comes back says whether the line was shifted.
pub fn rebalance(s: &mut ServerState, imbalance: u64, lower: Cut, higher: Cut) -> (r: bool)
    ensures
        final(s)@ == old(s)@.evened_out(imbalance, lower@, higher@),
        r == (old(s)@.may_shift() && ((float_lt(IMBALANCE_HI, imbalance) && float_lt(
            LINE_LO,
            old(s)@.boundary,
        )) || (float_lt(imbalance, IMBALANCE_LO) && float_lt(old(s)@.boundary, LINE_HI)))),
{
    if s.grid2d.is_some() || s.rebalance_jobs.len() > 0 || s.boundaries.len() != 1 {
        return false;
    }
    let line: u64 = s.boundary.bits();
    if bits_lt(IMBALANCE_HI, imbalance) && bits_lt(LINE_LO, line) {
        shift_boundary(s, lower);
        true
    } else if bits_lt(imbalance, IMBALANCE_LO) && bits_lt(line, LINE_HI) {
        shift_boundary(s, higher);
        true
    } else {
        false
    }
}

/// Workers that are about as loaded as each other keep their line, and a line at its end
/// goes no further.
pub proof fn law_balanced_line_stays(s: State, imbalance: u64, lower: Line, higher: Line)
    ensures
        !float_lt(IMBALANCE_HI, imbalance) && !float_lt(imbalance, IMBALANCE_LO) ==> s.evened_out(
            imbalance,
            lower,
            higher,
        ) == s,
        s.boundary == LINE_LO && float_lt(IMBALANCE_HI, imbalance) ==> s.evened_out(
            imbalance,
            lower,
            higher,
        ) == s,
        s.boundary == LINE_HI && float_lt(imbalance, IMBALANCE_LO) ==> s.evened_out(
            imbalance,
            lower,
            higher,
        ) == s,
{
}

/// The load past which a region is split: 0.85.
pub const SPLIT_HI: u64 = 0x3FEB_3333_3333_3333;

impl State {
    /// Whether a region may be split: it is not part of a split itself, and its worker
    /// is overloaded.
    pub open spec fn is_hot(self, region: Seq<char>) -> bool {
        &&& find_from(region, '#', 0) >= region.len()
        &&& !(self.splits.contains_key(region) && self.splits[region].len() > 0)
        &&& self.region_load(region) is Some
        &&& float_lt(SPLIT_HI, self.region_load(region)->0)
    }

    /// The most loaded of some regions that may be split.
    pub open spec fn hottest(self, names: Seq<Seq<char>>) -> Option<Seq<char>>
        decreases names.len(),
    {
        if names.len() == 0 {
            None
        } else {
            let best = self.hottest(names.drop_last());
            let k = names.last();
            if self.is_hot(k) && (best is None || !float_lt(
                self.region_load(k)->0,
                self.region_load(best->0)->0,
            )) {
                Some(k)
            } else {
                best
            }
        }
    }

    /// Where those of some entities are along the x axis that are in a region.
    pub open spec fn xs_of(self, region: Seq<char>, names: Seq<Seq<char>>) -> Seq<u64>
        decreases names.len(),
    {
        if names.len() == 0 {
            Seq::empty()
        } else {
            let before = self.xs_of(region, names.drop_last());
            let k = names.last();
            if self.entities.contains_key(k) && self.entities[k].region == region
                && self.entities[k].pos.x is Some {
                before.push(self.entities[k].pos.x->0)
            } else {
                before
            }
        }
    }

    /// Those of some entities in a region that are at `x` or past it.
    pub open spec fn past(self, region: Seq<char>, x: u64, names: Seq<Seq<char>>) -> Seq<Seq<char>>
        decreases names.len(),
    {
        if names.len() == 0 {
            Seq::empty()
        } else {
            let before = self.past(region, x, names.drop_last());
            let k = names.last();
            if self.entities.contains_key(k) && self.entities[k].region == region && reaches(
                self.entities[k].pos.x,
                x,
            ) {
                before.push(k)
            } else {
                before
            }
        }
    }
}

/// The place of a float among all floats: the negative zero comes before the zero.
pub open spec fn place(bits: u64) -> int {
    if bits < 0x8000_0000_0000_0000 {
        bits as int
    } else {
        0x7fff_ffff_ffff_ffff - bits
    }
}

/// How many of some floats come before one.
pub open spec fn before_count(xs: Seq<u64>, m: u64) -> nat
    decreases xs.len(),
{
    if xs.len() == 0 {
        0
    } else {
        before_count(xs.drop_last(), m) + if place(xs.last()) < place(m) {
            1nat
        } else {
            0nat
        }
    }
}

/// How many of some floats come before one or are it.
pub open spec fn upto_count(xs: Seq<u64>, m: u64) -> nat
    decreases xs.len(),
{
    if xs.len() == 0 {
        0
    } else {
        upto_count(xs.drop_last(), m) + if place(xs.last()) <= place(m) {
            1nat
        } else {
            0nat
        }
    }
}

/// Whether a float is the middle one of some, the upper of two.
pub open spec fn is_median(xs: Seq<u64>, m: u64) -> bool {
    before_count(xs, m) <= xs.len() / 2 < upto_count(xs, m)
}

/// The middle one of some floats.
pub open spec fn median(xs: Seq<u64>) -> u64 {
    choose|m: u64| is_median(xs, m)
}

proof fn lemma_counts(xs: Seq<u64>, a: u64, b: u64)
    requires
        place(a) < place(b),
    ensures
        upto_count(xs, a) <= before_count(xs, b),
    decreases xs.len(),
{
    if xs.len() > 0 {
        lemma_counts(xs.drop_last(), a, b);
    }
}

pub proof fn lemma_one_median(xs: Seq<u64>, m: u64)
    requires
        is_median(xs, m),
    ensures
        median(xs) == m,
{
    let n = median(xs);
    assert(is_median(xs, n));
    if place(m) < place(n) {
        lemma_counts(xs, m, n);
    } else if place(n) < place(m) {
        lemma_counts(xs, n, m);
    }
}

fn place_lt(a: u64, b: u64) -> (r: bool)
    ensures
        r == (place(a) < place(b)),
{
    let m: u64 = 0x8000_0000_0000_0000;
    if a < m {
        b < m && a < b
    } else {
        b < m || a > b
    }
}

/// Whether floats are in order.
pub open spec fn in_order(t: Seq<u64>) -> bool {
    forall|i: int, j: int| 0 <= i <= j < t.len() ==> place(#[trigger] t[i]) <= place(#[trigger] t[j])
}

proof fn lemma_insert_counts(t: Seq<u64>, j: int, x: u64, m: u64)
    requires
        0 <= j <= t.len(),
    ensures
        before_count(t.insert(j, x), m) == before_count(t, m) + if place(x) < place(m) {
            1nat
        } else {
            0nat
        },
        upto_count(t.insert(j, x), m) == upto_count(t, m) + if place(x) <= place(m) {
            1nat
        } else {
            0nat
        },
    decreases t.len(),
{
    let u = t.insert(j, x);
    if j == t.len() {
        assert(u.drop_last() =~= t);
    } else {
        lemma_insert_counts(t.drop_last(), j, x, m);
        assert(u.drop_last() =~= t.drop_last().insert(j, x));
        assert(u.last() == t.last());
    }
}

proof fn lemma_few_before(t: Seq<u64>, m: u64, k: int)
    requires
        0 <= k <= t.len(),
        forall|i: int| k <= i < t.len() ==> place(m) <= place(#[trigger] t[i]),
    ensures
        before_count(t, m) <= k,
    decreases t.len(),
{
    if t.len() > 0 {
        let d = t.drop_last();
        if k == t.len() {
            lemma_few_before(d, m, k - 1);
        } else {
            assert forall|i: int| k <= i < d.len() implies place(m) <= place(#[trigger] d[i]) by {
                assert(d[i] == t[i]);
            }
            lemma_few_before(d, m, k);
            assert(place(m) <= place(t[t.len() - 1]));
        }
    }
}

proof fn lemma_many_upto(t: Seq<u64>, m: u64, k: int)
    requires
        0 <= k <= t.len(),
        forall|i: int| 0 <= i < k ==> place(#[trigger] t[i]) <= place(m),
    ensures
        upto_count(t, m) >= k,
    decreases t.len(),
{
    if t.len() > 0 {
        let d = t.drop_last();
        let k2 = if k == t.len() {
            k - 1
        } else {
            k
        };
        assert forall|i: int| 0 <= i < k2 implies place(#[trigger] d[i]) <= place(m) by {
            assert(d[i] == t[i]);
        }
        lemma_many_upto(d, m, k2);
        if k == t.len() {
            assert(place(t[k - 1]) <= place(m));
        }
    }
}

fn middle(xs: &Vec<Float>) -> (r: Float)
    requires
        xs.len() > 0,
    ensures
        r@ == median(crate::float::all_bits(xs@)),
{
    let ghost all = crate::float::all_bits(xs@);
    let mut t: Vec<Float> = Vec::new();
    let mut i: usize = 0;
    proof {
        assert(crate::float::all_bits(t@) =~= all.take(0));
    }
    while i < xs.len()
        invariant
            i <= xs.len(),
            t.len() == i,
            all == crate::float::all_bits(xs@),
            in_order(crate::float::all_bits(t@)),
            forall|m: u64|
                #[trigger] before_count(crate::float::all_bits(t@), m) == before_count(
                    all.take(i as int),
                    m,
                ),
            forall|m: u64|
                #[trigger] upto_count(crate::float::all_bits(t@), m) == upto_count(
                    all.take(i as int),
                    m,
                ),
        decreases xs.len() - i,
    {
        let x: u64 = xs[i].bits();
        let ghost before = crate::float::all_bits(t@);
        let mut j: usize = 0;
        while j < t.len() && !place_lt(x, t[j].bits())
            invariant
                j <= t.len(),
                before == crate::float::all_bits(t@),
                forall|k: int| 0 <= k < j ==> place(#[trigger] before[k]) <= place(x),
            decreases t.len() - j,
        {
            assert(before[j as int] == t@[j as int]@);
            j = j + 1;
        }
        proof {
            if j < t.len() {
                assert(before[j as int] == t@[j as int]@);
            }
        }
        t.insert(j, xs[i].dup());
        proof {
            let after = crate::float::all_bits(t@);
            assert(after =~= before.insert(j as int, x));
            assert forall|a: int, b: int| 0 <= a <= b < after.len() implies place(#[trigger] after[a])
                <= place(#[trigger] after[b]) by {
                let a2 = if a < j { a } else { a - 1 };
                let b2 = if b < j { b } else { b - 1 };
                if a != j && b != j {
                    assert(place(before[a2]) <= place(before[b2]));
                } else if a == j && b > j {
                    assert(place(before[j as int]) <= place(before[b2]));
                } else if b == j && a < j {
                    assert(place(before[a]) <= place(x));
                }
            }
            assert(all.take(i + 1).drop_last() =~= all.take(i as int));
            assert(all.take(i + 1).last() == x);
            assert forall|m: u64| #[trigger] before_count(after, m) == before_count(
                all.take(i + 1),
                m,
            ) by {
                lemma_insert_counts(before, j as int, x, m);
                assert(before_count(before, m) == before_count(all.take(i as int), m));
            }
            assert forall|m: u64| #[trigger] upto_count(after, m) == upto_count(all.take(i + 1), m) by {
                lemma_insert_counts(before, j as int, x, m);
                assert(upto_count(before, m) == upto_count(all.take(i as int), m));
            }
        }
        i = i + 1;
    }
    let k: usize = t.len() / 2;
    let r = t[k].dup();
    proof {
        let o = crate::float::all_bits(t@);
        assert(all.take(i as int) =~= all);
        assert(o[k as int] == r@);
        lemma_few_before(o, r@, k as int);
        lemma_many_upto(o, r@, k + 1);
        assert(before_count(o, r@) == before_count(all, r@));
        assert(upto_count(o, r@) == upto_count(all, r@));
        lemma_one_median(all, r@);
    }
    r
}

impl State {
    /// The region that is split now: the most loaded one, where there is a standby to
    /// take the other half, and at least two entities to share.
    pub open spec fn split_region(self) -> Option<Seq<char>> {
        let hot = self.hottest(sorted(self.region_worker.dom()));
        if self.grid2d is Some || self.standbys.len() == 0 || self.rebalance_jobs.len() > 0 {
            None
        } else if hot is Some && self.xs_of(hot->0, sorted(self.entities.dom())).len() >= 2 {
            hot
        } else {
            None
        }
    }

    /// The state after a region was split at its middle entity: the first standby
    /// holds the upper half, the split is on its way to the log, and the entities that
    /// change sides are to be routed anew.
    pub open spec fn region_split(self, region: Seq<char>, now_ms: u64) -> State {
        let m = median(self.xs_of(region, sorted(self.entities.dom())));
        let subs = if self.splits.contains_key(region) {
            self.splits[region]
        } else {
            Seq::empty()
        };
        let s = (State { splits: self.splits.insert(region, subs.push(m)), ..self }).partition_logged();
        let new = region + "#1"@;
        let wid = self.standbys[0];
        let t = State {
            standbys: s.standbys.remove(0),
            region_worker: s.region_worker.insert(new, wid),
            region_expires: s.region_expires.insert(new, plus(now_ms, self.lease_ttl_ms)),
            ..s
        };
        t.peer_moved(wid, new).job_queued(self.past(region, m, sorted(self.entities.dom())))
    }
}

fn is_split_candidate(s: &ServerState, region: &str) -> (r: Option<Float>)
    ensures
        opt_bits(r) == if s@.is_hot(region@) {
            s@.region_load(region@)
        } else {
            None
        },
{
    let v = chars_of(region);
    let n: usize = v.len();
    let i: usize = find_char(&v, 0, n, '#');
    proof {
        assert(v@.subrange(0, n as int) =~= region@);
    }
    if i < n {
        return None;
    }
    if let Some(subs) = s.splits.get(region) {
        proof {
            assert(subs@.len() == subs.0@.len());
        }
        if subs.0.len() > 0 {
            return None;
        }
    }
    match load_at(s, region) {
        Some(l) => {
            if crate::float::bits_lt(SPLIT_HI, l.bits()) {
                Some(l)
            } else {
                None
            }
        },
        None => None,
    }
}

fn find_hottest(s: &ServerState) -> (r: Option<String>)
    ensures
        crate::text::opt_string(r) == s@.hottest(sorted(s@.region_worker.dom())),
{
    let ids = sorted_keys(&s.region_worker);
    let ghost all = texts(ids@);
    let mut best: Option<usize> = None;
    let mut top: Float = Float::zero();
    let mut i: usize = 0;
    proof {
        assert(all.take(0) =~= Seq::empty());
    }
    while i < ids.len()
        invariant
            i <= ids.len(),
            all == texts(ids@),
            match best {
                Some(b) => b < i && s@.hottest(all.take(i as int)) == Some(all[b as int])
                    && s@.region_load(all[b as int]) == Some(top@),
                None => s@.hottest(all.take(i as int)) is None,
            },
        decreases ids.len() - i,
    {
        let region = ids[i].as_str();
        proof {
            assert(all.take(i + 1).drop_last() =~= all.take(i as int));
            assert(all.take(i + 1).last() == region@);
            assert(all[i as int] == region@);
        }
        if let Some(l) = is_split_candidate(s, region) {
            if best.is_none() || !l.lt(&top) {
                best = Some(i);
                top = l;
            }
        }
        i = i + 1;
    }
    proof {
        assert(all.take(i as int) =~= all);
    }
    match best {
        Some(b) => {
            proof {
                assert(all[b as int] == ids@[b as int]@);
            }
            Some(ids[b].clone())
        },
        None => None,
    }
}

fn collect_xs(s: &ServerState, region: &str) -> (r: Vec<Float>)
    ensures
        crate::float::all_bits(r@) == s@.xs_of(region@, sorted(s@.entities.dom())),
{
    let ids = sorted_keys(&s.entities);
    let ghost all = texts(ids@);
    let mut out: Vec<Float> = Vec::new();
    let mut i: usize = 0;
    proof {
        assert(all.take(0) =~= Seq::empty());
        assert(crate::float::all_bits(out@) =~= Seq::empty());
    }
    while i < ids.len()
        invariant
            i <= ids.len(),
            all == texts(ids@),
            crate::float::all_bits(out@) == s@.xs_of(region@, all.take(i as int)),
        decreases ids.len() - i,
    {
        let eid = ids[i].as_str();
        let ghost before = crate::float::all_bits(out@);
        proof {
            assert(all.take(i + 1).drop_last() =~= all.take(i as int));
            assert(all.take(i + 1).last() == eid@);
        }
        if let Some(e) = s.entities.get(eid) {
            if str_eq(e.region.as_str(), region) {
                if let Some(x) = &e.pos.x {
                    out.push(x.dup());
                    proof {
                        assert(crate::float::all_bits(out@) =~= before.push(x@));
                    }
                }
            }
        }
        i = i + 1;
    }
    proof {
        assert(all.take(i as int) =~= all);
    }
    out
}

fn collect_past(s: &ServerState, region: &str, m: &Float) -> (r: Vec<String>)
    ensures
        texts(r@) == s@.past(region@, m@, sorted(s@.entities.dom())),
{
    let ids = sorted_keys(&s.entities);
    let ghost all = texts(ids@);
    let mut out: Vec<String> = Vec::new();
    let mut i: usize = 0;
    proof {
        assert(all.take(0) =~= Seq::empty());
        assert(texts(out@) =~= Seq::empty());
    }
    while i < ids.len()
        invariant
            i <= ids.len(),
            all == texts(ids@),
            texts(out@) == s@.past(region@, m@, all.take(i as int)),
        decreases ids.len() - i,
    {
        let eid = ids[i].as_str();
        let ghost before = texts(out@);
        proof {
            assert(all.take(i + 1).drop_last() =~= all.take(i as int));
            assert(all.take(i + 1).last() == eid@);
        }
        if let Some(e) = s.entities.get(eid) {
            if str_eq(e.region.as_str(), region) {
                if let Some(x) = &e.pos.x {
                    if !x.lt(m) {
                        out.push(ids[i].clone());
                        proof {
                            assert(texts(out@) =~= before.push(eid@));
                        }
                    }
                }
            }
        }
        i = i + 1;
    }
    proof {
        assert(all.take(i as int) =~= all);
    }
    out
}

fn move_peer(s: &mut ServerState, wid: &str, region: &str)
    ensures
        final(s)@ == old(s)@.peer_moved(wid@, region@),
{
    if let Some(mut w) = s.workers.remove(wid) {
        w.region = region.to_owned();
        s.workers.insert(wid, w);
    }
}

/// Splits the most loaded region, where there is a standby to take half of it. What
/// comes back is the region that was split.
pub fn maybe_split(s: &mut ServerState, now_ms: u64) -> (r: Option<String>)
    ensures
        crate::text::opt_string(r) == old(s)@.split_region(),
        final(s)@ == match old(s)@.split_region() {
            Some(region) => old(s)@.region_split(region, now_ms),
            None => old(s)@,
        },
{
    if s.grid2d.is_some() || s.standbys.len() == 0 || s.rebalance_jobs.len() > 0 {
        return None;
    }
    let ghost start = s@;
    proof {
        assert(start.standbys.len() == s.standbys@.len());
        assert(start.rebalance_jobs.len() == s.rebalance_jobs@.len());
    }
    let region = match find_hottest(s) {
        Some(r) => r,
        None => return None,
    };
    let xs = collect_xs(s, region.as_str());
    proof {
        assert(crate::float::all_bits(xs@).len() == xs@.len());
    }
    if xs.len() < 2 {
        return None;
    }
    let m = middle(&xs);
    let movers = collect_past(s, region.as_str(), &m);
    let ghost mb = m@;
    let mut subs: Vec<Float> = match s.splits.get(region.as_str()) {
        Some(v) => v.dup().0,
        None => Vec::new(),
    };
    let ghost had = crate::float::all_bits(subs@);
    proof {
        if !start.splits.contains_key(region@) {
            assert(had =~= Seq::empty());
        }
    }
    subs.push(m);
    let sp = Splits(subs);
    proof {
        assert(sp@ =~= had.push(mb));
    }
    s.splits.insert(region.as_str(), sp);
    wal_partition_config(s);
    let mut new_region = region.clone();
    new_region.append("#1");
    let ghost waiting = texts(s.standbys@);
    let wid = s.standbys.remove(0);
    proof {
        assert(texts(s.standbys@) =~= waiting.remove(0));
        assert(waiting[0] == wid@);
    }
    let until: u64 = now_ms.saturating_add(s.lease_ttl_ms);
    s.region_worker.insert(new_region.as_str(), wid.clone());
    s.region_expires.insert(new_region.as_str(), until);
    move_peer(s, wid.as_str(), new_region.as_str());
    queue_job(s, movers);
    Some(region)
}

/// How many entities are routed anew at once.
pub const BATCH: usize = 8;

impl State {
    /// How many of the first job's entities are routed after the next batch.
    pub open spec fn batch_end(self) -> nat {
        let (eids, cursor) = self.rebalance_jobs[0];
        if cursor + 8 <= eids.len() {
            cursor + 8
        } else {
            eids.len()
        }
    }

    /// The next entities to be routed anew.
    pub open spec fn next_batch(self) -> Seq<Seq<char>> {
        if self.rebalance_jobs.len() == 0 {
            Seq::empty()
        } else {
            let (eids, cursor) = self.rebalance_jobs[0];
            if cursor <= self.batch_end() {
                eids.subrange(cursor as int, self.batch_end() as int)
            } else {
                Seq::empty()
            }
        }
    }

    /// The state after they were handed out: a job that is done is gone.
    pub open spec fn batch_taken(self) -> State {
        if self.rebalance_jobs.len() == 0 {
            self
        } else {
            let (eids, cursor) = self.rebalance_jobs[0];
            State {
                rebalance_jobs: if self.batch_end() >= eids.len() {
                    self.rebalance_jobs.remove(0)
                } else {
                    self.rebalance_jobs.update(0, (eids, self.batch_end()))
                },
                ..self
            }
        }
    }
}

/// Hands out the next entities to be routed anew, and says whether the job goes on.
pub fn take_rebalance_batch(s: &mut ServerState) -> (r: (Vec<String>, bool))
    ensures
        texts((r.0)@) == old(s)@.next_batch(),
        final(s)@ == old(s)@.batch_taken(),
        r.1 == (old(s)@.rebalance_jobs.len() > 0 && old(s)@.batch_end()
            < (old(s)@.rebalance_jobs[0]).0.len()),
{
    let mut out: Vec<String> = Vec::new();
    proof {
        assert(texts(out@) =~= Seq::empty());
        assert(views(s.rebalance_jobs@).len() == s.rebalance_jobs@.len());
    }
    if s.rebalance_jobs.len() == 0 {
        return (out, false);
    }
    let ghost jobs = views(s.rebalance_jobs@);
    let mut job = s.rebalance_jobs.remove(0);
    proof {
        assert(jobs[0] == job@);
        assert(views(s.rebalance_jobs@) =~= jobs.remove(0));
        assert(texts(job.eids@).len() == job.eids@.len());
    }
    let n: usize = job.eids.len();
    let end: usize = if job.cursor <= n && n - job.cursor >= BATCH {
        job.cursor + BATCH
    } else {
        n
    };
    let from: usize = job.cursor;
    let mut i: usize = from;
    while i < end
        invariant
            from <= i,
            from <= end ==> i <= end <= job.eids.len(),
            from > end ==> i == from,
            out.len() == i - from,
            forall|j: int| 0 <= j < out.len() ==> (#[trigger] out@[j])@ == job.eids@[from + j]@,
        decreases end - i,
    {
        out.push(job.eids[i].clone());
        i = i + 1;
    }
    proof {
        if from <= end {
            assert(texts(out@) =~= texts(job.eids@).subrange(from as int, end as int));
        } else {
            assert(texts(out@) =~= Seq::empty());
        }
    }
    if end >= n {
        return (out, false);
    }
    let ghost rest = views(s.rebalance_jobs@);
    let ghost eids = texts(job.eids@);
    job.cursor = end;
    s.rebalance_jobs.insert(0, job);
    proof {
        assert(views(s.rebalance_jobs@) =~= rest.insert(0, (eids, end as nat)));
        assert(rest.insert(0, (eids, end as nat)) =~= jobs.update(0, (eids, end as nat)));
    }
    (out, true)
}

impl State {
    /// Where an entity is routed to now; none where it stays. `cell` is the cell of the
    /// grid that it belongs to.
    pub open spec fn route_of(self, eid: Seq<char>, cell: Seq<char>) -> Option<Seq<char>> {
        if !self.entities.contains_key(eid) {
            None
        } else {
            let e = self.entities[eid];
            if self.grid2d is Some {
                if cell != e.region {
                    Some(cell)
                } else {
                    None
                }
            } else if self.is_misplaced(e) {
                Some(moved_region(e.pos.x, e.region, self.boundaries, self.splits))
            } else {
                None
            }
        }
    }
}

/// Where an entity is routed to now; none where it stays.
pub fn re_route_one(s: &ServerState, eid: &str, cell: &str) -> (r: Option<String>)
    ensures
        crate::text::opt_string(r) == s@.route_of(eid@, cell@),
{
    let e = match s.entities.get(eid) {
        Some(e) => e,
        None => return None,
    };
    if s.grid2d.is_some() {
        if str_eq(cell, e.region.as_str()) {
            return None;
        }
        return Some(cell.to_owned());
    }
    if !is_strip_region_name(e.region.as_str(), s.boundaries.len()) {
        return None;
    }
    let next = movement_region_after(&e.pos.x, e.region.as_str(), &s.boundaries, &s.splits);
    if str_eq(next.as_str(), e.region.as_str()) {
        None
    } else {
        Some(next)
    }
}

impl State {
    /// The workers that hold a region.
    pub open spec fn holders(self) -> Set<Seq<char>> {
        Set::new(
            |w: Seq<char>|
                exists|r: Seq<char>|
                    self.region_worker.contains_key(r) && #[trigger] self.region_worker[r] == w,
        )
    }

    /// The regions that a worker holds.
    pub open spec fn blocks_of(self, w: Seq<char>) -> Set<Seq<char>> {
        Set::new(|r: Seq<char>| self.region_worker.contains_key(r) && self.region_worker[r] == w)
    }

    /// How many of some entities are in a region.
    pub open spec fn crowd(self, region: Seq<char>, names: Seq<Seq<char>>) -> nat
        decreases names.len(),
    {
        if names.len() == 0 {
            0
        } else {
            self.crowd(region, names.drop_last()) + if self.entities[names.last()].region == region {
                1nat
            } else {
                0nat
            }
        }
    }

    /// How many of some entities are in the regions of a worker.
    pub open spec fn burden(self, w: Seq<char>, names: Seq<Seq<char>>) -> nat
        decreases names.len(),
    {
        if names.len() == 0 {
            0
        } else {
            self.burden(w, names.drop_last()) + if at(
                self.region_worker,
                self.entities[names.last()].region,
            ) == Some(w) {
                1nat
            } else {
                0nat
            }
        }
    }

    /// How many entities are in a region.
    pub open spec fn crowd_of(self, region: Seq<char>) -> nat {
        self.crowd(region, sorted(self.entities.dom()))
    }

    /// How many entities are in the regions of a worker.
    pub open spec fn burden_of(self, w: Seq<char>) -> nat {
        self.burden(w, sorted(self.entities.dom()))
    }

    /// The worker with the most entities among some.
    pub open spec fn most_burdened(self, ws: Seq<Seq<char>>) -> Seq<char>
        decreases ws.len(),
    {
        if ws.len() <= 1 {
            ws[0]
        } else {
            let best = self.most_burdened(ws.drop_last());
            if self.burden_of(ws.last()) >= self.burden_of(best) {
                ws.last()
            } else {
                best
            }
        }
    }

    /// The worker with the fewest entities among some.
    pub open spec fn least_burdened(self, ws: Seq<Seq<char>>) -> Seq<char>
        decreases ws.len(),
    {
        if ws.len() <= 1 {
            ws[0]
        } else {
            let best = self.least_burdened(ws.drop_last());
            if self.burden_of(ws.last()) < self.burden_of(best) {
                ws.last()
            } else {
                best
            }
        }
    }

    /// How far the crowd in a region is from a number.
    pub open spec fn misfit(self, region: Seq<char>, target: nat) -> nat {
        if self.crowd_of(region) <= target {
            (target - self.crowd_of(region)) as nat
        } else {
            (self.crowd_of(region) - target) as nat
        }
    }

    /// The region among some whose crowd is the closest to a number.
    pub open spec fn best_fit(self, regions: Seq<Seq<char>>, target: nat) -> Seq<char>
        decreases regions.len(),
    {
        if regions.len() <= 1 {
            regions[0]
        } else {
            let best = self.best_fit(regions.drop_last(), target);
            if self.misfit(regions.last(), target) < self.misfit(best, target) {
                regions.last()
            } else {
                best
            }
        }
    }

    /// The move that evens out the grid: from the most to the least burdened worker,
    /// where the difference is large enough, of the block that makes up half of it
    /// most closely; the worker keeps at least one block.
    pub open spec fn evening_move(self) -> Option<(Seq<char>, Seq<char>, Seq<char>)> {
        let ws = sorted(self.holders());
        let hot = self.most_burdened(ws);
        let cold = self.least_burdened(ws);
        let a = self.burden_of(hot);
        let b = self.burden_of(cold);
        let blocks = sorted(self.blocks_of(hot));
        if self.grid2d is None || self.rebalance_jobs.len() > 0 || ws.len() < 2 || hot == cold || 2
            * a < 3 * b + 8 || blocks.len() < 2 {
            None
        } else {
            Some((self.best_fit(blocks, ((a - b) / 2) as nat), hot, cold))
        }
    }
}

fn count_crowd(s: &ServerState, region: &str, ids: &Vec<String>) -> (r: u64)
    requires
        texts(ids@).to_set() == s@.entities.dom(),
    ensures
        r == s@.crowd(region@, texts(ids@)),
        r <= ids.len(),
{
    let ghost all = texts(ids@);
    let mut n: u64 = 0;
    let mut i: usize = 0;
    proof {
        assert(all.take(0) =~= Seq::empty());
    }
    while i < ids.len()
        invariant
            i <= ids.len(),
            n <= i,
            all == texts(ids@),
            all.to_set() == s@.entities.dom(),
            n == s@.crowd(region@, all.take(i as int)),
        decreases ids.len() - i,
    {
        let eid = ids[i].as_str();
        proof {
            assert(all.take(i + 1).drop_last() =~= all.take(i as int));
            assert(all.take(i + 1).last() == eid@);
            assert(all[i as int] == eid@);
            assert(all.to_set().contains(eid@));
        }
        if let Some(e) = s.entities.get(eid) {
            if str_eq(e.region.as_str(), region) {
                n = n + 1;
            }
        }
        i = i + 1;
    }
    proof {
        assert(all.take(i as int) =~= all);
    }
    n
}

fn count_burden(s: &ServerState, wid: &str, ids: &Vec<String>) -> (r: u64)
    requires
        texts(ids@).to_set() == s@.entities.dom(),
    ensures
        r == s@.burden(wid@, texts(ids@)),
        r <= ids.len(),
{
    let ghost all = texts(ids@);
    let mut n: u64 = 0;
    let mut i: usize = 0;
    proof {
        assert(all.take(0) =~= Seq::empty());
    }
    while i < ids.len()
        invariant
            i <= ids.len(),
            n <= i,
            all == texts(ids@),
            all.to_set() == s@.entities.dom(),
            n == s@.burden(wid@, all.take(i as int)),
        decreases ids.len() - i,
    {
        let eid = ids[i].as_str();
        proof {
            assert(all.take(i + 1).drop_last() =~= all.take(i as int));
            assert(all.take(i + 1).last() == eid@);
            assert(all[i as int] == eid@);
            assert(all.to_set().contains(eid@));
        }
        if let Some(e) = s.entities.get(eid) {
            if let Some(w) = s.region_worker.get(e.region.as_str()) {
                if str_eq(w.as_str(), wid) {
                    n = n + 1;
                }
            }
        }
        i = i + 1;
    }
    proof {
        assert(all.take(i as int) =~= all);
    }
    n
}

fn collect_holders(s: &ServerState) -> (r: StrSet)
    ensures
        r@ == s@.holders(),
{
    let mut out = StrSet::new();
    let n: usize = s.region_worker.len();
    let ghost order = s.region_worker.order();
    let ghost m = s@.region_worker;
    let mut i: usize = 0;
    while i < n
        invariant
            i <= n == order.len(),
            order == s.region_worker.order(),
            m == s.region_worker@,
            order.to_set() == m.dom(),
            forall|w: Seq<char>|
                #[trigger] out@.contains(w) <==> exists|j: int| 0 <= j < i && m[#[trigger] order[j]] == w,
        decreases n - i,
    {
        let ghost before = out@;
        let w = s.region_worker.value_at(i);
        out.insert(w.as_str());
        i = i + 1;
        proof {
            assert forall|q: Seq<char>|
                #[trigger] out@.contains(q) <==> exists|j: int| 0 <= j < i && m[#[trigger] order[j]] == q by {
                if before.contains(q) {
                    let j = choose|j: int| 0 <= j < i - 1 && m[#[trigger] order[j]] == q;
                    assert(m[order[j]] == q);
                }
                if q == w@ {
                    assert(m[order[i - 1]] == q);
                }
                if exists|j: int| 0 <= j < i && m[#[trigger] order[j]] == q {
                    let j = choose|j: int| 0 <= j < i && m[#[trigger] order[j]] == q;
                    if j < i - 1 {
                        assert(before.contains(q));
                    }
                }
            }
        }
    }
    proof {
        assert forall|w: Seq<char>| out@.contains(w) == s@.holders().contains(w) by {
            if out@.contains(w) {
                let j = choose|j: int| 0 <= j < n && m[#[trigger] order[j]] == w;
                assert(order.to_set().contains(order[j]));
                assert(s@.region_worker[order[j]] == w);
            }
            if s@.holders().contains(w) {
                let r = choose|r: Seq<char>| m.contains_key(r) && #[trigger] m[r] == w;
                assert(order.to_set().contains(r));
                let j = choose|j: int| 0 <= j < order.len() && order[j] == r;
                assert(m[order[j]] == w);
            }
        }
        assert(out@ =~= s@.holders());
    }
    out
}

fn collect_blocks(s: &ServerState, wid: &str) -> (r: StrSet)
    ensures
        r@ == s@.blocks_of(wid@),
{
    let mut out = StrSet::new();
    let n: usize = s.region_worker.len();
    let ghost order = s.region_worker.order();
    let ghost m = s@.region_worker;
    let mut i: usize = 0;
    while i < n
        invariant
            i <= n == order.len(),
            order == s.region_worker.order(),
            m == s.region_worker@,
            forall|k: Seq<char>|
                #[trigger] out@.contains(k) <==> order.take(i as int).contains(k) && m[k] == wid@,
        decreases n - i,
    {
        let ghost seen = order.take(i as int);
        if str_eq(s.region_worker.value_at(i).as_str(), wid) {
            out.insert(s.region_worker.key_at(i));
        }
        i = i + 1;
        proof {
            assert(order.take(i as int) =~= seen.push(order[i - 1]));
            assert forall|k: Seq<char>|
                #[trigger] out@.contains(k) <==> order.take(i as int).contains(k) && m[k] == wid@ by {
                crate::json::lemma_push_contains(seen, order[i - 1], k);
            }
        }
    }
    proof {
        assert(order.take(n as int) =~= order);
        assert forall|k: Seq<char>| order.contains(k) == m.contains_key(k) by {
            assert(order.to_set().contains(k) == order.contains(k));
        }
        assert(out@ =~= s@.blocks_of(wid@));
    }
    out
}

fn pick_worker(s: &ServerState, ws: &Vec<String>, ids: &Vec<String>, most: bool) -> (r: (usize, u64))
    requires
        ws.len() > 0,
        texts(ids@) == sorted(s@.entities.dom()),
        texts(ids@).to_set() == s@.entities.dom(),
    ensures
        r.0 < ws.len(),
        texts(ws@)[r.0 as int] == if most {
            s@.most_burdened(texts(ws@))
        } else {
            s@.least_burdened(texts(ws@))
        },
        r.1 == s@.burden_of(texts(ws@)[r.0 as int]),
        r.1 <= ids.len(),
{
    let ghost all = texts(ws@);
    let mut best: usize = 0;
    let mut top: u64 = count_burden(s, ws[0].as_str(), ids);
    let mut i: usize = 1;
    proof {
        assert(all[0] == ws@[0]@);
        assert(all.take(1)[0] == all[0]);
    }
    while i < ws.len()
        invariant
            1 <= i <= ws.len(),
            best < i,
            all == texts(ws@),
            texts(ids@) == sorted(s@.entities.dom()),
            texts(ids@).to_set() == s@.entities.dom(),
            top == s@.burden_of(all[best as int]),
            top <= ids.len(),
            all[best as int] == if most {
                s@.most_burdened(all.take(i as int))
            } else {
                s@.least_burdened(all.take(i as int))
            },
        decreases ws.len() - i,
    {
        let n: u64 = count_burden(s, ws[i].as_str(), ids);
        proof {
            assert(all.take(i + 1).drop_last() =~= all.take(i as int));
            assert(all.take(i + 1).last() == ws@[i as int]@);
            assert(all[i as int] == ws@[i as int]@);
        }
        if (most && n >= top) || (!most && n < top) {
            best = i;
            top = n;
        }
        i = i + 1;
    }
    proof {
        assert(all.take(i as int) =~= all);
    }
    (best, top)
}

fn pick_block(s: &ServerState, blocks: &Vec<String>, ids: &Vec<String>, target: u64) -> (r: usize)
    requires
        blocks.len() > 0,
        texts(ids@) == sorted(s@.entities.dom()),
        texts(ids@).to_set() == s@.entities.dom(),
    ensures
        r < blocks.len(),
        texts(blocks@)[r as int] == s@.best_fit(texts(blocks@), target as nat),
{
    let ghost all = texts(blocks@);
    let mut best: usize = 0;
    let n0: u64 = count_crowd(s, blocks[0].as_str(), ids);
    let mut gap: u64 = if n0 <= target {
        target - n0
    } else {
        n0 - target
    };
    let mut i: usize = 1;
    proof {
        assert(all[0] == blocks@[0]@);
        assert(all.take(1)[0] == all[0]);
    }
    while i < blocks.len()
        invariant
            1 <= i <= blocks.len(),
            best < i,
            all == texts(blocks@),
            texts(ids@) == sorted(s@.entities.dom()),
            texts(ids@).to_set() == s@.entities.dom(),
            gap == s@.misfit(all[best as int], target as nat),
            all[best as int] == s@.best_fit(all.take(i as int), target as nat),
        decreases blocks.len() - i,
    {
        let n: u64 = count_crowd(s, blocks[i].as_str(), ids);
        let g: u64 = if n <= target {
            target - n
        } else {
            n - target
        };
        proof {
            assert(all.take(i + 1).drop_last() =~= all.take(i as int));
            assert(all.take(i + 1).last() == blocks@[i as int]@);
            assert(all[i as int] == blocks@[i as int]@);
        }
        if g < gap {
            best = i;
            gap = g;
        }
        i = i + 1;
    }
    proof {
        assert(all.take(i as int) =~= all);
    }
    best
}

proof fn lemma_burden_order(s: State, ws: Seq<Seq<char>>)
    requires
        ws.len() > 0,
    ensures
        s.least_burdened(ws) == ws[0] || ws.contains(s.least_burdened(ws)),
        forall|i: int|
            0 <= i < ws.len() ==> s.burden_of(s.least_burdened(ws)) <= #[trigger] s.burden_of(ws[i])
                <= s.burden_of(s.most_burdened(ws)),
    decreases ws.len(),
{
    if ws.len() > 1 {
        let d = ws.drop_last();
        lemma_burden_order(s, d);
        assert forall|i: int| 0 <= i < ws.len() implies s.burden_of(s.least_burdened(ws))
            <= #[trigger] s.burden_of(ws[i]) <= s.burden_of(s.most_burdened(ws)) by {
            if i < d.len() {
                assert(d[i] == ws[i]);
                assert(s.burden_of(d[i]) == s.burden_of(ws[i]));
            }
        }
        if s.least_burdened(ws) == ws.last() {
            assert(ws.contains(ws[ws.len() - 1]));
        } else if d.contains(s.least_burdened(d)) {
            let j = choose|j: int| 0 <= j < d.len() && d[j] == s.least_burdened(d);
            assert(ws[j] == d[j]);
        }
    }
}

/// Whether a migration of a block is under way.
pub open spec fn is_migrating(ms: Seq<Migration>, block: Seq<char>) -> bool {
    exists|i: int| 0 <= i < ms.len() && (#[trigger] ms[i]).block == block
}

fn migration_is_queued(s: &ServerState, block: &str) -> (r: bool)
    ensures
        r == is_migrating(s@.pending_block_migrations, block@),
{
    let ghost all = s@.pending_block_migrations;
    let mut i: usize = 0;
    while i < s.pending_block_migrations.len()
        invariant
            i <= s.pending_block_migrations.len(),
            all == views(s.pending_block_migrations@),
            forall|j: int| 0 <= j < i ==> (#[trigger] all[j]).block != block@,
        decreases s.pending_block_migrations.len() - i,
    {
        assert(all[i as int] == s.pending_block_migrations@[i as int]@);
        if str_eq(s.pending_block_migrations[i].block.as_str(), block) {
            return true;
        }
        i = i + 1;
    }
    false
}

/// An optional migration by its view.
pub open spec fn opt_migration(o: Option<PreparedBlockMigration>) -> Option<Migration> {
    match o {
        Some(m) => Some(m@),
        None => None,
    }
}

impl State {
    /// The migration that evens out the grid, where it is not under way.
    pub open spec fn evening_migration(self) -> Option<Migration> {
        match self.evening_move() {
            Some((block, hot, cold)) => if is_migrating(self.pending_block_migrations, block) {
                None
            } else {
                Some(self.migration_of(block, hot, cold))
            },
            None => None,
        }
    }
}

/// Plans the move of a block that evens out the grid. What comes out goes to the log.
pub fn rebalance_2d(s: &ServerState) -> (r: Option<PreparedBlockMigration>)
    ensures
        opt_migration(r) == s@.evening_migration(),
{
    if s.grid2d.is_none() || s.rebalance_jobs.len() > 0 {
        proof {
            assert(s@.rebalance_jobs.len() == s.rebalance_jobs@.len());
        }
        return None;
    }
    proof {
        assert(s@.rebalance_jobs.len() == s.rebalance_jobs@.len());
    }
    let set = collect_holders(s);
    let ws = sorted_texts(&set);
    proof {
        assert(texts(ws@).len() == ws@.len());
    }
    if ws.len() < 2 {
        return None;
    }
    let ids = sorted_keys(&s.entities);
    let (hi, a) = pick_worker(s, &ws, &ids, true);
    let (lo, b) = pick_worker(s, &ws, &ids, false);
    let hot = ws[hi].as_str();
    let cold = ws[lo].as_str();
    proof {
        assert(texts(ws@)[hi as int] == hot@);
        assert(texts(ws@)[lo as int] == cold@);
        lemma_burden_order(s@, texts(ws@));
        assert(s@.burden_of(texts(ws@)[lo as int]) <= s@.burden_of(s@.most_burdened(texts(ws@))));
    }
    if str_eq(hot, cold) || 2 * (a as u128) < 3 * (b as u128) + 8 {
        return None;
    }
    let held = collect_blocks(s, hot);
    let blocks = sorted_texts(&held);
    proof {
        assert(texts(blocks@).len() == blocks@.len());
    }
    if blocks.len() < 2 {
        return None;
    }
    let target: u64 = (a - b) / 2;
    let k: usize = pick_block(s, &blocks, &ids, target);
    proof {
        assert(texts(blocks@)[k as int] == blocks@[k as int]@);
    }
    if migration_is_queued(s, blocks[k].as_str()) {
        return None;
    }
    Some(prepare_block_migration(s, blocks[k].as_str(), hot, cold))
}

/// A move of a block evens out: it goes from a worker with more entities to one with
/// fewer.
pub proof fn law_blocks_go_to_the_less_burdened(s: State)
    requires
        s.evening_move() is Some,
    ensures
        ({
            let (_, hot, cold) = s.evening_move()->0;
            s.burden_of(cold) < s.burden_of(hot) && hot != cold
        }),
{
}

}

//! The partition as the log records it, and as a restart reads it back.

use vstd::prelude::*;
use crate::doc::{docs, Doc, Json, Num};
use crate::entity::succ;
use crate::float::{all_bits, opt_bits, Float};
use crate::json::{map_doc, map_json, num_or, texts_doc, AsDoc};
use crate::order::{sorted, sorted_texts};
use crate::partition::{lines, Cut, Line, Splits};
use crate::state::{log_later, ServerState, State};
use crate::strmap::{texts, Dup, StrMap, StrSet};

verus! {

broadcast use {crate::doc::group_json, crate::strmap::group_map};

/// Floats as an array.
pub open spec fn floats_doc(s: Seq<u64>) -> Doc {
    Doc::Arr(s.map_values(|b: u64| Doc::Num(Num::Float(b))))
}

/// Floats as an array.
pub fn floats_json(s: &Vec<Float>) -> (r: Json)
    ensures
        r@ == floats_doc(all_bits(s@)),
{
    let mut v: Vec<Json> = Vec::new();
    let mut i: usize = 0;
    while i < s.len()
        invariant
            i <= s.len(),
            v.len() == i,
            forall|j: int| 0 <= j < i ==> (#[trigger] v@[j])@ == Doc::Num(Num::Float(s@[j]@)),
        decreases s.len() - i,
    {
        v.push(s[i].json());
        i = i + 1;
    }
    proof {
        assert(docs(v@) =~= floats_doc(all_bits(s@))->Arr_0);
    }
    Json::Arr(v)
}

impl AsDoc for Splits {
    open spec fn doc_of(v: Seq<u64>) -> Doc {
        floats_doc(v)
    }

    fn to_json(&self) -> (r: Json) {
        floats_json(&self.0)
    }
}

impl AsDoc for Float {
    open spec fn doc_of(v: u64) -> Doc {
        Doc::Num(Num::Float(v))
    }

    fn to_json(&self) -> (r: Json) {
        self.json()
    }
}

/// The places of some cuts.
pub open spec fn places(s: Seq<Line>) -> Seq<u64> {
    s.map_values(|c: Line| c.at)
}

/// The places of some cuts.
pub fn cut_places(cuts: &Vec<Cut>) -> (r: Vec<Float>)
    ensures
        all_bits(r@) == places(lines(cuts@)),
{
    let mut v: Vec<Float> = Vec::new();
    let mut i: usize = 0;
    while i < cuts.len()
        invariant
            i <= cuts.len(),
            v.len() == i,
            forall|j: int| 0 <= j < i ==> (#[trigger] v@[j])@ == cuts@[j].at@,
        decreases cuts.len() - i,
    {
        v.push(cuts[i].at.dup());
        i = i + 1;
    }
    proof {
        assert(all_bits(v@) =~= places(lines(cuts@)));
    }
    v
}

impl State {
    /// The event that records the partition.
    pub open spec fn partition_event(self) -> Doc {
        Doc::Obj(
            map![
                "kind"@ => Doc::Str("partition_config"@),
                "version"@ => Doc::Num(Num::Pos(self.zone_topology_rev)),
                "boundary"@ => Doc::Num(Num::Float(self.boundary)),
                "boundaries"@ => floats_doc(places(self.boundaries)),
                "splits"@ => map_doc::<Splits>(self.splits),
                "mesh_regions"@ => texts_doc(sorted(self.mesh_regions))],
        )
    }

    /// The state with a new revision of the partition on its way to the log.
    pub open spec fn partition_logged(self) -> State {
        let s = State { zone_topology_rev: succ(self.zone_topology_rev), ..self };
        s.logged(s.partition_event())
    }
}

/// The event that records the partition.
pub fn partition_wal_event(s: &ServerState) -> (r: Json)
    ensures
        r@ == s@.partition_event(),
{
    let regions = sorted_texts(&s.mesh_regions);
    let places = cut_places(&s.boundaries);
    StrMap::new().with("kind", Json::str("partition_config")).with(
        "version",
        Json::u64(s.zone_topology_rev),
    ).with("boundary", s.boundary.json()).with("boundaries", floats_json(&places)).with(
        "splits",
        map_json(&s.splits),
    ).with("mesh_regions", Json::texts(&regions)).done()
}

/// Records a new revision of the partition.
pub fn wal_partition_config(s: &mut ServerState)
    ensures
        final(s)@ == old(s)@.partition_logged(),
{
    s.zone_topology_rev = s.zone_topology_rev.saturating_add(1);
    let ev = partition_wal_event(s);
    log_later(s, ev);
}

/// The numbers in an array, as floats.
pub open spec fn floats_in(s: Seq<Doc>) -> Seq<u64>
    decreases s.len(),
{
    if s.len() == 0 {
        Seq::empty()
    } else {
        match s.last().as_float() {
            Some(b) => floats_in(s.drop_last()).push(b),
            None => floats_in(s.drop_last()),
        }
    }
}

fn read_floats(v: &Vec<Json>) -> (r: Vec<Float>)
    ensures
        all_bits(r@) == floats_in(docs(v@)),
{
    let ghost all = docs(v@);
    let mut out: Vec<Float> = Vec::new();
    let mut i: usize = 0;
    proof {
        assert(all.take(0) =~= Seq::empty());
        assert(all_bits(out@) =~= Seq::empty());
    }
    while i < v.len()
        invariant
            i <= v.len(),
            all == docs(v@),
            all_bits(out@) == floats_in(all.take(i as int)),
        decreases v.len() - i,
    {
        let ghost before = all_bits(out@);
        proof {
            assert(all.take(i + 1).drop_last() =~= all.take(i as int));
            assert(all.take(i + 1).last() == v@[i as int]@);
        }
        if let Some(f) = Float::of_json(&v[i]) {
            out.push(f);
            proof {
                assert(all_bits(out@) =~= before.push(f@));
            }
        }
        i = i + 1;
    }
    proof {
        assert(all.take(i as int) =~= all);
    }
    out
}

/// The texts in an array.
pub open spec fn texts_in(s: Seq<Doc>) -> Set<Seq<char>> {
    Set::new(|t: Seq<char>| exists|i: int| 0 <= i < s.len() && (#[trigger] s[i]).as_str() == Some(t))
}

fn read_texts(v: &Vec<Json>) -> (r: StrSet)
    ensures
        r@ == texts_in(docs(v@)),
{
    let ghost all = docs(v@);
    let mut out = StrSet::new();
    let mut i: usize = 0;
    while i < v.len()
        invariant
            i <= v.len(),
            all == docs(v@),
            forall|t: Seq<char>|
                #[trigger] out@.contains(t) <==> exists|j: int|
                    0 <= j < i && (#[trigger] all[j]).as_str() == Some(t),
        decreases v.len() - i,
    {
        let ghost before = out@;
        proof {
            assert(all[i as int] == v@[i as int]@);
        }
        if let Some(t) = v[i].as_str() {
            out.insert(t);
        }
        i = i + 1;
        proof {
            assert forall|t: Seq<char>|
                #[trigger] out@.contains(t) <==> exists|j: int|
                    0 <= j < i && (#[trigger] all[j]).as_str() == Some(t) by {
                if before.contains(t) {
                    let j = choose|j: int| 0 <= j < i - 1 && (#[trigger] all[j]).as_str() == Some(t);
                    assert(all[j].as_str() == Some(t));
                }
                if all[i - 1].as_str() == Some(t) {
                    assert(out@.contains(t));
                }
                if exists|j: int| 0 <= j < i && (#[trigger] all[j]).as_str() == Some(t) {
                    let j = choose|j: int| 0 <= j < i && (#[trigger] all[j]).as_str() == Some(t);
                    if j < i - 1 {
                        assert(before.contains(t));
                    }
                }
            }
        }
    }
    proof {
        assert(out@ =~= texts_in(all));
    }
    out
}

/// The arrays of numbers among the members of an object.
pub open spec fn splits_in(m: Map<Seq<char>, Doc>) -> Map<Seq<char>, Seq<u64>> {
    Map::new(
        |k: Seq<char>| m.contains_key(k) && m[k] is Arr,
        |k: Seq<char>| floats_in(m[k]->Arr_0),
    )
}

fn read_splits(m: &StrMap<Json>) -> (r: StrMap<Splits>)
    ensures
        r@ == splits_in(m@),
{
    let mut out: StrMap<Splits> = StrMap::new();
    let n: usize = m.len();
    let ghost order = m.order();
    let mut i: usize = 0;
    while i < n
        invariant
            i <= n == order.len(),
            order == m.order(),
            forall|k: Seq<char>|
                #[trigger] out@.contains_key(k) <==> order.take(i as int).contains(k) && m@[k] is Arr,
            forall|k: Seq<char>|
                #[trigger] out@.contains_key(k) ==> m@.contains_key(k) && out@[k] == floats_in(
                    m@[k]->Arr_0,
                ),
        decreases n - i,
    {
        let ghost seen = order.take(i as int);
        if let Some(a) = m.value_at(i).as_array() {
            let v = Splits(read_floats(a));
            proof {
                assert(v@ =~= all_bits(v.0@));
            }
            out.insert(m.key_at(i), v);
        }
        i = i + 1;
        proof {
            assert(order.take(i as int) =~= seen.push(order[i - 1]));
            assert forall|k: Seq<char>|
                #[trigger] out@.contains_key(k) <==> order.take(i as int).contains(k) && m@[k] is Arr by {
                crate::json::lemma_push_contains(seen, order[i - 1], k);
            }
        }
    }
    proof {
        assert(order.take(n as int) =~= order);
        assert forall|k: Seq<char>| order.contains(k) == m@.contains_key(k) by {
            assert(order.to_set().contains(k) == order.contains(k));
        }
        assert(out@ =~= splits_in(m@));
    }
    out
}

/// A partition as a `partition_config` event records it. What the event does not
/// state is not there.
pub struct PartitionConfig {
    pub boundary: Option<Float>,
    pub boundaries: Option<Vec<Float>>,
    pub splits: Option<StrMap<Splits>>,
    pub mesh_regions: Option<StrSet>,
    pub version: u64,
}

/// A `PartitionConfig` by its views.
#[verifier::ext_equal]
pub ghost struct Config {
    pub boundary: Option<u64>,
    pub boundaries: Option<Seq<u64>>,
    pub splits: Option<Map<Seq<char>, Seq<u64>>>,
    pub mesh_regions: Option<Set<Seq<char>>>,
    pub version: u64,
}

impl View for PartitionConfig {
    type V = Config;

    open spec fn view(&self) -> Config {
        Config {
            boundary: opt_bits(self.boundary),
            boundaries: match self.boundaries {
                Some(v) => Some(all_bits(v@)),
                None => None,
            },
            splits: match self.splits {
                Some(m) => Some(m@),
                None => None,
            },
            mesh_regions: match self.mesh_regions {
                Some(m) => Some(m@),
                None => None,
            },
            version: self.version,
        }
    }
}

/// The partition that an event records.
pub open spec fn config_of(ev: Doc) -> Config {
    Config {
        boundary: match ev.get("boundary"@) {
            Some(b) => b.as_float(),
            None => None,
        },
        boundaries: match ev.get("boundaries"@) {
            Some(Doc::Arr(s)) => Some(floats_in(s)),
            _ => None,
        },
        splits: match ev.get("splits"@) {
            Some(Doc::Obj(m)) => Some(splits_in(m)),
            _ => None,
        },
        mesh_regions: match ev.get("mesh_regions"@) {
            Some(Doc::Arr(s)) => Some(texts_in(s)),
            _ => None,
        },
        version: num_or(ev.get_u64("version"@), 0),
    }
}

/// Reads the partition that an event records.
pub fn read_partition(ev: &Json) -> (r: PartitionConfig)
    ensures
        r@ == config_of(ev@),
{
    let boundary: Option<Float> = match ev.get("boundary") {
        Some(b) => Float::of_json(b),
        None => None,
    };
    let boundaries: Option<Vec<Float>> = match ev.get("boundaries") {
        Some(b) => match b.as_array() {
            Some(a) => Some(read_floats(a)),
            None => None,
        },
        None => None,
    };
    let splits: Option<StrMap<Splits>> = match ev.get("splits") {
        Some(b) => match b.as_object() {
            Some(m) => Some(read_splits(m)),
            None => None,
        },
        None => None,
    };
    let mesh_regions: Option<StrSet> = match ev.get("mesh_regions") {
        Some(b) => match b.as_array() {
            Some(a) => Some(read_texts(a)),
            None => None,
        },
        None => None,
    };
    let version: u64 = ev.u64_or("version", 0);
    PartitionConfig { boundary, boundaries, splits, mesh_regions, version }
}

impl State {
    /// Where the cuts are after a restart: as recorded, or at the one boundary where
    /// only that is recorded.
    pub open spec fn restored_places(self, c: Config) -> Seq<u64> {
        match c.boundaries {
            Some(v) => if v.len() > 0 {
                v
            } else {
                places(self.boundaries)
            },
            None => seq![
                match c.boundary {
                    Some(b) => b,
                    None => self.boundary,
                },
            ],
        }
    }

    /// The state with a recorded partition, and its cuts.
    pub open spec fn partition_restored(self, c: Config, cuts: Seq<Line>) -> State {
        State {
            boundary: match c.boundary {
                Some(b) => b,
                None => self.boundary,
            },
            boundaries: cuts,
            splits: match c.splits {
                Some(m) => m,
                None => self.splits,
            },
            mesh_regions: match c.mesh_regions {
                Some(m) => m,
                None => self.mesh_regions,
            },
            zone_topology_rev: c.version,
            ..self
        }
    }
}

/// Where the cuts are after a restart.
pub fn restored_cut_places(s: &ServerState, c: &PartitionConfig) -> (r: Vec<Float>)
    ensures
        all_bits(r@) == s@.restored_places(c@),
{
    match &c.boundaries {
        Some(v) => {
            proof {
                assert(all_bits(v@).len() == v@.len());
            }
            if v.len() > 0 {
                let mut out: Vec<Float> = Vec::new();
                let mut i: usize = 0;
                while i < v.len()
                    invariant
                        i <= v.len(),
                        out.len() == i,
                        forall|j: int| 0 <= j < i ==> (#[trigger] out@[j])@ == v@[j]@,
                    decreases v.len() - i,
                {
                    out.push(v[i].dup());
                    i = i + 1;
                }
                proof {
                    assert(all_bits(out@) =~= all_bits(v@));
                }
                out
            } else {
                cut_places(&s.boundaries)
            }
        },
        None => {
            let mut out: Vec<Float> = Vec::new();
            match &c.boundary {
                Some(b) => out.push(b.dup()),
                None => out.push(s.boundary.dup()),
            }
            proof {
                assert(all_bits(out@) =~= s@.restored_places(c@));
            }
            out
        },
    }
}

/// Restores a recorded partition. `cuts` are the cuts at the restored places, with
/// the bands around them.
pub fn restore_partition(s: &mut ServerState, c: PartitionConfig, cuts: Vec<Cut>)
    requires
        places(lines(cuts@)) == old(s)@.restored_places(c@),
    ensures
        final(s)@ == old(s)@.partition_restored(c@, lines(cuts@)),
        places(final(s)@.boundaries) == old(s)@.restored_places(c@),
{
    if let Some(b) = c.boundary {
        s.boundary = b;
    }
    s.boundaries = cuts;
    if let Some(m) = c.splits {
        s.splits = m;
    }
    if let Some(m) = c.mesh_regions {
        s.mesh_regions = m;
    }
    s.zone_topology_rev = c.version;
}

proof fn lemma_floats_in(s: Seq<u64>)
    ensures
        floats_in(floats_doc(s)->Arr_0) == s,
    decreases s.len(),
{
    let d = floats_doc(s)->Arr_0;
    if s.len() > 0 {
        lemma_floats_in(s.drop_last());
        assert(d.drop_last() =~= floats_doc(s.drop_last())->Arr_0);
        assert(s.drop_last().push(s.last()) =~= s);
    } else {
        assert(d =~= Seq::empty());
        assert(s =~= Seq::empty());
    }
}

/// A restart routes as before: the event that records a partition gives back its
/// boundary, cuts, splits, neighbours and revision.
pub proof fn law_partition_round_trip(s: State)
    requires
        s.mesh_regions.finite(),
    ensures
        config_of(s.partition_event()) == (Config {
            boundary: Some(s.boundary),
            boundaries: Some(places(s.boundaries)),
            splits: Some(s.splits),
            mesh_regions: Some(s.mesh_regions),
            version: s.zone_topology_rev,
        }),
{
    reveal_strlit("kind");
    reveal_strlit("version");
    reveal_strlit("boundary");
    reveal_strlit("boundaries");
    reveal_strlit("splits");
    reveal_strlit("mesh_regions");
    assert("kind"@.len() == 4);
    assert("version"@.len() == 7);
    assert("boundary"@.len() == 8);
    assert("boundaries"@.len() == 10);
    assert("splits"@.len() == 6);
    assert("mesh_regions"@.len() == 12);
    let ev = s.partition_event();
    lemma_floats_in(places(s.boundaries));
    let m = map_doc::<Splits>(s.splits)->Obj_0;
    assert(splits_in(m) =~= s.splits) by {
        assert forall|k: Seq<char>| s.splits.contains_key(k) implies #[trigger] splits_in(m)[k]
            == s.splits[k] by {
            lemma_floats_in(s.splits[k]);
        }
    }
    let names = sorted(s.mesh_regions);
    crate::order::lemma_sorted_of(s.mesh_regions);
    let ds = texts_doc(names)->Arr_0;
    assert(texts_in(ds) =~= s.mesh_regions) by {
        assert forall|t: Seq<char>| texts_in(ds).contains(t) == s.mesh_regions.contains(t) by {
            assert(names.to_set().contains(t) == names.contains(t));
            if texts_in(ds).contains(t) {
                let i = choose|i: int| 0 <= i < ds.len() && (#[trigger] ds[i]).as_str() == Some(t);
                assert(ds[i] == Doc::Str(names[i]));
                assert(names.contains(t));
            }
            if names.contains(t) {
                let i = choose|i: int| 0 <= i < names.len() && names[i] == t;
                assert(ds[i] == Doc::Str(t));
                assert(ds[i].as_str() == Some(t));
            }
        }
    }
}

}

//! The registry of brokers: who serves which region, where, and under which lease.

use vstd::prelude::*;
use vstd::string::*;
use crate::doc::{Doc, Json, Num};
use crate::json::num_or;
use crate::state::{ServerState, State};
use crate::strmap::StrMap;
use crate::text::{
    chars_of, find_char, find_from, parse_unsigned, pieces, split, split_range, str_eq, text_of,
    trim_range, trimmed, unsigned_value,
};

verus! {

broadcast use {crate::doc::group_json, crate::strmap::group_map};

/// Where a broker says that it serves which region, and under which lease.
pub struct Advertised {
    pub region: String,
    pub addr: String,
    pub epoch: Option<u64>,
}

/// The last position of a character; none where it does not occur.
pub open spec fn last_of(s: Seq<char>, c: char) -> Option<int>
    decreases s.len(),
{
    if s.len() == 0 {
        None
    } else if s.last() == c {
        Some(s.len() - 1)
    } else {
        last_of(s.drop_last(), c)
    }
}

/// The number that a text denotes, where a `u64` holds it.
pub open spec fn small_number(s: Seq<char>) -> Option<u64> {
    match unsigned_value(s) {
        Some(n) => if n <= u64::MAX {
            Some(n as u64)
        } else {
            None
        },
        None => None,
    }
}

/// The parts of `REGION=host:port[@epoch]`; all empty without an equals sign.
pub open spec fn advertisement(t: Seq<char>) -> (Seq<char>, Seq<char>, Option<u64>) {
    let i = find_from(t, '=', 0);
    if i < t.len() {
        let rest = t.skip(i + 1);
        match last_of(rest, '@') {
            Some(j) => (
                trimmed(t.take(i)),
                trimmed(rest.take(j)),
                small_number(trimmed(rest.skip(j + 1))),
            ),
            None => (trimmed(t.take(i)), trimmed(rest), None),
        }
    } else {
        (Seq::empty(), Seq::empty(), None)
    }
}

proof fn lemma_last_of(s: Seq<char>, c: char, j: int)
    requires
        0 <= j <= s.len(),
        forall|k: int| j <= k < s.len() ==> s[k] != c,
    ensures
        last_of(s, c) == last_of(s.take(j), c),
    decreases s.len(),
{
    if j < s.len() {
        assert(s.drop_last().take(j) =~= s.take(j));
        lemma_last_of(s.drop_last(), c, j);
    } else {
        assert(s.take(j) =~= s);
    }
}

fn read_number(v: &Vec<char>, from: usize, to: usize) -> (r: Option<u64>)
    requires
        from <= to <= v.len(),
    ensures
        r == small_number(trimmed(v@.subrange(from as int, to as int))),
{
    let (a, b) = trim_range(v, from, to);
    parse_unsigned(v, a, b, u64::MAX)
}

/// Reads `REGION=host:port[@epoch]`.
pub fn parse_advertise(t: &str) -> (r: Advertised)
    ensures
        (r.region@, r.addr@, r.epoch) == advertisement(t@),
{
    let v = chars_of(t);
    let n: usize = v.len();
    let i: usize = find_char(&v, 0, n, '=');
    proof {
        assert(v@.subrange(0, n as int) =~= t@);
    }
    if i >= n {
        let r = Advertised { region: String::new(), addr: String::new(), epoch: None };
        proof {
            assert(r.region@ =~= Seq::empty());
            assert(r.addr@ =~= Seq::empty());
        }
        return r;
    }
    let ghost rest = t@.skip(i + 1);
    proof {
        assert(v@.subrange(0, i as int) =~= t@.take(i as int));
        assert(v@.subrange(i + 1, n as int) =~= rest);
    }
    let (a, b) = trim_range(&v, 0, i);
    let region = text_of(&v, a, b);
    let mut j: usize = n;
    while j > i + 1 && v[j - 1] != '@'
        invariant
            i + 1 <= j <= n == v.len(),
            v@ == t@,
            rest == t@.skip(i + 1),
            forall|k: int| j - (i + 1) <= k < rest.len() ==> rest[k] != '@',
        decreases j,
    {
        proof {
            assert(rest[j - 1 - (i + 1)] == v@[j - 1]);
        }
        j = j - 1;
    }
    proof {
        lemma_last_of(rest, '@', j - (i + 1));
    }
    if j == i + 1 {
        proof {
            assert(rest.take(0) =~= Seq::empty());
            assert(last_of(rest, '@') is None);
        }
        let (c, d) = trim_range(&v, i + 1, n);
        return Advertised { region, addr: text_of(&v, c, d), epoch: None };
    }
    proof {
        let k = j - 1 - (i + 1);
        assert(rest.take(k + 1).last() == '@');
        assert(last_of(rest, '@') == Some(k));
        assert(v@.subrange(i + 1, j - 1) =~= rest.take(k));
        assert(v@.subrange(j as int, n as int) =~= rest.skip(k + 1));
    }
    let (c, d) = trim_range(&v, i + 1, j - 1);
    Advertised { region, addr: text_of(&v, c, d), epoch: read_number(&v, j, n) }
}

/// A neighbour in `region=addr`; none where one of the two is missing.
pub open spec fn neighbour_in(t: Seq<char>) -> Option<(Seq<char>, Seq<char>)> {
    let i = find_from(t, '=', 0);
    if i < t.len() && trimmed(t.take(i)).len() > 0 && trimmed(t.skip(i + 1)).len() > 0 {
        Some((trimmed(t.take(i)), trimmed(t.skip(i + 1))))
    } else {
        None
    }
}

/// The neighbours among some entries.
pub open spec fn neighbours_of(entries: Seq<Seq<char>>) -> Seq<(Seq<char>, Seq<char>)>
    decreases entries.len(),
{
    if entries.len() == 0 {
        Seq::empty()
    } else {
        match neighbour_in(entries.last()) {
            Some(n) => neighbours_of(entries.drop_last()).push(n),
            None => neighbours_of(entries.drop_last()),
        }
    }
}

/// A neighbour: its region, and where its broker is.
pub struct Neighbour {
    pub region: String,
    pub addr: String,
}

impl View for Neighbour {
    type V = (Seq<char>, Seq<char>);

    open spec fn view(&self) -> (Seq<char>, Seq<char>) {
        (self.region@, self.addr@)
    }
}

/// Reads `region=addr,region=addr,...`.
pub fn parse_mesh(spec: &str) -> (r: Vec<Neighbour>)
    ensures
        crate::state::views(r@) == neighbours_of(split(spec@, ',')),
{
    let v = chars_of(spec);
    let n: usize = v.len();
    let parts = split_range(&v, 0, n, ',');
    let ghost all = split(spec@, ',');
    let mut out: Vec<Neighbour> = Vec::new();
    let mut i: usize = 0;
    proof {
        assert(v@.subrange(0, n as int) =~= spec@);
        assert(all.take(0) =~= Seq::empty());
        assert(crate::state::views(out@) =~= Seq::empty());
    }
    while i < parts.len()
        invariant
            i <= parts.len(),
            n == v.len(),
            pieces(v@, parts@) == all,
            forall|j: int| 0 <= j < parts.len() ==> 0 <= (#[trigger] parts@[j]).0 <= parts@[j].1 <= n,
            crate::state::views(out@) == neighbours_of(all.take(i as int)),
        decreases parts.len() - i,
    {
        let ghost before = crate::state::views(out@);
        let p = parts[i];
        let ghost t = v@.subrange(p.0 as int, p.1 as int);
        proof {
            assert(all[i as int] == t);
            assert(all.take(i + 1).drop_last() =~= all.take(i as int));
            assert(all.take(i + 1).last() == t);
        }
        let k: usize = find_char(&v, p.0, p.1, '=');
        if k < p.1 {
            proof {
                assert(v@.subrange(p.0 as int, k as int) =~= t.take(k - p.0));
                assert(v@.subrange(k + 1, p.1 as int) =~= t.skip(k - p.0 + 1));
            }
            let (a, b) = trim_range(&v, p.0, k);
            let (c, d) = trim_range(&v, k + 1, p.1);
            if a < b && c < d {
                let item = Neighbour { region: text_of(&v, a, b), addr: text_of(&v, c, d) };
                out.push(item);
                proof {
                    assert(crate::state::views(out@) =~= before.push(item@));
                }
            }
        }
        i = i + 1;
    }
    proof {
        assert(all.take(i as int) =~= all);
    }
    out
}

/// The lease epoch that the registry has for a region.
pub open spec fn recorded_epoch(entries: Map<Seq<char>, Doc>, region: Seq<char>) -> Option<u64> {
    if entries.contains_key(region) {
        entries[region].get_u64("lease_epoch"@)
    } else {
        None
    }
}

/// The lease epoch that the registry has for a region.
pub fn registry_lease_epoch(entries: &StrMap<Json>, region: &str) -> (r: Option<u64>)
    ensures
        r == recorded_epoch(entries@, region@),
{
    match entries.get(region) {
        Some(e) => e.get_u64("lease_epoch"),
        None => None,
    }
}

/// The epoch of a broker's own lease: the one that it was given, or one above what the
/// registry has. Without a region there is none.
pub open spec fn own_epoch(
    region: Seq<char>,
    given: Option<u64>,
    entries: Map<Seq<char>, Doc>,
) -> u64 {
    if region.len() == 0 {
        0
    } else {
        match given {
            Some(n) => n,
            None => match recorded_epoch(entries, region) {
                Some(n) => crate::entity::succ(n),
                None => 1,
            },
        }
    }
}

/// The epoch of a broker's own lease.
pub fn own_lease_epoch(region: &str, given: Option<u64>, entries: &StrMap<Json>) -> (r: u64)
    ensures
        r == own_epoch(region@, given, entries@),
{
    if region.is_empty() {
        return 0;
    }
    match given {
        Some(n) => n,
        None => match registry_lease_epoch(entries, region) {
            Some(n) => n.saturating_add(1),
            None => 1,
        },
    }
}

/// A broker's entry in the registry.
pub open spec fn entry_doc(addr: Seq<char>, now_ms: u64, epoch: u64) -> Doc {
    Doc::Obj(
        map![
            "addr"@ => Doc::Str(addr),
            "hb_ms"@ => Doc::Num(Num::Pos(now_ms)),
            "lease_epoch"@ => Doc::Num(Num::Pos(epoch))],
    )
}

/// What a broker writes into the registry as a sign of life; nothing where a newer
/// incarnation is on record.
pub fn registry_heartbeat(
    entries: &StrMap<Json>,
    region: &str,
    addr: &str,
    now_ms: u64,
    lease_epoch: u64,
) -> (r: Option<Json>)
    ensures
        crate::json::opt_json(r) == if lease_epoch < num_or(recorded_epoch(entries@, region@), 0) {
            None
        } else {
            Some(entry_doc(addr@, now_ms, lease_epoch))
        },
{
    let current: u64 = match registry_lease_epoch(entries, region) {
        Some(n) => n,
        None => 0,
    };
    if lease_epoch < current {
        return None;
    }
    Some(
        StrMap::new().with("addr", Json::str(addr)).with("hb_ms", Json::u64(now_ms)).with(
            "lease_epoch",
            Json::u64(lease_epoch),
        ).done(),
    )
}

/// How long an entry of the registry counts without a sign of life.
pub const FRESH_MS: u64 = 5000;

/// What a broker knows of itself in the registry.
pub struct Incarnation {
    pub region: String,
    pub addr: String,
    pub epoch: u64,
}

impl State {
    /// Whether an entry shows that another incarnation has taken over.
    pub open spec fn shows_successor(self, e: Doc, addr: Seq<char>, epoch: u64) -> bool {
        &&& e.get_u64("lease_epoch"@) is Some
        &&& e.get_u64("lease_epoch"@)->0 > epoch
        &&& e.get_str("addr"@) is Some
        &&& e.get_str("addr"@)->0 != addr
    }

    /// The state after a look at an entry of the registry: a successor fences this
    /// broker; a neighbour is routed to, and its latest lease is remembered.
    pub open spec fn entry_seen(
        self,
        region: Seq<char>,
        e: Doc,
        own: Seq<char>,
        addr: Seq<char>,
        epoch: u64,
        now_ms: u64,
    ) -> State {
        if region == own {
            if self.shows_successor(e, addr, epoch) {
                State { superseded_regions: self.superseded_regions.insert(own), ..self }
            } else {
                self
            }
        } else if is_fresh_entry(e, now_ms) {
            let n = e.get_u64("lease_epoch"@);
            let known = num_or(crate::handoff::at(self.region_lease_epoch, region), 0);
            State {
                region_lease_epoch: if n is Some && n->0 > known {
                    self.region_lease_epoch.insert(region, n->0)
                } else {
                    self.region_lease_epoch
                },
                mesh_regions: self.mesh_regions.insert(region),
                ..self
            }
        } else {
            self
        }
    }
}

/// Whether an entry of the registry counts.
pub open spec fn is_fresh_entry(e: Doc, now_ms: u64) -> bool {
    now_ms - num_or(e.get_u64("hb_ms"@), 0) < FRESH_MS
}

/// Looks at an entry of the registry, and says whether its region is a neighbour's that
/// is alive.
pub fn see_registry_entry(
    s: &mut ServerState,
    region: &str,
    e: &Json,
    me: &Incarnation,
    now_ms: u64,
) -> (r: bool)
    ensures
        r == (region@ != me.region@ && is_fresh_entry(e@, now_ms)),
        final(s)@ == old(s)@.entry_seen(
            region@,
            e@,
            me.region@,
            me.addr@,
            me.epoch,
            now_ms,
        ),
{
    let hb: u64 = e.u64_or("hb_ms", 0);
    let epoch: Option<u64> = e.get_u64("lease_epoch");
    if str_eq(region, me.region.as_str()) {
        if let Some(n) = epoch {
            if let Some(addr) = e.get_str("addr") {
                if n > me.epoch && !str_eq(addr, me.addr.as_str()) {
                    s.superseded_regions.insert(region);
                }
            }
        }
        return false;
    }
    if now_ms >= hb && now_ms - hb >= FRESH_MS {
        return false;
    }
    if let Some(n) = epoch {
        let known: u64 = match s.region_lease_epoch.get(region) {
            Some(k) => *k,
            None => 0,
        };
        if n > known {
            s.region_lease_epoch.insert(region, n);
        }
    }
    s.mesh_regions.insert(region);
    true
}

/// A stale incarnation cannot take its region back: what is on record under a newer lease is
/// not overwritten, and so the registry's epoch never falls.
pub proof fn law_registry_epoch_never_falls(
    entries: Map<Seq<char>, Doc>,
    region: Seq<char>,
    addr: Seq<char>,
    now_ms: u64,
    epoch: u64,
)
    requires
        epoch >= num_or(recorded_epoch(entries, region), 0),
    ensures
        num_or(
            recorded_epoch(entries.insert(region, entry_doc(addr, now_ms, epoch)), region),
            0,
        ) >= num_or(recorded_epoch(entries, region), 0),
        recorded_epoch(entries.insert(region, entry_doc(addr, now_ms, epoch)), region) == Some(
            epoch,
        ),
{
    reveal_strlit("addr");
    reveal_strlit("hb_ms");
    reveal_strlit("lease_epoch");
    assert("addr"@.len() == 4 && "hb_ms"@.len() == 5 && "lease_epoch"@.len() == 11);
}

/// What a broker learns of a neighbour's lease only rises, and so a fenced incarnation stays
/// fenced.
pub proof fn law_known_leases_never_fall(
    s: State,
    region: Seq<char>,
    e: Doc,
    own: Seq<char>,
    addr: Seq<char>,
    epoch: u64,
    now_ms: u64,
    f: Doc,
)
    ensures
        ({
            let t = s.entry_seen(region, e, own, addr, epoch, now_ms);
            forall|r: Seq<char>| #[trigger]
                s.region_lease_epoch.contains_key(r) ==> t.region_lease_epoch.contains_key(r)
                    && t.region_lease_epoch[r] >= s.region_lease_epoch[r]
        }),
        s.is_fenced(f) ==> s.entry_seen(region, e, own, addr, epoch, now_ms).is_fenced(f),
        s.is_superseded() ==> s.entry_seen(region, e, own, addr, epoch, now_ms).is_superseded(),
{
}

}

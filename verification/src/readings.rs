//! What is read and what is reported: settings say what they are written to say, counts count
//! what there is, and the tape keeps what fits on it.

use vstd::prelude::*;
use vstd::string::*;
use crate::claims::{attributes_in, claim_in, claims_of, Claims};
use crate::doc::{json_text, Doc};
use crate::entity::Ent;
use crate::float::float_lt;
use crate::order::sorted;
use crate::partition::grid_size;
use crate::registry::{advertisement, last_of, neighbour_in, neighbours_of};
use crate::replay_tape::{sanitized, Tape};
use crate::report::{Lag, Readings};
use crate::schema::authority_hash;
use crate::state::{Hand, State};
use crate::text::{
    decimal, find_from, is_digit, is_white, law_numeral_round_trip, lemma_find_at, split, trim_end,
    trim_start, trimmed,
};
use crate::update::{spec_bound, spec_text};
use crate::wal::{count_at, kind_of, known_kinds, tally, unknown_events};

verus! {

broadcast use {crate::doc::group_json, crate::strmap::group_map};

proof fn lemma_find_none(s: Seq<char>, c: char, i: int)
    requires
        0 <= i <= s.len(),
        forall|j: int| i <= j < s.len() ==> s[j] != c,
    ensures
        find_from(s, c, i) == s.len(),
    decreases s.len() - i,
{
    if i < s.len() {
        lemma_find_none(s, c, i + 1);
    }
}

/// A list is read as it is written: what stands before the first separator is its first
/// element, and what stands behind it are the others.
pub proof fn law_lists_are_read(a: Seq<char>, b: Seq<char>, sep: char)
    requires
        !a.contains(sep),
    ensures
        split(a, sep) == seq![a],
        split(a + seq![sep] + b, sep) == seq![a] + split(b, sep),
{
    assert forall|j: int| 0 <= j < a.len() implies a[j] != sep by {
        assert(a.contains(a[j]));
    }
    lemma_find_none(a, sep, 0);
    let s = a + seq![sep] + b;
    assert(s[a.len() as int] == sep);
    assert forall|j: int| 0 <= j < a.len() implies s[j] != sep by {
        assert(s[j] == a[j]);
    }
    lemma_find_at(s, sep, 0, a.len() as int);
    assert(s.take(a.len() as int) =~= a);
    assert(s.skip(a.len() as int + 1) =~= b);
}

proof fn lemma_trim_start(s: Seq<char>)
    ensures
        ({
            let t = trim_start(s);
            let n = s.len() - t.len();
            &&& 0 <= n <= s.len()
            &&& t == s.skip(n)
            &&& forall|j: int| 0 <= j < n ==> is_white(#[trigger] s[j])
            &&& t.len() > 0 ==> !is_white(t[0])
        }),
    decreases s.len(),
{
    if s.len() > 0 && is_white(s[0]) {
        let d = s.skip(1);
        lemma_trim_start(d);
        let t = trim_start(s);
        let n = s.len() - t.len();
        assert(d.skip(n - 1) =~= s.skip(n));
        assert forall|j: int| 0 <= j < n implies is_white(#[trigger] s[j]) by {
            if j > 0 {
                assert(d[j - 1] == s[j]);
            }
        }
    } else {
        assert(s.skip(0) =~= s);
    }
}

proof fn lemma_trim_end(s: Seq<char>)
    ensures
        ({
            let t = trim_end(s);
            &&& t.len() <= s.len()
            &&& t == s.take(t.len() as int)
            &&& forall|j: int| t.len() <= j < s.len() ==> is_white(#[trigger] s[j])
            &&& t.len() > 0 ==> !is_white(t.last())
        }),
    decreases s.len(),
{
    if s.len() > 0 && is_white(s.last()) {
        let d = s.drop_last();
        lemma_trim_end(d);
        let t = trim_end(s);
        assert(d.take(t.len() as int) =~= s.take(t.len() as int));
        assert forall|j: int| t.len() <= j < s.len() implies is_white(#[trigger] s[j]) by {
            if j < d.len() {
                assert(d[j] == s[j]);
            }
        }
    } else {
        assert(s.take(s.len() as int) =~= s);
    }
}

/// A trimmed text is the text without the white space around it: nothing else is taken, and
/// none is left at its ends.
pub proof fn law_trimmed_texts(s: Seq<char>)
    ensures
        ({
            let t = trimmed(s);
            &&& t.len() > 0 ==> !is_white(t[0]) && !is_white(t.last())
            &&& exists|i: int, j: int|
                0 <= i <= j <= s.len() && t == #[trigger] s.subrange(i, j) && (forall|k: int|
                    0 <= k < i ==> is_white(#[trigger] s[k])) && (forall|k: int|
                    j <= k < s.len() ==> is_white(#[trigger] s[k]))
            &&& s.len() > 0 && !is_white(s[0]) && !is_white(s.last()) ==> t == s
        }),
{
    lemma_trim_start(s);
    let a = trim_start(s);
    lemma_trim_end(a);
    let t = trimmed(s);
    let i = s.len() - a.len();
    let j = i + t.len();
    assert(t =~= s.subrange(i, j));
    assert forall|k: int| j <= k < s.len() implies is_white(#[trigger] s[k]) by {
        assert(a[k - i] == s[k]);
    }
    if t.len() > 0 {
        assert(t[0] == a[0]);
    }
}

/// A neighbour is read from its region and its address; an entry without either is none.
pub proof fn law_neighbours_are_read(region: Seq<char>, addr: Seq<char>, entry: Seq<char>)
    requires
        !region.contains('='),
        trimmed(region) == region && region.len() > 0,
        trimmed(addr) == addr && addr.len() > 0,
        !entry.contains('='),
    ensures
        neighbour_in(region + seq!['='] + addr) == Some((region, addr)),
        neighbour_in(entry) is None,
        neighbour_in(seq!['='] + addr) is None,
{
    let t = region + seq!['='] + addr;
    assert forall|j: int| 0 <= j < region.len() implies t[j] != '=' by {
        assert(t[j] == region[j]);
        assert(region.contains(region[j]));
    }
    assert(t[region.len() as int] == '=');
    lemma_find_at(t, '=', 0, region.len() as int);
    assert(t.take(region.len() as int) =~= region);
    assert(t.skip(region.len() as int + 1) =~= addr);
    assert forall|j: int| 0 <= j < entry.len() implies entry[j] != '=' by {
        assert(entry.contains(entry[j]));
    }
    lemma_find_none(entry, '=', 0);
    let u = seq!['='] + addr;
    assert(u[0] == '=');
    lemma_find_at(u, '=', 0, 0);
    assert(u.take(0) =~= Seq::empty());
    assert(trimmed(Seq::<char>::empty()).len() == 0);
}

/// All neighbours of a list are read, in its order.
pub proof fn law_all_neighbours_are_read(
    entries: Seq<Seq<char>>,
    found: Seq<(Seq<char>, Seq<char>)>,
)
    requires
        found.len() == entries.len(),
        forall|i: int|
            0 <= i < entries.len() ==> neighbour_in(#[trigger] entries[i]) == Some(found[i]),
    ensures
        neighbours_of(entries) == found,
    decreases entries.len(),
{
    if entries.len() > 0 {
        let d = entries.drop_last();
        let g = found.drop_last();
        assert forall|i: int| 0 <= i < d.len() implies neighbour_in(#[trigger] d[i]) == Some(g[i]) by {
            assert(d[i] == entries[i]);
        }
        law_all_neighbours_are_read(d, g);
        assert(neighbour_in(entries[entries.len() - 1]) == Some(found[found.len() - 1]));
        assert(g.push(found.last()) =~= found);
    } else {
        assert(found =~= Seq::empty());
    }
}

proof fn lemma_last(s: Seq<char>, c: char, i: int)
    requires
        0 <= i < s.len(),
        s[i] == c,
        forall|j: int| i < j < s.len() ==> s[j] != c,
    ensures
        last_of(s, c) == Some(i),
    decreases s.len(),
{
    if i < s.len() - 1 {
        assert(s.last() == s[s.len() - 1]);
        let d = s.drop_last();
        assert(d[i] == s[i]);
        lemma_last(d, c, i);
    }
}

proof fn lemma_trimmed_numeral(n: nat)
    ensures
        trimmed(decimal(n)) == decimal(n),
{
    law_numeral_round_trip(n);
    let s = decimal(n);
    assert(is_digit(s[0]));
    assert(is_digit(s[s.len() - 1]));
    law_trimmed_texts(s);
}

/// What a broker advertises is read as its region, its address and its lease.
pub proof fn law_advertisements_are_read(region: Seq<char>, addr: Seq<char>, n: u64)
    requires
        !region.contains('='),
        trimmed(region) == region,
        trimmed(addr) == addr,
    ensures
        advertisement(region + seq!['='] + addr + seq!['@'] + decimal(n as nat)) == (
            region,
            addr,
            Some(n),
        ),
{
    let num = decimal(n as nat);
    let t = region + seq!['='] + addr + seq!['@'] + num;
    law_numeral_round_trip(n as nat);
    lemma_trimmed_numeral(n as nat);
    assert forall|j: int| 0 <= j < region.len() implies t[j] != '=' by {
        assert(t[j] == region[j]);
        assert(region.contains(region[j]));
    }
    assert(t[region.len() as int] == '=');
    lemma_find_at(t, '=', 0, region.len() as int);
    assert(t.take(region.len() as int) =~= region);
    let rest = t.skip(region.len() as int + 1);
    assert(rest =~= addr + seq!['@'] + num);
    let j = addr.len() as int;
    assert(rest[j] == '@');
    assert forall|k: int| j < k < rest.len() implies rest[k] != '@' by {
        assert(rest[k] == num[k - j - 1]);
        assert(is_digit(num[k - j - 1]));
    }
    lemma_last(rest, '@', j);
    assert(rest.take(j) =~= addr);
    assert(rest.skip(j + 1) =~= num);
}

/// The size of a grid is read as it is written, and none of its sides is zero.
pub proof fn law_grid_sizes_are_read(cols: nat, rows: nat)
    requires
        cols <= usize::MAX,
        rows <= usize::MAX,
    ensures
        grid_size(decimal(cols) + seq!['x'] + decimal(rows)) == if cols > 0 && rows > 0 {
            Some((cols, rows))
        } else {
            None
        },
{
    let a = decimal(cols);
    let b = decimal(rows);
    let t = a + seq!['x'] + b;
    law_numeral_round_trip(cols);
    law_numeral_round_trip(rows);
    lemma_trimmed_numeral(cols);
    lemma_trimmed_numeral(rows);
    assert forall|j: int| 0 <= j < a.len() implies t[j] != 'x' by {
        assert(t[j] == a[j]);
        assert(is_digit(a[j]));
    }
    assert(t[a.len() as int] == 'x');
    lemma_find_at(t, 'x', 0, a.len() as int);
    assert(t.take(a.len() as int) =~= a);
    assert(t.skip(a.len() as int + 1) =~= b);
}

/// A claim is read as its token, its region and its attributes.
pub proof fn law_claims_are_read(token: Seq<char>, region: Seq<char>, attrs: Seq<char>)
    requires
        !token.contains(':') && !region.contains(':'),
        trimmed(token) == token && token.len() > 0,
        trimmed(region) == region && region.len() > 0,
        trimmed(attrs) == attrs && attrs.len() > 0,
    ensures
        claim_in(token + seq![':'] + region + seq![':'] + attrs) == Some(
            (token, Claims { region, attributes: attributes_in(attrs) }),
        ),
{
    let rest = region + seq![':'] + attrs;
    let e = token + seq![':'] + rest;
    assert(token + seq![':'] + region + seq![':'] + attrs =~= e);
    lemma_ends(token);
    lemma_ends(attrs);
    assert(e[0] == token[0]);
    assert(e.last() == attrs.last());
    law_trimmed_texts(e);
    lemma_key(token, ':', rest);
    lemma_key(region, ':', attrs);
}

proof fn lemma_ends(s: Seq<char>)
    requires
        trimmed(s) == s,
        s.len() > 0,
    ensures
        !is_white(s[0]),
        !is_white(s.last()),
{
    law_trimmed_texts(s);
}

proof fn lemma_key(a: Seq<char>, c: char, b: Seq<char>)
    requires
        !a.contains(c),
    ensures
        ({
            let s = a + seq![c] + b;
            &&& find_from(s, c, 0) == a.len()
            &&& a.len() < s.len()
            &&& s.take(a.len() as int) == a
            &&& s.skip(a.len() as int + 1) == b
        }),
{
    let s = a + seq![c] + b;
    assert forall|j: int| 0 <= j < a.len() implies s[j] != c by {
        assert(s[j] == a[j]);
        assert(a.contains(a[j]));
    }
    assert(s[a.len() as int] == c);
    lemma_find_at(s, c, 0, a.len() as int);
    assert(s.take(a.len() as int) =~= a);
    assert(s.skip(a.len() as int + 1) =~= b);
}

/// All claims of a list are read; the last for a token counts.
pub proof fn law_all_claims_are_read(entries: Seq<Seq<char>>, i: int, token: Seq<char>, c: Claims)
    requires
        0 <= i < entries.len(),
        claim_in(entries[i]) == Some((token, c)),
        forall|j: int|
            i < j < entries.len() ==> (claim_in(#[trigger] entries[j]) matches Some((t, _)) ==> t
                != token),
    ensures
        claims_of(entries).contains_key(token),
        claims_of(entries)[token] == c,
    decreases entries.len(),
{
    let d = entries.drop_last();
    if i < d.len() {
        assert(d[i] == entries[i]);
        assert forall|j: int| i < j < d.len() implies (claim_in(#[trigger] d[j]) matches Some(
            (t, _),
        ) ==> t != token) by {
            assert(d[j] == entries[j]);
        }
        law_all_claims_are_read(d, i, token, c);
        let l = entries.len() - 1;
        assert(claim_in(entries[l]) matches Some((t, _)) ==> t != token);
    }
}

/// The events of a log are counted by their kinds.
pub proof fn law_kinds_are_counted(events: Seq<Doc>, kind: Seq<char>)
    requires
        events.len() < u64::MAX,
    ensures
        count_at(tally(events, false), kind) == events.filter(
            |e: Doc| kind_of(e) == kind,
        ).len(),
        !known_kinds().contains(kind) ==> count_at(tally(events, true), kind) == events.filter(
            |e: Doc| kind_of(e) == kind,
        ).len(),
        known_kinds().contains(kind) ==> !tally(events, true).contains_key(kind),
        unknown_events(events) == events.filter(
            |e: Doc| !known_kinds().contains(kind_of(e)),
        ).len(),
        events.filter(|e: Doc| kind_of(e) == kind).len() <= events.len(),
    decreases events.len(),
{
    reveal(Seq::filter);
    if events.len() > 0 {
        law_kinds_are_counted(events.drop_last(), kind);
    }
}

/// The hash of a snapshot is of who owns what: two worlds with the same entities, whose
/// positions have the same owners and epochs, have the same hash, whatever else they are.
pub proof fn law_hash_is_of_owners(a: Map<Seq<char>, Ent>, b: Map<Seq<char>, Ent>, names: Seq<Seq<char>>)
    requires
        forall|i: int|
            0 <= i < names.len() ==> {
                let x = a[#[trigger] names[i]].authority;
                let y = b[names[i]].authority;
                &&& x.contains_key("pos"@) == y.contains_key("pos"@)
                &&& x.contains_key("pos"@) ==> x["pos"@].owner == y["pos"@].owner && x["pos"@].epoch
                    == y["pos"@].epoch
            },
    ensures
        authority_hash(a, names) == authority_hash(b, names),
    decreases names.len(),
{
    if names.len() > 0 {
        let d = names.drop_last();
        assert forall|i: int| 0 <= i < d.len() implies {
            let x = a[#[trigger] d[i]].authority;
            let y = b[d[i]].authority;
            &&& x.contains_key("pos"@) == y.contains_key("pos"@)
            &&& x.contains_key("pos"@) ==> x["pos"@].owner == y["pos"@].owner && x["pos"@].epoch
                == y["pos"@].epoch
        } by {
            assert(d[i] == names[i]);
        }
        law_hash_is_of_owners(a, b, d);
        assert(names.last() == names[names.len() - 1]);
    }
}

/// The inspector is shown every region with its worker, every peer, and of the entities and
/// mirrors as many as it asked for; and the last twenty rejections, the newest first.
pub proof fn law_inspector_is_shown_what_is(
    s: State,
    f: Doc,
    g: Readings,
    lags: Map<Seq<char>, Lag>,
    i: int,
)
    requires
        s.region_worker.dom().finite(),
        s.workers.dom().finite(),
        s.entities.dom().finite(),
        s.ghosts.dom().finite(),
    ensures
        ({
            let regions = sorted(s.region_worker.dom());
            let ids = sorted(s.entities.dom());
            let rows = s.seen_rows(1000);
            let total = s.entities.dom().len() + s.ghosts.dom().len();
            let last = s.recent_rejected();
            &&& 0 <= i < regions.len() ==> {
                let z = s.zone_row(regions[i]);
                &&& z.get_str("region"@) == Some(regions[i])
                &&& z.get_str("worker"@) == Some(s.region_worker[regions[i]])
            }
            &&& rows.len() == if total <= 1000 {
                total as int
            } else {
                1000
            }
            &&& 0 <= i < ids.len() && i < 1000 ==> rows[i].get_str("entity"@) == Some(ids[i])
                && rows[i].get_str("region"@) == Some(s.entities[ids[i]].region)
                && rows[i].get("pos"@) == Some(s.entities[ids[i]].pos.doc())
            &&& last.len() <= 20
            &&& last.len() == s.rejected.len() || last.len() == 20
            &&& 0 <= i < last.len() ==> last[i] == s.rejected[s.rejected.len() - 1 - i]
        }),
{
    let ids = sorted(s.entities.dom());
    crate::order::lemma_sorted_of(s.entities.dom());
    crate::order::lemma_sorted_of(s.ghosts.dom());
    reveal_strlit("region");
    reveal_strlit("worker");
    reveal_strlit("load");
    reveal_strlit("splits");
    reveal_strlit("entity");
    reveal_strlit("pos");
    reveal_strlit("authority");
    reveal_strlit("gen");
    reveal_strlit("sim_time");
    reveal_strlit("handoff_intent");
    assert("region"@.len() == 6 && "worker"@.len() == 6 && "load"@.len() == 4 && "splits"@.len() == 6
        && "entity"@.len() == 6 && "pos"@.len() == 3 && "authority"@.len() == 9 && "gen"@.len() == 3
        && "sim_time"@.len() == 8 && "handoff_intent"@.len() == 14);
    assert("region"@[0] == 'r' && "worker"@[0] == 'w' && "splits"@[0] == 's' && "entity"@[0] == 'e'
        && "pos"@[0] == 'p' && "gen"@[0] == 'g');
    let all = ids.map_values(|k: Seq<char>| s.seen_entity(k)) + sorted(s.ghosts.dom()).map_values(
        |k: Seq<char>| s.seen_mirror(k),
    );
    if 0 <= i < ids.len() && i < 1000 {
        assert(all[i] == s.seen_entity(ids[i]));
    }
}

/// A bound is the first that is stated, of the component or among its bounds, and at least
/// zero; what is no number does not count.
pub proof fn law_bounds_are_read(spec: Doc, keys: Seq<Seq<char>>, k: Seq<char>, d: Doc, b: u64)
    requires
        keys.len() > 0,
        keys[0] == k,
    ensures
        spec.get(k) == Some(d) && d.as_float() == Some(b) && !float_lt(b, 0) ==> spec_bound(
            spec,
            keys,
        ) == Some(b),
        spec.get(k) == Some(d) && d.as_float() == Some(b) && float_lt(b, 0) ==> spec_bound(
            spec,
            keys,
        ) == Some(0u64),
        spec.get(k) is None && spec.get("bounds"@) is Some && (spec.get("bounds"@)->0).get(k)
            == Some(d) && d.as_float() == Some(b) && !float_lt(b, 0) ==> spec_bound(spec, keys)
            == Some(b),
        spec.get(k) is None && spec.get("bounds"@) is None ==> spec_bound(spec, keys) == spec_bound(
            spec,
            keys.skip(1),
        ),
        forall|t: Seq<char>|
            spec.get(k) == Some(Doc::Str(t)) && #[trigger] t.len() > 0 ==> spec_text(spec, keys)
                == Some(t),
        spec.get(k) is None && spec.get("bounds"@) is None ==> spec_text(spec, keys) == spec_text(
            spec,
            keys.skip(1),
        ),
{
}

/// The tape keeps an event while it is open and has room, without what must not be on it, and
/// else counts that it was dropped; what it has it keeps.
pub proof fn law_tape_keeps_what_fits(t: Tape, event: Doc)
    requires
        t.dropped < u64::MAX,
    ensures
        ({
            let r = t.recorded(event);
            let fits = t.open && t.lines.len() < t.capacity;
            &&& r.capacity == t.capacity && r.open == t.open
            &&& fits ==> r.lines == t.lines.push(json_text(sanitized(event))) && r.dropped == t.dropped
            &&& !fits ==> r.lines == t.lines && r.dropped == t.dropped + 1
        }),
{
}

/// What is recorded of transfers: those inside the broker that find their entity once they
/// are durable, each as it was made.
pub proof fn law_transfers_are_recorded(s: State, hands: Seq<Hand>, i: int)
    requires
        forall|j: int| 0 <= j < hands.len() ==> s.entities.contains_key((#[trigger] hands[j]).eid),
    ensures
        s.moves_here(hands).len() == hands.len(),
        0 <= i < hands.len() ==> {
            let m = s.moves_here(hands)[i];
            &&& m.eid == hands[i].eid
            &&& m.from == Some(hands[i].from)
            &&& m.to == Some(hands[i].to)
            &&& m.authority_epoch == Some(hands[i].authority_epoch)
        },
    decreases hands.len(),
{
    if hands.len() > 0 {
        let d = hands.drop_last();
        assert forall|j: int| 0 <= j < d.len() implies s.entities.contains_key(
            (#[trigger] d[j]).eid,
        ) by {
            assert(d[j] == hands[j]);
        }
        assert(s.entities.contains_key(hands[hands.len() - 1].eid));
        law_transfers_are_recorded(s, d, i);
        if 0 <= i < d.len() {
            assert(d[i] == hands[i]);
        }
    }
}

}

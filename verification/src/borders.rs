//! What borders are for: an entity is handed to the strip that it stands in once it has
//! left the band around its own, is mirrored to the neighbours that it stands near, and is
//! where its place says whatever the names of places are.

use vstd::prelude::*;
use vstd::string::*;
use crate::doc::Doc;
use crate::entity::Ent;
use crate::float::{float_lt, law_point_round_trip};
use crate::ghosts::{ghost_msg, mirror_of, Edges};
use crate::interest::{GridCell, Lookouts};
use crate::order::{lemma_sorted_of, sorted};
use crate::partition::{
    band_from, band_name, coarse, first_region, grid_cell, grid_cell_after, index_from, intended,
    is_strip, law_strip_names, moved_region, name_of_cell, name_of_strip, refined, spawned_region,
    strip_after, strip_of_name, Line,
};
use crate::state::{Sent, State};
use crate::text::{decimal, find_from, is_digit, law_numeral_round_trip, trimmed};

verus! {

broadcast use {crate::doc::group_json, crate::strmap::group_map};

/// Floats are in the order of the numbers that they stand for: of two without a sign the one
/// with the higher bits is greater, a sign turns the order round, and the two zeros are
/// equal.
pub proof fn law_float_order(a: u64, b: u64)
    requires
        a < 0x8000_0000_0000_0000,
        b < 0x8000_0000_0000_0000,
    ensures
        float_lt(a, b) == (a < b),
        float_lt((a + 0x8000_0000_0000_0000) as u64, (b + 0x8000_0000_0000_0000) as u64) == (b < a),
        float_lt((a + 0x8000_0000_0000_0000) as u64, b) == (a > 0 || b > 0),
        !float_lt(a, (b + 0x8000_0000_0000_0000) as u64),
{
}

/// Whether cuts are in order, each within the band around it.
pub open spec fn are_in_order(cuts: Seq<Line>) -> bool {
    &&& forall|i: int|
        0 <= i < cuts.len() ==> !float_lt((#[trigger] cuts[i]).at, cuts[i].down) && !float_lt(
            cuts[i].up,
            cuts[i].at,
        )
    &&& forall|i: int, j: int|
        0 <= i < j < cuts.len() ==> float_lt((#[trigger] cuts[i]).at, (#[trigger] cuts[j]).at)
}

/// Whether a place lies in a strip: not below the cut under it, and below the one above.
pub open spec fn stands_in(x: u64, j: nat, cuts: Seq<Line>) -> bool {
    &&& j <= cuts.len()
    &&& j > 0 ==> !float_lt(x, cuts[j - 1].at)
    &&& j < cuts.len() ==> float_lt(x, cuts[j as int].at)
}

proof fn lemma_index(x: u64, cuts: Seq<Line>, i: int)
    requires
        0 <= i <= cuts.len(),
        are_in_order(cuts),
        i > 0 ==> !float_lt(x, cuts[i - 1].at),
    ensures
        i <= index_from(Some(x), cuts, i) <= cuts.len(),
        stands_in(x, index_from(Some(x), cuts, i) as nat, cuts),
    decreases cuts.len() - i,
{
    if i < cuts.len() && !float_lt(x, cuts[i].at) {
        lemma_index(x, cuts, i + 1);
    }
}

proof fn lemma_one_strip(x: u64, j: nat, k: nat, cuts: Seq<Line>)
    requires
        are_in_order(cuts),
        stands_in(x, j, cuts),
        stands_in(x, k, cuts),
    ensures
        j == k,
{
    if j < k {
        if j < k - 1 {
            assert(float_lt(cuts[j as int].at, cuts[k - 1].at));
        }
    } else if k < j {
        if k < j - 1 {
            assert(float_lt(cuts[k as int].at, cuts[j - 1].at));
        }
    }
}

/// Every place lies in one strip, and a fresh entity is put into that one.
pub proof fn law_fresh_entities_are_where_they_stand(x: u64, j: nat, cuts: Seq<Line>)
    requires
        are_in_order(cuts),
        stands_in(x, j, cuts),
    ensures
        first_region(Some(x), cuts) == name_of_strip(j, cuts.len()),
        forall|k: nat| stands_in(x, k, cuts) ==> k == j,
{
    lemma_index(x, cuts, 0);
    lemma_one_strip(x, j, index_from(Some(x), cuts, 0) as nat, cuts);
    assert forall|k: nat| stands_in(x, k, cuts) implies k == j by {
        lemma_one_strip(x, j, k, cuts);
    }
}

proof fn lemma_names_differ(i: nat, j: nat, n: nat)
    requires
        i <= n,
        j <= n,
        i != j,
    ensures
        name_of_strip(i, n) != name_of_strip(j, n),
{
    law_strip_names(i, n);
    law_strip_names(j, n);
}

/// An entity crosses a border when it has left the band around it, and only then: past
/// either edge of its strip, the inner strips' too, it goes to the one strip that it stands
/// in, which is another; inside the band it stays.
pub proof fn law_crossing_a_border(x: u64, i: nat, j: nat, cuts: Seq<Line>)
    requires
        are_in_order(cuts),
        i <= cuts.len(),
        stands_in(x, j, cuts),
    ensures
        ({
            let n = cuts.len();
            let west = i > 0 && float_lt(x, cuts[i - 1].down);
            let east = i < n && !float_lt(x, cuts[i as int].up);
            let next = strip_after(Some(x), name_of_strip(i, n), cuts);
            &&& west || east ==> next == name_of_strip(j, n) && next != name_of_strip(i, n)
            &&& west ==> j < i
            &&& east ==> j > i
            &&& !west && !east ==> next == name_of_strip(i, n)
        }),
{
    let n = cuts.len();
    law_strip_names(i, n);
    law_fresh_entities_are_where_they_stand(x, j, cuts);
    if i > 0 && float_lt(x, cuts[i - 1].down) {
        assert(!float_lt(cuts[i - 1].at, cuts[i - 1].down));
        if j >= i {
            if j > i {
                assert(float_lt(cuts[i - 1].at, cuts[j - 1].at));
            }
        }
        lemma_names_differ(i, j, n);
    }
    if i < n && !float_lt(x, cuts[i as int].up) {
        assert(!float_lt(cuts[i as int].up, cuts[i as int].at));
        if j <= i {
            if j < i {
                assert(float_lt(cuts[j as int].at, cuts[i as int].at));
            }
        }
        lemma_names_differ(i, j, n);
    }
}

/// A crossing is for good: where an entity came to stand, it is handed on no further.
pub proof fn law_crossing_settles(x: u64, i: nat, cuts: Seq<Line>)
    requires
        are_in_order(cuts),
        i <= cuts.len(),
    ensures
        ({
            let next = strip_after(Some(x), name_of_strip(i, cuts.len()), cuts);
            strip_after(Some(x), next, cuts) == next
        }),
{
    lemma_index(x, cuts, 0);
    let j = index_from(Some(x), cuts, 0) as nat;
    law_crossing_a_border(x, i, j, cuts);
    law_crossing_a_border(x, j, j, cuts);
}

/// The owner of an entity is warned of the strip that its entity has entered without having
/// left the band: the next one above from the cut up to the edge of the band, the next one
/// below from under the cut down to it, and none elsewhere.
pub proof fn law_warned_of_the_next_strip(x: u64, i: nat, cuts: Seq<Line>)
    requires
        are_in_order(cuts),
        i <= cuts.len(),
    ensures
        ({
            let n = cuts.len();
            let r = intended(Some(x), name_of_strip(i, n), cuts);
            let above = i < n && !float_lt(x, cuts[i as int].at) && float_lt(x, cuts[i as int].up);
            let under = i > 0 && float_lt(x, cuts[i - 1].at) && float_lt(cuts[i - 1].down, x);
            &&& above ==> r == Some(name_of_strip(i + 1, n))
            &&& under ==> r == Some(name_of_strip((i - 1) as nat, n))
            &&& !above && !under ==> r is None
        }),
{
    let n = cuts.len();
    law_strip_names(i, n);
    lemma_no_mark(i, n);
    if 0 < i && i < n {
        assert(float_lt(cuts[i - 1].at, cuts[i as int].at));
    }
}

proof fn lemma_find_none(s: Seq<char>, c: char, i: int)
    requires
        0 <= i <= s.len(),
        forall|j: int| i <= j < s.len() ==> s[j] != c,
    ensures
        find_from(s, c, i) == s.len(),
    decreases s.len() - i,
{
    if i < s.len() {
        lemma_find_none(s, c, i + 1);
    }
}

pub proof fn lemma_find(s: Seq<char>, c: char, i: int)
    requires
        0 <= i <= s.len(),
    ensures
        i <= find_from(s, c, i) <= s.len(),
        forall|j: int| i <= j < find_from(s, c, i) ==> s[j] != c,
        find_from(s, c, i) < s.len() ==> s[find_from(s, c, i)] == c,
    decreases s.len() - i,
{
    if i < s.len() && s[i] != c {
        lemma_find(s, c, i + 1);
    }
}

/// The name of a strip is its own coarse name, and is that of a strip.
proof fn lemma_no_mark(i: nat, n: nat)
    requires
        i <= n,
    ensures
        coarse(name_of_strip(i, n)) == name_of_strip(i, n),
        is_strip(name_of_strip(i, n), n),
{
    let s = name_of_strip(i, n);
    reveal_strlit("W");
    reveal_strlit("E");
    reveal_strlit("Z");
    law_numeral_round_trip(i);
    assert("W"@ =~= seq!['W'] && "E"@ =~= seq!['E'] && "Z"@ =~= seq!['Z']);
    assert forall|j: int| 0 <= j < s.len() implies s[j] != '#' by {
        if n > 1 && j > 0 {
            assert(s[j] == decimal(i)[j - 1]);
            assert(is_digit(decimal(i)[j - 1]));
        }
    }
    lemma_find_none(s, '#', 0);
    assert(coarse(s) =~= s);
    if n > 1 {
        assert(s.skip(1) =~= decimal(i));
        assert(s[0] == 'Z');
    }
}

/// The coarse name of a region is what stands before its first mark: it has none, and the
/// name goes on behind it with the mark or not at all.
pub proof fn law_coarse_names(region: Seq<char>)
    ensures
        !coarse(region).contains('#'),
        coarse(region).is_prefix_of(region),
        coarse(region) != region ==> region[coarse(region).len() as int] == '#',
        coarse(coarse(region)) == coarse(region),
{
    lemma_find(region, '#', 0);
    let c = coarse(region);
    assert forall|j: int| 0 <= j < c.len() implies c[j] != '#' by {
        assert(c[j] == region[j]);
    }
    lemma_find_none(c, '#', 0);
    assert(coarse(c) =~= c);
    if c.len() == region.len() {
        assert(c =~= region);
    }
}

/// The bands of a region are told apart by their names, and all have its coarse name.
pub proof fn law_band_names(c: Seq<char>, i: nat, j: nat)
    requires
        !c.contains('#'),
    ensures
        coarse(band_name(c, i)) == c,
        band_name(c, i) == band_name(c, j) ==> i == j,
        band_name(c, 0) == c,
{
    reveal_strlit("#");
    assert("#"@ =~= seq!['#']);
    let a = band_name(c, i);
    let b = band_name(c, j);
    assert forall|k: int| 0 <= k < c.len() implies c[k] != '#' by {
        assert(c.contains(c[k]));
    }
    if i == 0 {
        lemma_find_none(c, '#', 0);
        assert(coarse(a) =~= c);
    } else {
        assert(a[c.len() as int] == '#');
        crate::text::lemma_find_at(a, '#', 0, c.len() as int);
        assert(coarse(a) =~= c);
    }
    law_numeral_round_trip(i);
    law_numeral_round_trip(j);
    if a == b {
        if i > 0 && j > 0 {
            assert(a.skip(c.len() as int + 1) =~= decimal(i));
            assert(b.skip(c.len() as int + 1) =~= decimal(j));
        } else if i > 0 {
            assert(a.len() > c.len());
        } else if j > 0 {
            assert(b.len() > c.len());
        }
    }
}

/// Whether a place lies in a band among splits.
pub open spec fn stands_in_band(x: u64, j: nat, subs: Seq<u64>) -> bool {
    &&& j <= subs.len()
    &&& j > 0 ==> !float_lt(x, subs[j - 1])
    &&& j < subs.len() ==> float_lt(x, subs[j as int])
}

proof fn lemma_band(x: u64, subs: Seq<u64>, i: int)
    requires
        0 <= i <= subs.len(),
        i > 0 ==> !float_lt(x, subs[i - 1]),
    ensures
        i <= band_from(Some(x), subs, i) <= subs.len(),
        stands_in_band(x, band_from(Some(x), subs, i) as nat, subs),
    decreases subs.len() - i,
{
    if i < subs.len() && !float_lt(x, subs[i]) {
        lemma_band(x, subs, i + 1);
    }
}

/// Of a region that is split, an entity is in the band that it stands in; a region that is
/// not is one band.
pub proof fn law_split_regions_by_place(
    c: Seq<char>,
    x: u64,
    j: nat,
    splits: Map<Seq<char>, Seq<u64>>,
)
    requires
        splits.contains_key(c) ==> stands_in_band(x, j, splits[c]) && crate::partition::increasing(
            splits[c],
        ),
        !splits.contains_key(c) ==> j == 0,
    ensures
        refined(c, Some(x), splits) == band_name(c, j),
{
    if splits.contains_key(c) {
        let subs = splits[c];
        lemma_band(x, subs, 0);
        let k = band_from(Some(x), subs, 0) as nat;
        if k < j {
            if k < j - 1 {
                assert(float_lt(subs[k as int], subs[j - 1]));
            }
        } else if j < k {
            if j < k - 1 {
                assert(float_lt(subs[j as int], subs[k - 1]));
            }
        }
    }
}

/// A moved entity's region, in a strip that is not split: the strip that it stands in where
/// it left its own, and else its own; a place with a name of its own is never left.
pub proof fn law_moved_regions(
    x: u64,
    i: nat,
    j: nat,
    cuts: Seq<Line>,
    place: Seq<char>,
    splits: Map<Seq<char>, Seq<u64>>,
)
    requires
        are_in_order(cuts),
        i <= cuts.len(),
        stands_in(x, j, cuts),
        splits == Map::<Seq<char>, Seq<u64>>::empty(),
        !place.contains('#'),
        !is_strip(place, cuts.len()),
    ensures
        ({
            let n = cuts.len();
            let left = (i > 0 && float_lt(x, cuts[i - 1].down)) || (i < n && !float_lt(
                x,
                cuts[i as int].up,
            ));
            &&& moved_region(Some(x), name_of_strip(i, n), cuts, splits) == if left {
                name_of_strip(j, n)
            } else {
                name_of_strip(i, n)
            }
            &&& moved_region(Some(x), place, cuts, splits) == place
        }),
{
    let n = cuts.len();
    lemma_no_mark(i, n);
    law_crossing_a_border(x, i, j, cuts);
    law_band_names(place, 0, 0);
    assert(coarse(place) == place);
}

/// A new entity is where it stands, unless it asks for a place with a name of its own:
/// asking for a strip counts for nothing.
pub proof fn law_spawned_where_it_stands(
    x: u64,
    j: nat,
    cuts: Seq<Line>,
    requested: Option<Seq<char>>,
    splits: Map<Seq<char>, Seq<u64>>,
)
    requires
        are_in_order(cuts),
        stands_in(x, j, cuts),
        splits == Map::<Seq<char>, Seq<u64>>::empty(),
    ensures
        requested is None || trimmed(requested->0).len() == 0 || is_strip(
            trimmed(requested->0),
            cuts.len(),
        ) ==> spawned_region(Some(x), requested, cuts, splits) == name_of_strip(j, cuts.len()),
        requested is Some && trimmed(requested->0).len() > 0 && !is_strip(
            trimmed(requested->0),
            cuts.len(),
        ) ==> spawned_region(Some(x), requested, cuts, splits) == coarse(trimmed(requested->0)),
{
    law_fresh_entities_are_where_they_stand(x, j, cuts);
}

/// An entity that was moved is handed over where its place says, and where it did not leave
/// its strip it is not: a part goes with its root, and other components move nothing.
pub proof fn law_moved_entities_change_zones(
    s: State,
    eid: Seq<char>,
    x: u64,
    i: nat,
    j: nat,
    comp: Seq<char>,
    cell: Seq<char>,
)
    requires
        s.entities.contains_key(eid),
        s.entities[eid].pos.x == Some(x),
        s.grid2d is None,
        s.splits == Map::<Seq<char>, Seq<u64>>::empty(),
        are_in_order(s.boundaries),
        i <= s.boundaries.len(),
        s.entities[eid].region == name_of_strip(i, s.boundaries.len()),
        stands_in(x, j, s.boundaries),
    ensures
        ({
            let n = s.boundaries.len();
            let left = (i > 0 && float_lt(x, s.boundaries[i - 1].down)) || (i < n && !float_lt(
                x,
                s.boundaries[i as int].up,
            ));
            let moves = comp == "pos"@ && !s.entities[eid].components.contains_key("parent"@)
                && left;
            s.zone_target(eid, comp, cell) == if moves {
                Some(name_of_strip(j, n))
            } else {
                None
            }
        }),
{
    let n = s.boundaries.len();
    lemma_no_mark(i, n);
    law_crossing_a_border(x, i, j, s.boundaries);
}

/// What was sent since.
pub open spec fn sent_since(s: State, t: State) -> Seq<Sent> {
    t.outbox.skip(s.outbox.len() as int)
}

/// Whether a state is another with more sent.
pub open spec fn only_sends(s: State, t: State) -> bool {
    &&& s.outbox.is_prefix_of(t.outbox)
    &&& t == (State { outbox: t.outbox, ..s })
}

/// Whether a message is the mirror of an entity that stands near the border to a neighbour's
/// strip, addressed to that strip.
pub open spec fn is_mirror_across(
    s: State,
    m: Sent,
    eid: Seq<char>,
    upper: Set<Seq<char>>,
    lower: Set<Seq<char>>,
) -> bool {
    let n = s.boundaries.len();
    &&& s.entities.contains_key(eid)
    &&& m matches Sent::Mesh { region, msg } && {
        &&& s.mesh_regions.contains(region)
        &&& !s.region_worker.contains_key(region)
        &&& s.mesh.contains(region)
        &&& msg == ghost_msg(eid, s.entities[eid], s.my_region)
        &&& exists|i: nat|
            {
                &&& strip_of_name(coarse(s.entities[eid].region), n) == Some(i)
                &&& ((upper.contains(eid) && i < n && region == #[trigger] name_of_strip(
                    (i + 1) as nat,
                    n,
                )) || (lower.contains(eid) && i > 0 && region == name_of_strip((i - 1) as nat, n)))
            }
    }
}

/// Whether a message is the mirror of some entity near a border.
pub open spec fn is_some_mirror(
    s: State,
    m: Sent,
    upper: Set<Seq<char>>,
    lower: Set<Seq<char>>,
) -> bool {
    exists|eid: Seq<char>| is_mirror_across(s, m, eid, upper, lower)
}

proof fn lemma_one_border(s: State, t: State, eid: Seq<char>, upper: Set<Seq<char>>, lower: Set<Seq<char>>)
    requires
        only_sends(s, t),
    ensures
        ({
            let u = t.border_pushed(
                eid,
                Edges { upper: upper.contains(eid), lower: lower.contains(eid) },
            );
            &&& only_sends(s, u)
            &&& t.outbox.is_prefix_of(u.outbox)
            &&& forall|k: int|
                t.outbox.len() <= k < u.outbox.len() ==> is_mirror_across(
                    s,
                    #[trigger] u.outbox[k],
                    eid,
                    upper,
                    lower,
                )
        }),
{
    let u = t.border_pushed(eid, Edges { upper: upper.contains(eid), lower: lower.contains(eid) });
    let n = s.boundaries.len();
    if s.entities.contains_key(eid) {
        match strip_of_name(coarse(s.entities[eid].region), n) {
            Some(i) => {
                assert forall|k: int| t.outbox.len() <= k < u.outbox.len() implies is_mirror_across(
                    s,
                    #[trigger] u.outbox[k],
                    eid,
                    upper,
                    lower,
                ) by {
                    let up = name_of_strip((i + 1) as nat, n);
                }
            },
            None => {},
        }
    }
}

proof fn lemma_borders(
    s: State,
    names: Seq<Seq<char>>,
    upper: Set<Seq<char>>,
    lower: Set<Seq<char>>,
)
    ensures
        ({
            let t = s.borders_pushed(names, upper, lower);
            &&& only_sends(s, t)
            &&& forall|k: int|
                s.outbox.len() <= k < t.outbox.len() ==> is_some_mirror(
                    s,
                    #[trigger] t.outbox[k],
                    upper,
                    lower,
                )
        }),
    decreases names.len(),
{
    if names.len() > 0 {
        let d = names.drop_last();
        lemma_borders(s, d, upper, lower);
        let p = s.borders_pushed(d, upper, lower);
        lemma_one_border(s, p, names.last(), upper, lower);
        let t = s.borders_pushed(names, upper, lower);
        assert forall|k: int| s.outbox.len() <= k < t.outbox.len() implies is_some_mirror(
            s,
            #[trigger] t.outbox[k],
            upper,
            lower,
        ) by {
            if k < p.outbox.len() {
                assert(t.outbox[k] == p.outbox[k]);
            } else {
                assert(is_mirror_across(s, t.outbox[k], names.last(), upper, lower));
            }
        }
    }
}

/// Neighbours see across the seam: an entity in the band around the lower border of its
/// strip is mirrored to the strip below, and one in the band around the upper border to the
/// strip above, wherever that is a neighbour's with a link, unless it is of a kind that only
/// passes or that nobody aims at. Nobody else is sent anything.
pub proof fn law_neighbours_see_across_the_seam(
    s: State,
    eid: Seq<char>,
    i: nat,
    upper: Set<Seq<char>>,
    lower: Set<Seq<char>>,
)
    requires
        s.entities.dom().finite(),
        s.entities.contains_key(eid),
        i <= s.boundaries.len(),
        coarse(s.entities[eid].region) == name_of_strip(i, s.boundaries.len()),
    ensures
        ({
            let n = s.boundaries.len();
            let t = s.borders_pushed(sorted(s.entities.dom()), upper, lower);
            let e = s.entities[eid];
            let kind = if e.components.contains_key("kind"@) {
                e.components["kind"@].as_str()
            } else {
                None
            };
            let shown = kind != Some("projectile"@) && kind != Some("wreck"@) && kind != Some(
                "economy"@,
            );
            let linked = |r: Seq<char>|
                s.mesh_regions.contains(r) && !s.region_worker.contains_key(r) && s.mesh.contains(r);
            let below = name_of_strip((i - 1) as nat, n);
            let above = name_of_strip(i + 1, n);
            &&& i > 0 && lower.contains(eid) && shown && linked(below) ==> sent_since(s, t).contains(
                Sent::Mesh { region: below, msg: ghost_msg(eid, e, s.my_region) },
            )
            &&& i < n && upper.contains(eid) && shown && linked(above) ==> sent_since(s, t).contains(
                Sent::Mesh { region: above, msg: ghost_msg(eid, e, s.my_region) },
            )
            &&& only_sends(s, t)
            &&& forall|k: int|
                0 <= k < sent_since(s, t).len() ==> is_some_mirror(
                    s,
                    #[trigger] sent_since(s, t)[k],
                    upper,
                    lower,
                )
        }),
{
    let n = s.boundaries.len();
    let ids = sorted(s.entities.dom());
    lemma_sorted_of(s.entities.dom());
    law_strip_names(i, n);
    let t = s.borders_pushed(ids, upper, lower);
    let e = s.entities[eid];
    lemma_borders(s, ids, upper, lower);
    assert(ids.to_set().contains(eid));
    let at = choose|at: int| 0 <= at < ids.len() && ids[at] == eid;
    let d = ids.take(at);
    lemma_borders(s, d, upper, lower);
    let p = s.borders_pushed(d, upper, lower);
    let u = p.border_pushed(eid, Edges { upper: upper.contains(eid), lower: lower.contains(eid) });
    let below = name_of_strip((i - 1) as nat, n);
    let above = name_of_strip(i + 1, n);
    let mb = Sent::Mesh { region: below, msg: ghost_msg(eid, e, s.my_region) };
    let ma = Sent::Mesh { region: above, msg: ghost_msg(eid, e, s.my_region) };
    lemma_one_border(s, p, eid, upper, lower);
    lemma_sent_late(s, ids, upper, lower, at);
    let kind = if e.components.contains_key("kind"@) {
        e.components["kind"@].as_str()
    } else {
        None
    };
    let shown = kind != Some("projectile"@) && kind != Some("wreck"@) && kind != Some("economy"@);
    if i < n && upper.contains(eid) && shown && s.is_remote(above) && s.mesh.contains(above) {
        assert(u.outbox[p.outbox.len() as int] == ma);
        assert(t.outbox[p.outbox.len() as int] == ma);
        assert(sent_since(s, t)[p.outbox.len() - s.outbox.len()] == ma);
    }
    if i > 0 && lower.contains(eid) && shown && s.is_remote(below) && s.mesh.contains(below) {
        assert(u.outbox.last() == mb);
        assert(t.outbox[u.outbox.len() - 1] == mb);
        assert(sent_since(s, t)[u.outbox.len() - 1 - s.outbox.len()] == mb);
    }
    assert forall|k: int| 0 <= k < sent_since(s, t).len() implies is_some_mirror(
        s,
        #[trigger] sent_since(s, t)[k],
        upper,
        lower,
    ) by {
        assert(sent_since(s, t)[k] == t.outbox[k + s.outbox.len()]);
    }
}

proof fn lemma_sent_late(
    s: State,
    names: Seq<Seq<char>>,
    upper: Set<Seq<char>>,
    lower: Set<Seq<char>>,
    at: int,
)
    requires
        0 <= at < names.len(),
    ensures
        ({
            let p = s.borders_pushed(names.take(at), upper, lower);
            p.border_pushed(
                names[at],
                Edges { upper: upper.contains(names[at]), lower: lower.contains(names[at]) },
            ).outbox.is_prefix_of(s.borders_pushed(names, upper, lower).outbox)
        }),
    decreases names.len(),
{
    let d = names.drop_last();
    let p = s.borders_pushed(d, upper, lower);
    lemma_borders(s, d, upper, lower);
    lemma_one_border(s, p, names.last(), upper, lower);
    if at < d.len() {
        assert(d.take(at) =~= names.take(at));
        lemma_sent_late(s, d, upper, lower, at);
    } else {
        assert(names.take(at) =~= d);
    }
}

/// A mirror shows the entity: the neighbour that takes it in has the entity's position,
/// velocity and components, and the region that it is in.
pub proof fn law_mirrors_show_the_entity(eid: Seq<char>, e: Ent, region: Seq<char>, now_ms: u64)
    requires
        e.pos.x is Some && e.pos.y is Some,
        e.vel.x is Some && e.vel.y is Some,
    ensures
        ({
            let f = ghost_msg(eid, e, region);
            let g = mirror_of(f, now_ms);
            &&& f.get_str("op"@) == Some("MeshGhost"@)
            &&& f.get_str("entity"@) == Some(eid)
            &&& g.pos == e.pos
            &&& g.vel == e.vel
            &&& g.components == e.components
            &&& g.owner_region == region
            &&& g.last_seen_ms == now_ms
        }),
{
    law_point_round_trip(e.pos);
    law_point_round_trip(e.vel);
    reveal_strlit("op");
    reveal_strlit("entity");
    reveal_strlit("pos");
    reveal_strlit("vel");
    reveal_strlit("components");
    reveal_strlit("owner_region");
    assert("op"@.len() == 2 && "entity"@.len() == 6 && "pos"@.len() == 3 && "vel"@.len() == 3
        && "components"@.len() == 10 && "owner_region"@.len() == 12);
    assert("pos"@[0] == 'p' && "vel"@[0] == 'v');
}

/// On a grid a place inside it is in its own cell, and one outside in the nearest at the
/// edge.
pub proof fn law_cells_of_the_grid(cell: (int, int), cols: int, rows: int, col: int, row: int)
    requires
        0 <= col < cols,
        0 <= row < rows,
        cell.0 == col || (cell.0 < 0 && col == 0) || (cell.0 >= cols && col == cols - 1),
        cell.1 == row || (cell.1 < 0 && row == 0) || (cell.1 >= rows && row == rows - 1),
    ensures
        grid_cell(cell, cols, rows) == name_of_cell(col as nat, row as nat),
{
}

/// On a grid an entity changes its column where it has left the band around it, its row where
/// it has left that, and keeps the one that it has not left; what is in no cell goes to the
/// one that it stands in.
pub proof fn law_crossing_on_the_grid(
    col: nat,
    row: nat,
    to: (nat, nat),
    left: (bool, bool),
    cols: int,
    rows: int,
    elsewhere: Seq<char>,
)
    requires
        col < cols <= i64::MAX,
        row < rows <= i64::MAX,
        to.0 < cols,
        to.1 < rows,
        crate::partition::cell_of_name(elsewhere) is None,
    ensures
        grid_cell_after(
            name_of_cell(col, row),
            (to.0 as int, to.1 as int),
            left,
            cols,
            rows,
        ) == name_of_cell(
            if left.0 {
                to.0
            } else {
                col
            },
            if left.1 {
                to.1
            } else {
                row
            },
        ),
        grid_cell_after(elsewhere, (to.0 as int, to.1 as int), left, cols, rows) == name_of_cell(
            to.0,
            to.1,
        ),
{
    crate::partition::law_cell_names(col, row);
}

/// Whether a part of an entity has to follow it into a region.
pub open spec fn has_to_follow(s: State, part: Seq<char>, root: Seq<char>, to: Seq<char>) -> bool {
    &&& s.entities.contains_key(part)
    &&& part != root
    &&& s.entities[part].components.contains_key("parent"@)
    &&& s.entities[part].components["parent"@] == Doc::Str(root)
    &&& s.entities[part].region != to
}

proof fn lemma_parts(s: State, root: Seq<char>, to: Seq<char>, names: Seq<Seq<char>>)
    ensures
        forall|k: Seq<char>| #[trigger]
            s.parts_to_move(root, to, names).contains(k) == (names.contains(k) && has_to_follow(
                s,
                k,
                root,
                to,
            )),
    decreases names.len(),
{
    let q = s.parts_to_move(root, to, names);
    if names.len() > 0 {
        let d = names.drop_last();
        let l = names.last();
        lemma_parts(s, root, to, d);
        let p = s.parts_to_move(root, to, d);
        assert(names =~= d.push(l));
        assert forall|k: Seq<char>| #[trigger] q.contains(k) == (names.contains(k) && has_to_follow(
            s,
            k,
            root,
            to,
        )) by {
            crate::json::lemma_push_contains(d, l, k);
            crate::json::lemma_push_contains(p, l, k);
        }
    } else {
        assert(forall|k: Seq<char>| !q.contains(k));
    }
}

/// An assembly stays together: when an entity is handed to a region, the parts that are to
/// follow are exactly those that name it as their parent and are elsewhere.
pub proof fn law_parts_follow_their_root(s: State, root: Seq<char>, to: Seq<char>)
    requires
        s.entities.dom().finite(),
    ensures
        forall|k: Seq<char>| #[trigger]
            s.parts_to_move(root, to, sorted(s.entities.dom())).contains(k) == has_to_follow(
                s,
                k,
                root,
                to,
            ),
{
    lemma_parts(s, root, to, sorted(s.entities.dom()));
    crate::attention::lemma_all_names(s.entities.dom());
    assert forall|k: Seq<char>| #[trigger] s.parts_to_move(
        root,
        to,
        sorted(s.entities.dom()),
    ).contains(k) == has_to_follow(s, k, root, to) by {
        assert(sorted(s.entities.dom()).contains(k) == s.entities.contains_key(k));
    }
}

/// Parts follow one by one, from the last on: the next is one that is here, elsewhere, and
/// not on its way, and goes to the same region; none is passed over that could go, and the
/// ones before it are left for later.
pub proof fn law_parts_follow_one_by_one(s: State, parts: Seq<Seq<char>>, to: Seq<char>)
    ensures
        ({
            let (left, h) = s.next_part_of(parts, to);
            let goes = |k: Seq<char>|
                s.entities.contains_key(k) && s.entities[k].region != to && !(exists|i: int|
                    0 <= i < s.pending_handoffs.len() && (#[trigger] s.pending_handoffs[i]).eid == k);
            match h {
                Some(h) => {
                    &&& left.len() < parts.len()
                    &&& left == parts.take(left.len() as int)
                    &&& h.eid == parts[left.len() as int]
                    &&& goes(h.eid)
                    &&& h.from == s.entities[h.eid].region
                    &&& h.to == to
                    &&& h.pos is None
                    &&& forall|i: int| left.len() < i < parts.len() ==> !goes(#[trigger] parts[i])
                },
                None => forall|i: int| 0 <= i < parts.len() ==> !goes(#[trigger] parts[i]),
            }
        }),
    decreases parts.len(),
{
    if parts.len() > 0 {
        let d = parts.drop_last();
        let c = parts.last();
        law_parts_follow_one_by_one(s, d, to);
        let goes = |k: Seq<char>|
            s.entities.contains_key(k) && s.entities[k].region != to && !(exists|i: int|
                0 <= i < s.pending_handoffs.len() && (#[trigger] s.pending_handoffs[i]).eid == k);
        let (left, h) = s.next_part_of(parts, to);
        if goes(c) {
            assert(d =~= parts.take(d.len() as int));
        } else {
            assert(s.next_part_of(parts, to) == s.next_part_of(d, to));
            assert forall|i: int| 0 <= i < d.len() implies parts[i] == d[i] by {}
            if h is Some {
                assert(left =~= parts.take(left.len() as int));
            }
            assert(parts[parts.len() - 1] == c);
        }
    }
}

/// A broker that is drained sends everything off: each entity once, to a neighbour with a
/// link; to the one that its place belongs to where there is a link to that, and else to the
/// first.
pub proof fn law_drained_of_everything(s: State, eid: Seq<char>)
    requires
        s.entities.dom().finite(),
        s.mesh.finite(),
        s.mesh.len() > 0,
        s.entities.contains_key(eid),
    ensures
        ({
            let q = s.drain_list();
            let e = s.entities[eid];
            let own = first_region(e.pos.x, s.boundaries);
            &&& q.contains((eid, s.drain_target(eid)))
            &&& q.len() == s.entities.dom().len()
            &&& forall|i: int, j: int|
                0 <= i < j < q.len() ==> (#[trigger] q[i]).0 != (#[trigger] q[j]).0
            &&& s.mesh.contains(s.drain_target(eid))
            &&& is_strip(coarse(e.region), s.boundaries.len()) && own != e.region && s.mesh.contains(
                own,
            ) ==> s.drain_target(eid) == own
            &&& !(is_strip(coarse(e.region), s.boundaries.len()) && own != e.region
                && s.mesh.contains(own)) ==> s.drain_target(eid) == sorted(s.mesh)[0]
        }),
{
    let ids = sorted(s.entities.dom());
    crate::attention::lemma_all_names(s.entities.dom());
    lemma_sorted_of(s.entities.dom());
    crate::attention::lemma_all_names(s.mesh);
    lemma_sorted_of(s.mesh);
    let q = s.drain_list();
    assert(ids.contains(eid));
    let i = choose|i: int| 0 <= i < ids.len() && ids[i] == eid;
    assert(q[i] == (eid, s.drain_target(eid)));
    assert(s.mesh.contains(sorted(s.mesh)[0]));
}

/// Who is looked at when an entity moves: whoever looks everywhere, whose area has the cell
/// that it is in now, or whose area had the one that it was last told of from; and nobody
/// else. A peer's area is the last that it asked for.
pub proof fn law_who_is_looked_at(
    g: Lookouts,
    wid: Seq<char>,
    other: Seq<char>,
    cells: Seq<GridCell>,
    eid: Seq<char>,
    from: GridCell,
    to: GridCell,
)
    requires
        cells.len() > 0,
        wid != other,
    ensures
        ({
            let t = g.settled(eid, from).with_area(wid, Some(cells), false);
            let q = t.candidates(t.last_cell(eid), to);
            &&& q.contains(wid) == (cells.contains(from) || cells.contains(to))
            &&& q.contains(other) == (g.global.contains(other) || (g.cells.contains_key(other) && (
            g.cells[other].contains(from) || g.cells[other].contains(to))))
            &&& !g.with_area(wid, None, false).candidates(Some(from), to).contains(wid)
            &&& g.with_area(wid, None, true).candidates(Some(from), to).contains(wid)
            &&& !g.forgotten(eid).last.contains_key(eid)
        }),
{
}

/// The owner of an entity that is about to enter another region is warned, where that region
/// has a worker, of that region and worker; an entity that was handed over, or went back, has
/// no warning out.
pub proof fn law_owners_are_warned(
    s: State,
    eid: Seq<char>,
    source: Seq<char>,
    target: Seq<char>,
    w: Seq<char>,
)
    requires
        s.entities.contains_key(eid),
        s.entities[eid].authority.contains_key("pos"@),
        s.entities[eid].authority["pos"@].owner == Some(w),
        s.workers.contains_key(w),
        s.region_worker.contains_key(target),
        !s.pending_handoff_intent.contains_key(eid),
    ensures
        ({
            let t = s.loss_warned(eid, source, target);
            &&& t.entities == s.entities
            &&& t.pending_handoff_intent.contains_key(eid)
            &&& t.pending_handoff_intent[eid].target_region == target
            &&& t.pending_handoff_intent[eid].target_worker == s.region_worker[target]
            &&& t.pending_handoff_intent[eid].source_worker == w
            &&& t.outbox.len() == s.outbox.len() + 1
            &&& t.outbox.last() matches Sent::Peer { wid, msg } && wid == w && msg.get_str(
                "entity"@,
            ) == Some(eid) && msg.get_str("state"@) == Some("AUTHORITY_LOSS_IMMINENT"@)
                && msg.get_str("handoff_target"@) == Some(s.region_worker[target]) && msg.get_str(
                "handoff_target_region"@,
            ) == Some(target)
        }),
{
    reveal_strlit("op");
    reveal_strlit("entity");
    reveal_strlit("comp");
    reveal_strlit("authoritative");
    reveal_strlit("state");
    reveal_strlit("authority_epoch");
    reveal_strlit("mode");
    reveal_strlit("handoff_target");
    reveal_strlit("handoff_target_region");
    assert("op"@.len() == 2 && "entity"@.len() == 6 && "comp"@.len() == 4 && "authoritative"@.len()
        == 13 && "state"@.len() == 5 && "authority_epoch"@.len() == 15 && "mode"@.len() == 4
        && "handoff_target"@.len() == 14 && "handoff_target_region"@.len() == 21);
}

/// An entity is placed by where it stands: one that left its strip has no warning out, one in
/// a band has its owner warned of the next strip, and one away from every band has its
/// warning withdrawn.
pub proof fn law_placing_an_entity(s: State, eid: Seq<char>, x: u64, i: nat, cell: Seq<char>)
    requires
        s.entities.contains_key(eid),
        !s.entities[eid].components.contains_key("parent"@),
        s.entities[eid].pos.x == Some(x),
        s.grid2d is None,
        s.splits == Map::<Seq<char>, Seq<u64>>::empty(),
        are_in_order(s.boundaries),
        i <= s.boundaries.len(),
        s.entities[eid].region == name_of_strip(i, s.boundaries.len()),
    ensures
        ({
            let n = s.boundaries.len();
            let b = s.boundaries;
            let t = s.zoned(eid, "pos"@, cell);
            let left = (i > 0 && float_lt(x, b[i - 1].down)) || (i < n && !float_lt(
                x,
                b[i as int].up,
            ));
            let above = i < n && !float_lt(x, b[i as int].at) && float_lt(x, b[i as int].up);
            let under = i > 0 && float_lt(x, b[i - 1].at) && float_lt(b[i - 1].down, x);
            &&& t.entities == s.entities
            &&& left || (!above && !under) ==> t == (State {
                pending_handoff_intent: s.pending_handoff_intent.remove(eid),
                ..s
            })
            &&& !left && above ==> t == s.loss_warned(
                eid,
                name_of_strip(i, n),
                name_of_strip(i + 1, n),
            )
            &&& !left && under ==> t == s.loss_warned(
                eid,
                name_of_strip(i, n),
                name_of_strip((i - 1) as nat, n),
            )
        }),
{
    let n = s.boundaries.len();
    lemma_no_mark(i, n);
    lemma_index(x, s.boundaries, 0);
    let j = index_from(Some(x), s.boundaries, 0) as nat;
    law_crossing_a_border(x, i, j, s.boundaries);
    law_warned_of_the_next_strip(x, i, s.boundaries);
    if 0 < i && i < n {
        assert(float_lt(s.boundaries[i - 1].at, s.boundaries[i as int].at));
    }
}

}

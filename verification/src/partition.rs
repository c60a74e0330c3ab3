//! Where things belong: strips along the x axis, their names, and their splits.

use vstd::prelude::*;
use vstd::string::*;
use crate::float::{all_bits, float_lt, opt_bits, rank, Float};
use crate::strmap::{Dup, StrMap};
use crate::text::{
    all_digits, chars_of, decimal, find_char, find_from, is_digit, law_numeral_round_trip,
    lemma_find_at, opt_text, parse_signed, parse_unsigned, parse_usize, signed_value, str_eq,
    text_of, trim, trimmed, u64_text, unsigned_value,
};

verus! {

/// A line between two strips, and the edges of the band around it: crossing counts
/// only past the far edge.
pub struct Cut {
    pub at: Float,
    /// The edge above.
    pub up: Float,
    /// The edge below.
    pub down: Float,
}

/// A `Cut` by its bits.
pub ghost struct Line {
    pub at: u64,
    pub up: u64,
    pub down: u64,
}

impl View for Cut {
    type V = Line;

    open spec fn view(&self) -> Line {
        Line { at: self.at@, up: self.up@, down: self.down@ }
    }
}

impl Dup for Cut {
    fn dup(&self) -> (r: Cut) {
        Cut { at: self.at.dup(), up: self.up.dup(), down: self.down.dup() }
    }
}

/// Some cuts by their bits.
pub open spec fn lines(s: Seq<Cut>) -> Seq<Line> {
    s.map_values(|c: Cut| c@)
}

/// Whether a coordinate is at `b` or above it.
pub open spec fn reaches(x: Option<u64>, b: u64) -> bool {
    x is Some && !float_lt(x->0, b)
}

/// Whether a coordinate is below `b`.
pub open spec fn below(x: Option<u64>, b: u64) -> bool {
    x is Some && float_lt(x->0, b)
}

fn is_at_least(x: &Option<Float>, b: &Float) -> (r: bool)
    ensures
        r == reaches(opt_bits(*x), b@),
{
    match x {
        Some(f) => !f.lt(b),
        None => false,
    }
}

fn is_below(x: &Option<Float>, b: &Float) -> (r: bool)
    ensures
        r == below(opt_bits(*x), b@),
{
    match x {
        Some(f) => f.lt(b),
        None => false,
    }
}

/// How many of the cuts, from the first on, `x` has reached.
pub open spec fn index_from(x: Option<u64>, cuts: Seq<Line>, i: int) -> int
    decreases cuts.len() - i,
{
    if 0 <= i < cuts.len() && reaches(x, cuts[i].at) {
        index_from(x, cuts, i + 1)
    } else {
        i
    }
}

/// The strip that `x` falls into.
pub fn strip_index(x: &Option<Float>, cuts: &Vec<Cut>) -> (r: usize)
    ensures
        r == index_from(opt_bits(*x), lines(cuts@), 0),
        r <= cuts.len(),
{
    let mut i: usize = 0;
    while i < cuts.len()
        invariant
            i <= cuts.len(),
            index_from(opt_bits(*x), lines(cuts@), i as int) == index_from(
                opt_bits(*x),
                lines(cuts@),
                0,
            ),
        decreases cuts.len() - i,
    {
        assert(lines(cuts@)[i as int] == cuts@[i as int]@);
        if !is_at_least(x, &cuts[i].at) {
            return i;
        }
        i = i + 1;
    }
    i
}

/// The name of strip `idx` among `n` cuts: with one cut west and east, with none
/// east alone, and numbers with more.
pub open spec fn name_of_strip(idx: nat, n: nat) -> Seq<char> {
    if n <= 1 {
        if idx == 0 && n > 0 {
            "W"@
        } else {
            "E"@
        }
    } else {
        "Z"@ + decimal(idx)
    }
}

/// The name of strip `idx` among `n` cuts.
pub fn strip_name(idx: usize, n: usize) -> (r: String)
    ensures
        r@ == name_of_strip(idx as nat, n as nat),
{
    if n <= 1 {
        if idx == 0 && n > 0 {
            "W".to_owned()
        } else {
            "E".to_owned()
        }
    } else {
        let mut s = "Z".to_owned();
        s.append(u64_text(idx as u64).as_str());
        s
    }
}

/// The number after a leading `Z`.
pub open spec fn zone_number(name: Seq<char>) -> Option<nat> {
    if name.len() > 0 && name[0] == 'Z' {
        unsigned_value(name.skip(1))
    } else {
        None
    }
}

/// The strip that a name denotes among `n` cuts.
pub open spec fn strip_of_name(name: Seq<char>, n: nat) -> Option<nat> {
    if name == "W"@ {
        Some(0nat)
    } else if name == "E"@ {
        Some(n)
    } else {
        match zone_number(name) {
            Some(i) => if i <= n {
                Some(i)
            } else {
                None
            },
            None => None,
        }
    }
}

/// An optional index as a number.
pub open spec fn opt_nat(o: Option<usize>) -> Option<nat> {
    match o {
        Some(i) => Some(i as nat),
        None => None,
    }
}

/// The strip that a name denotes among `n` cuts.
pub fn strip_index_of_name(name: &str, n: usize) -> (r: Option<usize>)
    ensures
        opt_nat(r) == strip_of_name(name@, n as nat),
{
    if str_eq(name, "W") {
        return Some(0);
    }
    if str_eq(name, "E") {
        return Some(n);
    }
    let v = chars_of(name);
    let len: usize = v.len();
    if len == 0 || v[0] != 'Z' {
        return None;
    }
    proof {
        assert(v@.subrange(1, len as int) =~= name@.skip(1));
    }
    match parse_unsigned(&v, 1, len, n as u64) {
        Some(i) => Some(i as usize),
        None => None,
    }
}

/// A strip's name denotes the strip, for every strip that the cuts make.
pub proof fn law_strip_names(idx: nat, n: nat)
    requires
        idx <= n,
    ensures
        strip_of_name(name_of_strip(idx, n), n) == Some(idx),
{
    reveal_strlit("W");
    reveal_strlit("E");
    reveal_strlit("Z");
    let s = name_of_strip(idx, n);
    assert("W"@[0] == 'W' && "E"@[0] == 'E' && "Z"@[0] == 'Z');
    if n > 1 {
        law_numeral_round_trip(idx);
        assert(s[0] == 'Z');
        assert(s.skip(1) =~= decimal(idx));
    }
}

/// The part of a region's name before a split's number.
pub open spec fn coarse(region: Seq<char>) -> Seq<char> {
    region.take(find_from(region, '#', 0))
}

/// The part of a region's name before a split's number.
pub fn coarse_region(region: &str) -> (r: String)
    ensures
        r@ == coarse(region@),
{
    let v = chars_of(region);
    let n: usize = v.len();
    let i: usize = find_char(&v, 0, n, '#');
    proof {
        assert(v@.subrange(0, n as int) =~= v@);
        assert(v@.subrange(0, i as int) =~= region@.take(i as int));
    }
    text_of(&v, 0, i)
}

/// Whether a region is a strip among `n` cuts, and not a place with a name of its
/// own. With at most one cut only `W` and `E` are; with several, `Z` and the digits of a
/// strip's number.
pub open spec fn is_strip(region: Seq<char>, n: nat) -> bool {
    let c = coarse(region);
    if n <= 1 {
        c == "W"@ || c == "E"@
    } else {
        &&& c.len() > 1
        &&& c[0] == 'Z'
        &&& all_digits(c.skip(1))
        &&& zone_number(c) is Some
        &&& zone_number(c)->0 <= n
    }
}

/// Whether a region is a strip among `n` cuts.
pub fn is_strip_region_name(region: &str, n: usize) -> (r: bool)
    ensures
        r == is_strip(region@, n as nat),
{
    let c = coarse_region(region);
    if n <= 1 {
        return str_eq(c.as_str(), "W") || str_eq(c.as_str(), "E");
    }
    let v = chars_of(c.as_str());
    let len: usize = v.len();
    if len <= 1 || v[0] != 'Z' {
        return false;
    }
    proof {
        assert(v@.subrange(1, len as int) =~= c@.skip(1));
    }
    let first = v[1];
    proof {
        assert(c@.skip(1)[0] == first);
    }
    if first == '+' {
        assert(!is_digit(c@.skip(1)[0]));
        return false;
    }
    parse_unsigned(&v, 1, len, n as u64).is_some()
}

/// The splits of the coarse regions, by their bits.
pub struct Splits(pub Vec<Float>);

impl View for Splits {
    type V = Seq<u64>;

    open spec fn view(&self) -> Seq<u64> {
        self.0@.map_values(|f: Float| f@)
    }
}

impl Dup for Splits {
    fn dup(&self) -> (r: Splits) {
        let mut v: Vec<Float> = Vec::new();
        let mut i: usize = 0;
        while i < self.0.len()
            invariant
                i <= self.0.len(),
                v.len() == i,
                forall|j: int| 0 <= j < i ==> (#[trigger] v@[j])@ == self.0@[j]@,
            decreases self.0.len() - i,
        {
            v.push(self.0[i].dup());
            i = i + 1;
        }
        let r = Splits(v);
        proof {
            assert(r@ =~= self@);
        }
        r
    }
}

/// The band among splits that `x` falls into: the first split above it.
pub open spec fn band_from(x: Option<u64>, subs: Seq<u64>, i: int) -> int
    decreases subs.len() - i,
{
    if 0 <= i < subs.len() && !below(x, subs[i]) {
        band_from(x, subs, i + 1)
    } else {
        i
    }
}

/// The name of a band of a region: the first keeps the region's name.
pub open spec fn band_name(coarse: Seq<char>, i: nat) -> Seq<char> {
    if i == 0 {
        coarse
    } else {
        coarse + "#"@ + decimal(i)
    }
}

/// The band of a coarse region that `x` falls into.
pub open spec fn refined(
    coarse: Seq<char>,
    x: Option<u64>,
    splits: Map<Seq<char>, Seq<u64>>,
) -> Seq<char> {
    if splits.contains_key(coarse) && splits[coarse].len() > 0 {
        band_name(coarse, band_from(x, splits[coarse], 0) as nat)
    } else {
        coarse
    }
}

/// The band of a coarse region that `x` falls into.
pub fn refine_region(coarse: &str, x: &Option<Float>, splits: &StrMap<Splits>) -> (r: String)
    ensures
        r@ == refined(coarse@, opt_bits(*x), splits@),
{
    match splits.get(coarse) {
        None => coarse.to_owned(),
        Some(subs) => {
            let mut i: usize = 0;
            if subs.0.len() == 0 {
                return coarse.to_owned();
            }
            while i < subs.0.len() && !is_below(x, &subs.0[i])
                invariant
                    i <= subs.0.len(),
                    band_from(opt_bits(*x), subs@, i as int) == band_from(
                        opt_bits(*x),
                        subs@,
                        0,
                    ),
                decreases subs.0.len() - i,
            {
                assert(subs@[i as int] == subs.0@[i as int]@);
                i = i + 1;
            }
            proof {
                if i < subs.0.len() {
                    assert(subs@[i as int] == subs.0@[i as int]@);
                }
            }
            let mut s = coarse.to_owned();
            if i > 0 {
                s.append("#");
                s.append(u64_text(i as u64).as_str());
            }
            s
        },
    }
}

/// The strip that a fresh `x` falls into.
pub open spec fn first_region(x: Option<u64>, cuts: Seq<Line>) -> Seq<char> {
    name_of_strip(index_from(x, cuts, 0) as nat, cuts.len())
}

/// The strip that a fresh `x` falls into.
pub fn initial_region(x: &Option<Float>, cuts: &Vec<Cut>) -> (r: String)
    ensures
        r@ == first_region(opt_bits(*x), lines(cuts@)),
{
    strip_name(strip_index(x, cuts), cuts.len())
}

/// Whether `x` has left strip `i` for good: it is past the far edge of the band
/// around one of the strip's two cuts.
pub open spec fn has_left(x: Option<u64>, i: nat, cuts: Seq<Line>) -> bool {
    ||| i < cuts.len() && reaches(x, cuts[i as int].up)
    ||| 0 < i <= cuts.len() && below(x, cuts[i - 1].down)
}

/// The strip after a move to `x`: another only once `x` has left the current one.
pub open spec fn strip_after(x: Option<u64>, current: Seq<char>, cuts: Seq<Line>) -> Seq<char> {
    match strip_of_name(current, cuts.len()) {
        Some(i) => if has_left(x, i, cuts) {
            first_region(x, cuts)
        } else {
            current
        },
        None => current,
    }
}

/// The strip after a move to `x`.
pub fn region_after(x: &Option<Float>, current: &str, cuts: &Vec<Cut>) -> (r: String)
    ensures
        r@ == strip_after(opt_bits(*x), current@, lines(cuts@)),
{
    match strip_index_of_name(current, cuts.len()) {
        None => current.to_owned(),
        Some(i) => {
            proof {
                if i < cuts.len() {
                    assert(lines(cuts@)[i as int] == cuts@[i as int]@);
                }
                if 0 < i <= cuts.len() {
                    assert(lines(cuts@)[i - 1] == cuts@[i - 1]@);
                }
            }
            if i < cuts.len() && is_at_least(x, &cuts[i].up) {
                return initial_region(x, cuts);
            }
            if i > 0 && i <= cuts.len() && is_below(x, &cuts[i - 1].down) {
                return initial_region(x, cuts);
            }
            current.to_owned()
        },
    }
}

/// The region after a move to `x`: strips by their cuts, places with a name of
/// their own unmoved, and both by their splits.
pub open spec fn moved_region(
    x: Option<u64>,
    current: Seq<char>,
    cuts: Seq<Line>,
    splits: Map<Seq<char>, Seq<u64>>,
) -> Seq<char> {
    let c = coarse(current);
    let next = if is_strip(c, cuts.len()) {
        strip_after(x, c, cuts)
    } else {
        c
    };
    refined(next, x, splits)
}

/// The region after a move to `x`.
pub fn movement_region_after(
    x: &Option<Float>,
    current: &str,
    cuts: &Vec<Cut>,
    splits: &StrMap<Splits>,
) -> (r: String)
    ensures
        r@ == moved_region(opt_bits(*x), current@, lines(cuts@), splits@),
{
    let c = coarse_region(current);
    let next = if is_strip_region_name(c.as_str(), cuts.len()) {
        region_after(x, c.as_str(), cuts)
    } else {
        c
    };
    refine_region(next.as_str(), x, splits)
}

/// The region of a new entity: a place with a name of its own where it asks for
/// one, and else the strip of its position.
pub open spec fn spawned_region(
    x: Option<u64>,
    requested: Option<Seq<char>>,
    cuts: Seq<Line>,
    splits: Map<Seq<char>, Seq<u64>>,
) -> Seq<char> {
    match requested {
        Some(r) => if trimmed(r).len() > 0 && !is_strip(trimmed(r), cuts.len()) {
            refined(coarse(trimmed(r)), x, splits)
        } else {
            refined(first_region(x, cuts), x, splits)
        },
        None => refined(first_region(x, cuts), x, splits),
    }
}

/// The region of a new entity.
pub fn spawn_region(
    x: &Option<Float>,
    requested: Option<&str>,
    cuts: &Vec<Cut>,
    splits: &StrMap<Splits>,
) -> (r: String)
    ensures
        r@ == spawned_region(opt_bits(*x), opt_text(requested), lines(cuts@), splits@),
{
    if let Some(r) = requested {
        let t = trim(r);
        if !t.as_str().is_empty() && !is_strip_region_name(t.as_str(), cuts.len()) {
            let c = coarse_region(t.as_str());
            return refine_region(c.as_str(), x, splits);
        }
    }
    let first = initial_region(x, cuts);
    refine_region(first.as_str(), x, splits)
}

/// The strip that an entity in the band around a cut is about to enter.
pub open spec fn intended(x: Option<u64>, current: Seq<char>, cuts: Seq<Line>) -> Option<Seq<char>> {
    match strip_of_name(coarse(current), cuts.len()) {
        Some(i) => if i < cuts.len() && reaches(x, cuts[i as int].at) && below(
            x,
            cuts[i as int].up,
        ) {
            Some(name_of_strip((i + 1) as nat, cuts.len()))
        } else if 0 < i <= cuts.len() && below(x, cuts[i - 1].at) && x is Some && float_lt(
            cuts[i - 1].down,
            x->0,
        ) {
            Some(name_of_strip((i - 1) as nat, cuts.len()))
        } else {
            None
        },
        None => None,
    }
}

/// The strip that an entity in the band around a cut is about to enter.
pub fn seam_intent_target(x: &Option<Float>, current: &str, cuts: &Vec<Cut>) -> (r: Option<String>)
    ensures
        crate::text::opt_string(r) == intended(opt_bits(*x), current@, lines(cuts@)),
{
    let c = coarse_region(current);
    match strip_index_of_name(c.as_str(), cuts.len()) {
        None => None,
        Some(i) => {
            proof {
                if i < cuts.len() {
                    assert(lines(cuts@)[i as int] == cuts@[i as int]@);
                }
                if 0 < i <= cuts.len() {
                    assert(lines(cuts@)[i - 1] == cuts@[i - 1]@);
                }
            }
            if i < cuts.len() && is_at_least(x, &cuts[i].at) && is_below(x, &cuts[i].up) {
                return Some(strip_name(i + 1, cuts.len()));
            }
            if i > 0 && i <= cuts.len() && is_below(x, &cuts[i - 1].at) {
                if let Some(f) = x {
                    if cuts[i - 1].down.lt(f) {
                        return Some(strip_name(i - 1, cuts.len()));
                    }
                }
            }
            None
        },
    }
}

/// No flapping: an entity that is about to enter the next strip is still in its
/// own, whatever band it stands in.
pub proof fn law_intent_is_no_move(x: Option<u64>, current: Seq<char>, cuts: Seq<Line>)
    requires
        intended(x, current, cuts) is Some,
        forall|i: int|
            0 <= i < cuts.len() ==> !float_lt((#[trigger] cuts[i]).at, cuts[i].down) && !float_lt(
                cuts[i].up,
                cuts[i].at,
            ),
        forall|i: int, j: int|
            0 <= i < j < cuts.len() ==> float_lt((#[trigger] cuts[i]).at, (#[trigger] cuts[j]).at),
    ensures
        strip_after(x, coarse(current), cuts) == coarse(current),
{
    let i = strip_of_name(coarse(current), cuts.len())->0;
    if i < cuts.len() && 0 < i {
        assert(float_lt(cuts[i - 1].at, cuts[i as int].at));
        assert(!float_lt(cuts[i - 1].at, cuts[i - 1].down));
        assert(!float_lt(cuts[i as int].up, cuts[i as int].at));
    }
}

/// The two numbers of a grid cell's name `Z<col>_<row>`.
pub open spec fn cell_of_name(name: Seq<char>) -> Option<(int, int)> {
    if name.len() > 0 && name[0] == 'Z' {
        let s = name.skip(1);
        let i = find_from(s, '_', 0);
        if i < s.len() {
            match (signed_value(s.take(i)), signed_value(s.skip(i + 1))) {
                (Some(a), Some(b)) => if i64::MIN <= a <= i64::MAX && i64::MIN <= b <= i64::MAX {
                    Some((a, b))
                } else {
                    None
                },
                _ => None,
            }
        } else {
            None
        }
    } else {
        None
    }
}

/// An optional cell as numbers.
pub open spec fn opt_cell(o: Option<(i64, i64)>) -> Option<(int, int)> {
    match o {
        Some((a, b)) => Some((a as int, b as int)),
        None => None,
    }
}

/// The two numbers of a grid cell's name.
pub fn parse_grid_cell(name: &str) -> (r: Option<(i64, i64)>)
    ensures
        opt_cell(r) == cell_of_name(name@),
{
    let v = chars_of(name);
    let n: usize = v.len();
    if n == 0 || v[0] != 'Z' {
        return None;
    }
    let i: usize = find_char(&v, 1, n, '_');
    proof {
        assert(v@.subrange(1, n as int) =~= name@.skip(1));
        assert(name@.skip(1).take(i - 1) =~= v@.subrange(1, i as int));
    }
    if i >= n {
        return None;
    }
    proof {
        assert(name@.skip(1).skip(i as int) =~= v@.subrange(i + 1, n as int));
    }
    match parse_signed(&v, 1, i) {
        Some(a) => match parse_signed(&v, i + 1, n) {
            Some(b) => Some((a, b)),
            None => None,
        },
        None => None,
    }
}

/// A number kept between 0 and `n - 1`.
pub open spec fn kept_within(i: int, n: int) -> int {
    if i < 0 {
        0
    } else if i > n - 1 {
        n - 1
    } else {
        i
    }
}

fn keep_within(i: i64, n: usize) -> (r: u64)
    requires
        0 < n <= i64::MAX,
    ensures
        r == kept_within(i as int, n as int),
{
    if i < 0 {
        0
    } else if i as u64 > n as u64 - 1 {
        n as u64 - 1
    } else {
        i as u64
    }
}

/// The name of a grid cell.
pub open spec fn name_of_cell(col: nat, row: nat) -> Seq<char> {
    "Z"@ + decimal(col) + "_"@ + decimal(row)
}

fn cell_name(col: u64, row: u64) -> (r: String)
    ensures
        r@ == name_of_cell(col as nat, row as nat),
{
    let mut s = "Z".to_owned();
    s.append(u64_text(col).as_str());
    s.append("_");
    s.append(u64_text(row).as_str());
    s
}

/// The cell of the grid at a column and a row, or the nearest at its edge.
pub open spec fn grid_cell(cell: (int, int), cols: int, rows: int) -> Seq<char> {
    name_of_cell(kept_within(cell.0, cols) as nat, kept_within(cell.1, rows) as nat)
}

/// The cell that a position lies in, which the caller gives by column and row.
pub fn region_2d(cell: (i64, i64), cols: usize, rows: usize) -> (r: String)
    requires
        0 < cols <= i64::MAX,
        0 < rows <= i64::MAX,
    ensures
        r@ == grid_cell((cell.0 as int, cell.1 as int), cols as int, rows as int),
{
    cell_name(keep_within(cell.0, cols), keep_within(cell.1, rows))
}

/// The cell after a move: along each axis another only once the position has left
/// the band around the current one. From a place that is no cell it is the cell that
/// the position lies in.
pub open spec fn grid_cell_after(
    current: Seq<char>,
    cell: (int, int),
    left: (bool, bool),
    cols: int,
    rows: int,
) -> Seq<char> {
    match cell_of_name(current) {
        Some((x, y)) => grid_cell(
            (
                if left.0 {
                    cell.0
                } else {
                    x
                },
                if left.1 {
                    cell.1
                } else {
                    y
                },
            ),
            cols,
            rows,
        ),
        None => grid_cell(cell, cols, rows),
    }
}

/// The cell after a move. `cell` is the column and row that the position lies in, and
/// `left` says for each axis whether it has left the band around the current cell.
pub fn region_2d_after(
    current: &str,
    cell: (i64, i64),
    left: (bool, bool),
    cols: usize,
    rows: usize,
) -> (r: String)
    requires
        0 < cols <= i64::MAX,
        0 < rows <= i64::MAX,
    ensures
        r@ == grid_cell_after(
            current@,
            (cell.0 as int, cell.1 as int),
            left,
            cols as int,
            rows as int,
        ),
{
    match parse_grid_cell(current) {
        Some((x, y)) => {
            let cx: i64 = if left.0 {
                cell.0
            } else {
                x
            };
            let cy: i64 = if left.1 {
                cell.1
            } else {
                y
            };
            region_2d((cx, cy), cols, rows)
        },
        None => region_2d(cell, cols, rows),
    }
}

/// A cell's name denotes the cell.
pub proof fn law_cell_names(col: nat, row: nat)
    requires
        col <= i64::MAX,
        row <= i64::MAX,
    ensures
        cell_of_name(name_of_cell(col, row)) == Some((col as int, row as int)),
{
    reveal_strlit("Z");
    reveal_strlit("_");
    let a = decimal(col);
    let b = decimal(row);
    let name = name_of_cell(col, row);
    law_numeral_round_trip(col);
    law_numeral_round_trip(row);
    assert("Z"@[0] == 'Z' && "_"@[0] == '_');
    assert("Z"@.len() == 1 && "_"@.len() == 1);
    let s = name.skip(1);
    assert(s =~= a + "_"@ + b);
    assert forall|j: int| 0 <= j < a.len() implies s[j] != '_' by {
        assert(s[j] == a[j]);
        assert(is_digit(a[j]));
    }
    assert(s[a.len() as int] == '_');
    lemma_find_at(s, '_', 0, a.len() as int);
    assert(s.take(a.len() as int) =~= a);
    assert(s.skip(a.len() as int + 1) =~= b);
    assert(is_digit(a[0]) && is_digit(b[0]));
}

/// With nothing left behind an entity stays where it is: inside the band around its
/// cell it is not handed on.
pub proof fn law_grid_does_not_flap(
    col: nat,
    row: nat,
    cell: (int, int),
    cols: int,
    rows: int,
)
    requires
        col < cols <= i64::MAX,
        row < rows <= i64::MAX,
    ensures
        grid_cell_after(name_of_cell(col, row), cell, (false, false), cols, rows) == name_of_cell(
            col,
            row,
        ),
{
    law_cell_names(col, row);
}

/// The two numbers of a grid's size `<cols>x<rows>`; neither is zero.
pub open spec fn grid_size(spec: Seq<char>) -> Option<(nat, nat)> {
    let i = find_from(spec, 'x', 0);
    if i < spec.len() {
        match (unsigned_value(trimmed(spec.take(i))), unsigned_value(trimmed(spec.skip(i + 1)))) {
            (Some(c), Some(r)) => if 0 < c <= usize::MAX && 0 < r <= usize::MAX {
                Some((c, r))
            } else {
                None
            },
            _ => None,
        }
    } else {
        None
    }
}

/// An optional size as numbers.
pub open spec fn opt_size(o: Option<(usize, usize)>) -> Option<(nat, nat)> {
    match o {
        Some((a, b)) => Some((a as nat, b as nat)),
        None => None,
    }
}

/// The two numbers of a grid's size.
pub fn parse_grid_size(spec: &str) -> (r: Option<(usize, usize)>)
    ensures
        opt_size(r) == grid_size(spec@),
{
    let v = chars_of(spec);
    let n: usize = v.len();
    let i: usize = find_char(&v, 0, n, 'x');
    proof {
        assert(v@.subrange(0, n as int) =~= spec@);
    }
    if i >= n {
        return None;
    }
    proof {
        assert(v@.subrange(0, i as int) =~= spec@.take(i as int));
        assert(v@.subrange(i + 1, n as int) =~= spec@.skip(i + 1));
    }
    let a = text_of(&v, 0, i);
    let b = text_of(&v, i + 1, n);
    let cols = match parse_usize(trim(a.as_str()).as_str()) {
        Some(c) => c,
        None => return None,
    };
    let rows = match parse_usize(trim(b.as_str()).as_str()) {
        Some(r) => r,
        None => return None,
    };
    if cols == 0 || rows == 0 {
        return None;
    }
    Some((cols, rows))
}

/// Whether floats are in order, each less than the next.
pub open spec fn increasing(s: Seq<u64>) -> bool {
    forall|i: int, j: int| 0 <= i < j < s.len() ==> float_lt(#[trigger] s[i], #[trigger] s[j])
}

/// Whether a list holds a float of this rank.
pub open spec fn has_rank(s: Seq<u64>, r: int) -> bool {
    exists|i: int| 0 <= i < s.len() && rank(#[trigger] s[i]) == r
}

/// Whether two lists hold the same floats; the two zeros count as one.
pub open spec fn same_floats(a: Seq<u64>, b: Seq<u64>) -> bool {
    forall|r: int| #[trigger] has_rank(a, r) <==> has_rank(b, r)
}

/// Puts the places of cuts in order, each once.
pub fn order_cuts(v: &Vec<Float>) -> (r: Vec<Float>)
    ensures
        increasing(all_bits(r@)),
        same_floats(all_bits(v@), all_bits(r@)),
{
    let mut out: Vec<Float> = Vec::new();
    let ghost all = all_bits(v@);
    let mut i: usize = 0;
    proof {
        assert(all.take(0) =~= all_bits(out@));
    }
    while i < v.len()
        invariant
            i <= v.len(),
            all == all_bits(v@),
            increasing(all_bits(out@)),
            same_floats(all.take(i as int), all_bits(out@)),
        decreases v.len() - i,
    {
        let x = &v[i];
        let ghost before = all_bits(out@);
        let mut j: usize = 0;
        while j < out.len() && out[j].lt(x)
            invariant
                j <= out.len(),
                before == all_bits(out@),
                forall|m: int| 0 <= m < j ==> float_lt(#[trigger] before[m], x@),
            decreases out.len() - j,
        {
            assert(before[j as int] == out@[j as int]@);
            j = j + 1;
        }
        let fresh: bool = if j < out.len() {
            x.lt(&out[j])
        } else {
            true
        };
        proof {
            if j < out.len() {
                assert(before[j as int] == out@[j as int]@);
            }
        }
        if fresh {
            out.insert(j, x.dup());
        }
        proof {
            assert(all[i as int] == x@);
            lemma_cut_placed(all, i as int, before, j as int, fresh, all_bits(out@));
        }
        i = i + 1;
    }
    proof {
        assert(all.take(i as int) =~= all);
    }
    out
}

proof fn lemma_cut_placed(
    all: Seq<u64>,
    i: int,
    before: Seq<u64>,
    j: int,
    fresh: bool,
    after: Seq<u64>,
)
    requires
        0 <= i < all.len(),
        0 <= j <= before.len(),
        increasing(before),
        same_floats(all.take(i), before),
        forall|m: int| 0 <= m < j ==> float_lt(#[trigger] before[m], all[i]),
        j < before.len() ==> !float_lt(before[j], all[i]),
        fresh == (j == before.len() || float_lt(all[i], before[j])),
        if fresh {
            after =~= before.insert(j, all[i])
        } else {
            after =~= before
        },
    ensures
        increasing(after),
        same_floats(all.take(i + 1), after),
{
    let x = all[i];
    let seen = all.take(i);
    let now = all.take(i + 1);
    assert(now =~= seen.push(x));
    if fresh {
        assert forall|m: int, n: int| 0 <= m < n < after.len() implies float_lt(
            #[trigger] after[m],
            #[trigger] after[n],
        ) by {
            let m2 = if m < j { m } else { m - 1 };
            let n2 = if n < j { n } else { n - 1 };
            if m != j && n != j {
                assert(float_lt(before[m2], before[n2]));
            } else if n == j {
                assert(float_lt(before[m], x));
            } else if n2 > j {
                assert(float_lt(before[j], before[n2]));
            }
        }
    }
    assert forall|r: int| #[trigger] has_rank(now, r) <==> has_rank(after, r) by {
        assert(has_rank(seen, r) <==> has_rank(before, r));
        if has_rank(now, r) {
            let m = choose|m: int| 0 <= m < now.len() && rank(#[trigger] now[m]) == r;
            if m < i {
                assert(seen[m] == now[m]);
                let n = choose|n: int| 0 <= n < before.len() && rank(#[trigger] before[n]) == r;
                let n2 = if fresh && n >= j { n + 1 } else { n };
                assert(after[n2] == before[n]);
            } else {
                assert(rank(after[j]) == r);
            }
        }
        if has_rank(after, r) {
            let m = choose|m: int| 0 <= m < after.len() && rank(#[trigger] after[m]) == r;
            if fresh && m == j {
                assert(now[i] == after[m]);
            } else {
                let m2 = if fresh && m > j { m - 1 } else { m };
                assert(after[m] == before[m2]);
                let n = choose|n: int| 0 <= n < seen.len() && rank(#[trigger] seen[n]) == r;
                assert(now[n] == seen[n]);
            }
        }
    }
}

}

//! Values as they are shown from afar: which numbers of a value are rounded, and the value
//! once they are.

use vstd::prelude::*;
use vstd::string::*;
use crate::doc::{docs, Doc, Json};
use crate::float::{all_bits, coordinate_doc, coordinate_json, float_lt, opt_bits, Float};
use crate::state::views;
use crate::strmap::{texts, Dup};
use crate::text::str_eq;

verus! {

broadcast use {crate::doc::group_json, crate::strmap::group_map};

/// A number, and what it is rounded to; nothing where that is no finite number.
pub struct Rounded {
    pub number: Float,
    pub rounded: Option<Float>,
}

impl View for Rounded {
    type V = (u64, Option<u64>);

    open spec fn view(&self) -> (u64, Option<u64>) {
        (self.number@, opt_bits(self.rounded))
    }
}

/// The members of a `physics` component whose numbers are rounded.
pub open spec fn rounded_members() -> Seq<Seq<char>> {
    seq!["pos"@, "vel"@, "lin"@, "ang"@]
}

/// Whether a grid rounds at all.
pub open spec fn rounds(grid: u64) -> bool {
    float_lt(0, grid)
}

/// The numbers of a list, in order.
pub open spec fn numbers_of(items: Seq<Doc>) -> Seq<u64>
    decreases items.len(),
{
    if items.len() == 0 {
        Seq::empty()
    } else {
        match items.last().as_float() {
            Some(b) => numbers_of(items.drop_last()).push(b),
            None => numbers_of(items.drop_last()),
        }
    }
}

/// The numbers of a value that is a list.
pub open spec fn array_numbers(v: Doc) -> Seq<u64> {
    match v {
        Doc::Arr(items) => numbers_of(items),
        _ => Seq::empty(),
    }
}

/// The numbers of those members of an object that are lists.
pub open spec fn member_numbers(m: Map<Seq<char>, Doc>, names: Seq<Seq<char>>) -> Seq<u64>
    decreases names.len(),
{
    if names.len() == 0 {
        Seq::empty()
    } else {
        let before = member_numbers(m, names.drop_last());
        if m.contains_key(names.last()) {
            before + array_numbers(m[names.last()])
        } else {
            before
        }
    }
}

/// The numbers of a component's value that are rounded when it is shown from afar: those of
/// a position or a velocity, and of the like in `physics`.
pub open spec fn rounded_numbers(comp: Seq<char>, v: Doc, grid: u64) -> Seq<u64> {
    if !rounds(grid) {
        Seq::empty()
    } else if comp == "pos"@ || comp == "vel"@ {
        array_numbers(v)
    } else if comp == "physics"@ && v is Obj {
        member_numbers(v->Obj_0, rounded_members())
    } else {
        Seq::empty()
    }
}

/// What a table rounds a number to: its first entry of that number; a number that it does
/// not have stays.
pub open spec fn looked_up(table: Seq<(u64, Option<u64>)>, bits: u64) -> Option<u64>
    decreases table.len(),
{
    if table.len() == 0 {
        Some(bits)
    } else if table[0].0 == bits {
        table[0].1
    } else {
        looked_up(table.skip(1), bits)
    }
}

/// A list with its numbers rounded; what is no list, and what is no number, stays.
pub open spec fn array_rounded(v: Doc, table: Seq<(u64, Option<u64>)>) -> Doc {
    match v {
        Doc::Arr(items) => Doc::Arr(
            items.map_values(
                |d: Doc|
                    match d.as_float() {
                        Some(b) => coordinate_doc(looked_up(table, b)),
                        None => d,
                    },
            ),
        ),
        _ => v,
    }
}

/// A component's value as it is shown from afar.
pub open spec fn coarsened(
    comp: Seq<char>,
    v: Doc,
    grid: u64,
    table: Seq<(u64, Option<u64>)>,
) -> Doc {
    if !rounds(grid) {
        v
    } else if comp == "pos"@ || comp == "vel"@ {
        array_rounded(v, table)
    } else if comp == "physics"@ && v is Obj {
        Doc::Obj(
            Map::new(
                |k: Seq<char>| v->Obj_0.contains_key(k),
                |k: Seq<char>|
                    if rounded_members().contains(k) {
                        array_rounded(v->Obj_0[k], table)
                    } else {
                        v->Obj_0[k]
                    },
            ),
        )
    } else {
        v
    }
}

fn add_numbers(v: &Json, out: &mut Vec<Float>)
    ensures
        all_bits(final(out)@) == all_bits(old(out)@) + array_numbers(v@),
{
    let ghost before = all_bits(out@);
    if let Some(items) = v.as_array() {
        let ghost all = docs(items@);
        let mut i: usize = 0;
        proof {
            assert(all.take(0) =~= Seq::empty());
            assert(before + Seq::<u64>::empty() =~= before);
        }
        while i < items.len()
            invariant
                i <= items.len(),
                all == docs(items@),
                all_bits(out@) == before + numbers_of(all.take(i as int)),
            decreases items.len() - i,
        {
            let ghost was = out@;
            let n = Float::of_json(&items[i]);
            proof {
                assert(all.take(i + 1).drop_last() =~= all.take(i as int));
                assert(all[i as int] == items@[i as int]@);
            }
            if let Some(x) = n {
                out.push(x);
                proof {
                    assert(all_bits(out@) =~= all_bits(was).push(x@));
                    assert(before + numbers_of(all.take(i as int)).push(x@) =~= (before
                        + numbers_of(all.take(i as int))).push(x@));
                }
            }
            i = i + 1;
        }
        proof {
            assert(all.take(all.len() as int) =~= all);
        }
    } else {
        proof {
            assert(before + Seq::<u64>::empty() =~= before);
        }
    }
}

fn member_names() -> (r: Vec<String>)
    ensures
        texts(r@) == rounded_members(),
{
    let mut v: Vec<String> = Vec::new();
    v.push("pos".to_owned());
    v.push("vel".to_owned());
    v.push("lin".to_owned());
    v.push("ang".to_owned());
    proof {
        assert(texts(v@) =~= rounded_members());
    }
    v
}

/// The numbers of a component's value that are rounded when it is shown from afar.
pub fn numbers_to_round(comp: &str, v: &Json, grid: &Float) -> (r: Vec<Float>)
    ensures
        all_bits(r@) == rounded_numbers(comp@, v@, grid@),
{
    let mut out: Vec<Float> = Vec::new();
    proof {
        assert(all_bits(out@) =~= Seq::empty());
    }
    if !Float::zero().lt(grid) {
        return out;
    }
    if str_eq(comp, "pos") || str_eq(comp, "vel") {
        add_numbers(v, &mut out);
        proof {
            assert(Seq::<u64>::empty() + array_numbers(v@) =~= array_numbers(v@));
        }
        return out;
    }
    if str_eq(comp, "physics") {
        if let Some(m) = v.as_object() {
            let names = member_names();
            let ghost all = texts(names@);
            let mut i: usize = 0;
            proof {
                assert(all.take(0) =~= Seq::empty());
            }
            while i < names.len()
                invariant
                    i <= names.len(),
                    all == texts(names@),
                    all_bits(out@) == member_numbers(m@, all.take(i as int)),
                decreases names.len() - i,
            {
                proof {
                    assert(all.take(i + 1).drop_last() =~= all.take(i as int));
                    assert(all[i as int] == names@[i as int]@);
                }
                if let Some(x) = m.get(names[i].as_str()) {
                    add_numbers(x, &mut out);
                }
                i = i + 1;
            }
            proof {
                assert(all.take(all.len() as int) =~= all);
            }
        }
    }
    out
}

fn look_up(table: &Vec<Rounded>, x: &Float) -> (r: Json)
    ensures
        r@ == coordinate_doc(looked_up(views(table@), x@)),
{
    let ghost all = views(table@);
    let bits: u64 = x.bits();
    let mut i: usize = 0;
    proof {
        assert(all.skip(0) =~= all);
    }
    while i < table.len()
        invariant
            i <= table.len(),
            all == views(table@),
            bits == x@,
            looked_up(all, bits) == looked_up(all.skip(i as int), bits),
        decreases table.len() - i,
    {
        proof {
            assert(all.skip(i as int)[0] == table@[i as int]@);
            assert(all.skip(i as int).skip(1) =~= all.skip(i + 1));
        }
        if table[i].number.bits() == bits {
            return coordinate_json(&table[i].rounded);
        }
        i = i + 1;
    }
    x.json()
}

/// A list with its numbers rounded.
pub fn quantize_array(v: &Json, table: &Vec<Rounded>) -> (r: Json)
    ensures
        r@ == array_rounded(v@, views(table@)),
{
    match v.as_array() {
        Some(items) => {
            let ghost all = docs(items@);
            let ghost wanted = array_rounded(v@, views(table@))->Arr_0;
            let mut out: Vec<Json> = Vec::new();
            let mut i: usize = 0;
            while i < items.len()
                invariant
                    i <= items.len(),
                    out.len() == i,
                    all == docs(items@),
                    wanted == array_rounded(Doc::Arr(all), views(table@))->Arr_0,
                    forall|j: int| 0 <= j < i ==> (#[trigger] out@[j])@ == wanted[j],
                decreases items.len() - i,
            {
                proof {
                    assert(all[i as int] == items@[i as int]@);
                }
                match Float::of_json(&items[i]) {
                    Some(x) => out.push(look_up(table, &x)),
                    None => out.push(items[i].dup()),
                }
                i = i + 1;
            }
            proof {
                assert(docs(out@) =~= wanted);
            }
            Json::Arr(out)
        },
        None => v.dup(),
    }
}

/// A component's value as it is shown from afar, with its numbers rounded by a table.
pub fn coarsen_component_value(comp: &str, v: &Json, grid: &Float, table: &Vec<Rounded>) -> (r:
    Json)
    ensures
        r@ == coarsened(comp@, v@, grid@, views(table@)),
{
    if !Float::zero().lt(grid) {
        return v.dup();
    }
    if str_eq(comp, "pos") || str_eq(comp, "vel") {
        return quantize_array(v, table);
    }
    if str_eq(comp, "physics") {
        if let Some(m) = v.as_object() {
            let ghost t = views(table@);
            let names = member_names();
            let ghost all = texts(names@);
            let mut out = m.dup();
            let mut i: usize = 0;
            proof {
                reveal_strlit("pos");
                reveal_strlit("vel");
                reveal_strlit("lin");
                reveal_strlit("ang");
                assert(all[0][0] == 'p' && all[1][0] == 'v' && all[2][0] == 'l' && all[3][0] == 'a');
            }
            while i < names.len()
                invariant
                    i <= names.len(),
                    all == texts(names@),
                    all == rounded_members(),
                    all.no_duplicates(),
                    t == views(table@),
                    out@.dom() == m@.dom(),
                    forall|k: Seq<char>| #[trigger]
                        out@.contains_key(k) ==> out@[k] == if all.take(i as int).contains(k) {
                            array_rounded(m@[k], t)
                        } else {
                            m@[k]
                        },
                decreases names.len() - i,
            {
                let k = names[i].as_str();
                let ghost before = out@;
                proof {
                    assert(all[i as int] == k@);
                    assert(all.take(i + 1) =~= all.take(i as int).push(k@));
                    assert forall|q: Seq<char>|
                        all.take(i + 1).contains(q) == (all.take(i as int).contains(q) || q == k@) by {
                        crate::json::lemma_push_contains(all.take(i as int), k@, q);
                    }
                    assert(!all.take(i as int).contains(k@)) by {
                        if all.take(i as int).contains(k@) {
                            let j = choose|j: int|
                                0 <= j < i && all.take(i as int)[j] == k@;
                            assert(all[j] == all[i as int]);
                        }
                    }
                }
                let q: Option<Json> = match out.get(k) {
                    Some(x) => Some(quantize_array(x, table)),
                    None => None,
                };
                if let Some(x) = q {
                    out.insert(k, x);
                    proof {
                        assert(out@.dom() =~= m@.dom());
                    }
                }
                i = i + 1;
            }
            proof {
                assert(all.take(all.len() as int) =~= all);
                assert(out@ =~= coarsened(comp@, v@, grid@, t)->Obj_0);
            }
            return out.done();
        }
    }
    v.dup()
}

}

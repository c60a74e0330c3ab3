//! Reading, building and copying JSON values.

use vstd::prelude::*;
use crate::doc::{
    docs, json_parse, json_text, layer_doc, layer_value, max_depth, num_of, number_of_u64, shallow,
    value_doc, value_docs, value_from_str, value_layer, value_to_string, Doc, Json, Layer, Num,
};
use crate::strmap::{has_key, key_pos, keys_distinct, texts, Dup, StrMap};
use crate::text::opt_string;

verus! {

broadcast use crate::doc::group_json;

/// An optional reference by its view.
pub open spec fn opt_doc(o: Option<&Json>) -> Option<Doc> {
    match o {
        Some(j) => Some(j@),
        None => None,
    }
}

/// An optional text by its view.
pub open spec fn opt_str(o: Option<&str>) -> Option<Seq<char>> {
    match o {
        Some(s) => Some(s@),
        None => None,
    }
}

/// What a list contains after a push.
pub proof fn lemma_push_contains<A>(s: Seq<A>, x: A, k: A)
    ensures
        s.push(x).contains(k) <==> s.contains(k) || k == x,
{
    let t = s.push(x);
    if s.contains(k) {
        let i = choose|i: int| 0 <= i < s.len() && s[i] == k;
        assert(t[i] == k);
    }
    if k == x {
        assert(t[s.len() as int] == k);
    }
    if t.contains(k) {
        let i = choose|i: int| 0 <= i < t.len() && t[i] == k;
        if i < s.len() {
            assert(s[i] == k);
        }
    }
}

fn array_value(v: &Vec<Json>) -> (r: Vec<serde_json::Value>)
    ensures
        value_docs(r@) == docs(v@),
    decreases v,
{
    let mut out: Vec<serde_json::Value> = Vec::new();
    let mut i: usize = 0;
    while i < v.len()
        invariant
            i <= v.len(),
            out.len() == i,
            forall|j: int| 0 <= j < i ==> value_doc(#[trigger] out@[j]) == v@[j]@,
        decreases v.len() - i,
    {
        proof {
            assert(decreases_to!(*v => v[i as int]));
        }
        out.push(to_value(&v[i]));
        i = i + 1;
    }
    proof {
        assert(value_docs(out@) =~= docs(v@));
    }
    out
}

fn object_value(v: &Vec<(String, Json)>) -> (r: Vec<(String, serde_json::Value)>)
    ensures
        r@.len() == v@.len(),
        forall|j: int|
            0 <= j < v@.len() ==> (#[trigger] r@[j]).0@ == v@[j].0@ && value_doc(r@[j].1)
                == v@[j].1@,
    decreases v,
{
    let mut out: Vec<(String, serde_json::Value)> = Vec::new();
    let mut i: usize = 0;
    while i < v.len()
        invariant
            i <= v.len(),
            out.len() == i,
            forall|j: int|
                0 <= j < i ==> (#[trigger] out@[j]).0@ == v@[j].0@ && value_doc(out@[j].1)
                    == v@[j].1@,
        decreases v.len() - i,
    {
        proof {
            assert(decreases_to!(*v => v[i as int]));
            assert(decreases_to!(v[i as int] => v[i as int].1));
        }
        out.push((v[i].0.clone(), to_value(&v[i].1)));
        i = i + 1;
    }
    out
}

/// Two lists of pairs with the same keys in the same places have each key in the same
/// place.
proof fn lemma_same_keys<A, B>(a: Seq<(String, A)>, b: Seq<(String, B)>)
    requires
        a.len() == b.len(),
        keys_distinct(a),
        forall|j: int| 0 <= j < a.len() ==> (#[trigger] a[j]).0@ == b[j].0@,
    ensures
        keys_distinct(b),
        forall|k: Seq<char>| #[trigger] has_key(a, k) == has_key(b, k),
        forall|k: Seq<char>| #[trigger] has_key(b, k) ==> key_pos(a, k) == key_pos(b, k),
{
    assert forall|i: int, j: int| 0 <= i < b.len() && 0 <= j < b.len() && i != j implies (
    #[trigger] b[i]).0@ != (#[trigger] b[j]).0@ by {
        assert(a[i].0@ != a[j].0@);
    }
    assert forall|k: Seq<char>| #[trigger] has_key(a, k) == has_key(b, k) by {
        if has_key(a, k) {
            assert(b[key_pos(a, k)].0@ == k);
        }
        if has_key(b, k) {
            assert(a[key_pos(b, k)].0@ == k);
        }
    }
    assert forall|k: Seq<char>| #[trigger] has_key(b, k) implies key_pos(a, k) == key_pos(
        b,
        k,
    ) by {
        assert(has_key(a, k));
        assert(b[key_pos(a, k)].0@ == k);
    }
}

/// The `serde_json` value that holds what `j` holds.
fn to_value(j: &Json) -> (r: serde_json::Value)
    ensures
        value_doc(r) == j@,
    decreases j,
{
    match j {
        Json::Null => layer_value(Layer::Null),
        Json::Bool(b) => layer_value(Layer::Bool(*b)),
        Json::Num(n) => layer_value(Layer::Num(n.clone())),
        Json::Str(s) => layer_value(Layer::Str(s.clone())),
        Json::Arr(v) => layer_value(Layer::Arr(array_value(v))),
        Json::Obj(m) => {
            let pairs = m.pairs();
            proof {
                m.lemma_view();
                assert(decreases_to!(*j => j->Obj_0));
                assert(decreases_to!(*m => m.items));
            }
            let items = object_value(pairs);
            proof {
                lemma_same_keys(m.items@, items@);
                assert(layer_doc(Layer::Obj(items))->Obj_0 =~= m@);
            }
            layer_value(Layer::Obj(items))
        },
    }
}

fn read_array(items: Vec<serde_json::Value>, Ghost(d): Ghost<Doc>) -> (r: Vec<Json>)
    requires
        d == Doc::Arr(value_docs(items@)),
    ensures
        docs(r@) == value_docs(items@),
    decreases d, 0nat,
{
    let ghost all = items@;
    let mut items = items;
    let mut back: Vec<Json> = Vec::new();
    while items.len() > 0
        invariant
            items.len() + back.len() == all.len(),
            items@ == all.take(items.len() as int),
            d == Doc::Arr(value_docs(all)),
            forall|i: int|
                0 <= i < back.len() ==> (#[trigger] back@[i])@ == value_doc(all[all.len() - 1 - i]),
        decreases items.len(),
    {
        if let Some(v) = items.pop() {
            proof {
                let n = items.len() as int;
                assert(v == all[n]);
                assert(d->Arr_0[n] == value_doc(v));
                assert(items@ =~= all.take(n));
            }
            back.push(from_value(v));
        }
    }
    let mut out: Vec<Json> = Vec::new();
    while back.len() > 0
        invariant
            out.len() + back.len() == all.len(),
            forall|i: int|
                0 <= i < back.len() ==> (#[trigger] back@[i])@ == value_doc(all[all.len() - 1 - i]),
            forall|i: int| 0 <= i < out.len() ==> (#[trigger] out@[i])@ == value_doc(all[i]),
        decreases back.len(),
    {
        if let Some(j) = back.pop() {
            out.push(j);
        }
    }
    proof {
        assert(docs(out@) =~= value_docs(all));
    }
    out
}

fn read_object(items: Vec<(String, serde_json::Value)>, Ghost(d): Ghost<Doc>) -> (r: StrMap<Json>)
    requires
        keys_distinct(items@),
        d == layer_doc(Layer::Obj(items)),
    ensures
        d == Doc::Obj(r@),
    decreases d, 0nat,
{
    let ghost all = items@;
    let mut items = items;
    let mut out: StrMap<Json> = StrMap::new();
    proof {
        assert forall|i: int| 0 <= i < all.len() implies d->Obj_0.contains_key(
            (#[trigger] all[i]).0@,
        ) && d->Obj_0[all[i].0@] == value_doc(all[i].1) by {
            assert(has_key(all, all[i].0@));
        }
    }
    while items.len() > 0
        invariant
            items.len() <= all.len(),
            items@ == all.take(items.len() as int),
            keys_distinct(all),
            d is Obj,
            forall|i: int|
                0 <= i < all.len() ==> d->Obj_0.contains_key((#[trigger] all[i]).0@)
                    && d->Obj_0[all[i].0@] == value_doc(all[i].1),
            forall|i: int| items.len() <= i < all.len() ==> out@.contains_key((#[trigger] all[i]).0@),
            forall|k: Seq<char>| #[trigger]
                out@.contains_key(k) ==> d->Obj_0.contains_key(k) && out@[k] == d->Obj_0[k],
        decreases items.len(),
    {
        if let Some((k, v)) = items.pop() {
            proof {
                let n = items.len() as int;
                assert((k, v) == all[n]);
                assert(d->Obj_0[k@] == value_doc(v));
                assert(items@ =~= all.take(n));
            }
            out.insert(k.as_str(), from_value(v));
        }
    }
    proof {
        assert forall|k: Seq<char>| d->Obj_0.contains_key(k) implies out@.contains_key(k) by {
            assert(has_key(all, k));
            assert(all[key_pos(all, k)].0@ == k);
        }
        assert(out@ =~= d->Obj_0);
    }
    out
}

/// What a `serde_json` value holds.
fn from_value(v: serde_json::Value) -> (r: Json)
    ensures
        r@ == value_doc(v),
    decreases value_doc(v), 1nat,
{
    let ghost d = value_doc(v);
    match value_layer(v) {
        Layer::Null => Json::Null,
        Layer::Bool(b) => Json::Bool(b),
        Layer::Num(n) => Json::Num(n),
        Layer::Str(s) => Json::Str(s),
        Layer::Arr(items) => Json::Arr(read_array(items, Ghost(d))),
        Layer::Obj(items) => Json::Obj(read_object(items, Ghost(d))),
    }
}

impl Dup for Json {
    fn dup(&self) -> (r: Json) {
        self.copy()
    }
}

impl Json {
    fn copy(&self) -> (r: Json)
        ensures
            r@ == self@,
        decreases self,
    {
        match self {
            Json::Null => Json::Null,
            Json::Bool(b) => Json::Bool(*b),
            Json::Num(n) => Json::Num(n.clone()),
            Json::Str(s) => Json::Str(s.clone()),
            Json::Arr(v) => {
                let mut out: Vec<Json> = Vec::new();
                let mut i: usize = 0;
                while i < v.len()
                    invariant
                        i <= v.len(),
                        *self == Json::Arr(*v),
                        out.len() == i,
                        forall|j: int| 0 <= j < i ==> (#[trigger] out@[j])@ == v@[j]@,
                    decreases v.len() - i,
                {
                    proof {
                        assert(decreases_to!(*self => self->Arr_0));
                        assert(decreases_to!(*v => v[i as int]));
                    }
                    out.push(v[i].copy());
                    i = i + 1;
                }
                proof {
                    assert(docs(out@) =~= docs(v@));
                }
                Json::Arr(out)
            },
            Json::Obj(m) => {
                let mut out: StrMap<Json> = StrMap::new();
                let n: usize = m.len();
                let mut i: usize = 0;
                while i < n
                    invariant
                        i <= n == m.order().len(),
                        *self == Json::Obj(*m),
                        m.order().no_duplicates(),
                        forall|k: Seq<char>|
                            #[trigger] out@.contains_key(k) <==> m.order().take(i as int).contains(k),
                        forall|k: Seq<char>|
                            #[trigger] out@.contains_key(k) ==> m@.contains_key(k) && out@[k] == m@[k],
                    decreases n - i,
                {
                    let part = m.raw_value(i);
                    proof {
                        assert(decreases_to!(*self => self->Obj_0));
                        assert(decreases_to!(*m => m.items));
                        assert(decreases_to!(m.items => m.items[i as int]));
                        assert(decreases_to!(m.items[i as int] => m.items[i as int].1));
                    }
                    let v = part.copy();
                    let ghost seen = m.order().take(i as int);
                    out.insert(m.key_at(i), v);
                    i = i + 1;
                    proof {
                        assert(m.order().take(i as int) =~= seen.push(m.order()[i - 1]));
                        assert forall|k: Seq<char>|
                            #[trigger] out@.contains_key(k) <==> m.order().take(
                                i as int,
                            ).contains(k) by {
                            lemma_push_contains(seen, m.order()[i - 1], k);
                        }
                    }
                }
                proof {
                    assert(m.order().take(n as int) =~= m.order());
                    assert forall|k: Seq<char>| out@.contains_key(k) == m@.contains_key(k) by {
                        assert(m.order().to_set().contains(k) == m.order().contains(k));
                    }
                    assert(out@ =~= m@);
                }
                Json::Obj(out)
            },
        }
    }
}


impl Json {
    /// Reads a text as JSON.
    pub fn parse(text: &str) -> (r: Option<Json>)
        ensures
            opt_json(r) == json_parse(text@),
    {
        match value_from_str(text) {
            Some(v) => Some(from_value(v)),
            None => None,
        }
    }

    /// Writes the value as compact JSON. Reading the text gives the value back,
    /// unless it is nested too deep to be read.
    pub fn text(&self) -> (r: String)
        ensures
            r@ == json_text(self@),
            shallow(self@, max_depth()) ==> json_parse(r@) == Some(self@),
            self@ is Obj ==> r@.len() > 1 && r@[0] == '{' && r@.last() == '}',
            !r@.contains('\n'),
    {
        value_to_string(&to_value(self))
    }

    /// A text.
    pub fn str(s: &str) -> (r: Json)
        ensures
            r@ == Doc::Str(s@),
    {
        Json::Str(s.to_owned())
    }

    /// An unsigned integer.
    pub fn u64(n: u64) -> (r: Json)
        ensures
            r@ == Doc::Num(Num::Pos(n)),
    {
        Json::Num(number_of_u64(n))
    }

    /// Member `k` of an object.
    pub fn get(&self, k: &str) -> (r: Option<&Json>)
        ensures
            opt_doc(r) == self@.get(k@),
    {
        match self {
            Json::Obj(m) => m.get(k),
            _ => None,
        }
    }

    /// The text of a string.
    pub fn as_str(&self) -> (r: Option<&str>)
        ensures
            opt_str(r) == self@.as_str(),
    {
        match self {
            Json::Str(s) => Some(s.as_str()),
            _ => None,
        }
    }

    /// The value of an unsigned integer.
    pub fn as_u64(&self) -> (r: Option<u64>)
        ensures
            r == self@.as_u64(),
    {
        match self {
            Json::Num(n) => match num_of(n) {
                Num::Pos(u) => Some(u),
                _ => None,
            },
            _ => None,
        }
    }

    /// The value of a truth value.
    pub fn as_bool(&self) -> (r: Option<bool>)
        ensures
            r == self@.as_bool(),
    {
        match self {
            Json::Bool(b) => Some(*b),
            _ => None,
        }
    }

    /// The elements of an array.
    pub fn as_array(&self) -> (r: Option<&Vec<Json>>)
        ensures
            match r {
                Some(v) => self@ == Doc::Arr(docs(v@)),
                None => !(self@ is Arr),
            },
    {
        match self {
            Json::Arr(v) => Some(v),
            _ => None,
        }
    }

    /// The members of an object.
    pub fn as_object(&self) -> (r: Option<&StrMap<Json>>)
        ensures
            match r {
                Some(m) => self@ == Doc::Obj(m@),
                None => !(self@ is Obj),
            },
    {
        match self {
            Json::Obj(m) => Some(m),
            _ => None,
        }
    }

    /// The text of member `k`.
    pub fn get_str(&self, k: &str) -> (r: Option<&str>)
        ensures
            opt_str(r) == self@.get_str(k@),
    {
        match self.get(k) {
            Some(v) => v.as_str(),
            None => None,
        }
    }

    /// The unsigned integer of member `k`.
    pub fn get_u64(&self, k: &str) -> (r: Option<u64>)
        ensures
            r == self@.get_u64(k@),
    {
        match self.get(k) {
            Some(v) => v.as_u64(),
            None => None,
        }
    }
}

impl StrMap<Json> {
    /// The map with `k` set to `v`.
    pub fn with(self, k: &str, v: Json) -> (r: StrMap<Json>)
        ensures
            r@ == self@.insert(k@, v@),
    {
        let mut m = self;
        m.insert(k, v);
        m
    }

    /// The object with these members.
    pub fn done(self) -> (r: Json)
        ensures
            r@ == Doc::Obj(self@),
    {
        Json::Obj(self)
    }
}

/// An optional value by its view.
pub open spec fn opt_json(o: Option<Json>) -> Option<Doc> {
    match o {
        Some(j) => Some(j@),
        None => None,
    }
}

/// A list of texts as an array.
pub open spec fn texts_doc(s: Seq<Seq<char>>) -> Doc {
    Doc::Arr(s.map_values(|t: Seq<char>| Doc::Str(t)))
}

/// An optional text as a value: null where there is none.
pub open spec fn opt_text_doc(o: Option<Seq<char>>) -> Doc {
    match o {
        Some(t) => Doc::Str(t),
        None => Doc::Null,
    }
}

/// An optional number as a value: null where there is none.
pub open spec fn opt_u64_doc(o: Option<u64>) -> Doc {
    match o {
        Some(n) => Doc::Num(Num::Pos(n)),
        None => Doc::Null,
    }
}

/// A value, or null where there is none.
pub open spec fn or_null(o: Option<Doc>) -> Doc {
    match o {
        Some(d) => d,
        None => Doc::Null,
    }
}

impl Json {
    /// A list of texts.
    pub fn texts(s: &Vec<String>) -> (r: Json)
        ensures
            r@ == texts_doc(texts(s@)),
    {
        let mut v: Vec<Json> = Vec::new();
        let mut i: usize = 0;
        while i < s.len()
            invariant
                i <= s.len(),
                v.len() == i,
                forall|j: int| 0 <= j < i ==> (#[trigger] v@[j])@ == Doc::Str(s@[j]@),
            decreases s.len() - i,
        {
            v.push(Json::Str(s[i].clone()));
            i = i + 1;
        }
        proof {
            assert(docs(v@) =~= texts_doc(texts(s@))->Arr_0);
        }
        Json::Arr(v)
    }

    /// An optional text.
    pub fn opt_str(o: &Option<String>) -> (r: Json)
        ensures
            r@ == opt_text_doc(opt_string(*o)),
    {
        match o {
            Some(s) => Json::Str(s.clone()),
            None => Json::Null,
        }
    }

    /// An optional number.
    pub fn opt_u64(o: Option<u64>) -> (r: Json)
        ensures
            r@ == opt_u64_doc(o),
    {
        match o {
            Some(n) => Json::u64(n),
            None => Json::Null,
        }
    }

    /// A copy of member `k`, or null where there is none.
    pub fn member(&self, k: &str) -> (r: Json)
        ensures
            r@ == or_null(self@.get(k@)),
    {
        match self.get(k) {
            Some(v) => v.dup(),
            None => Json::Null,
        }
    }

    /// The text of member `k`, or `default`.
    pub fn str_or<'a>(&'a self, k: &str, default: &'a str) -> (r: &'a str)
        ensures
            r@ == text_or(self@.get_str(k@), default@),
    {
        match self.get_str(k) {
            Some(s) => s,
            None => default,
        }
    }

    /// The unsigned integer of member `k`, or `default`.
    pub fn u64_or(&self, k: &str, default: u64) -> (r: u64)
        ensures
            r == num_or(self@.get_u64(k@), default),
    {
        match self.get_u64(k) {
            Some(n) => n,
            None => default,
        }
    }
}

pub open spec fn text_or(o: Option<Seq<char>>, default: Seq<char>) -> Seq<char> {
    match o {
        Some(s) => s,
        None => default,
    }
}

pub open spec fn num_or(o: Option<u64>, default: u64) -> u64 {
    match o {
        Some(n) => n,
        None => default,
    }
}

/// What a value is as a document.
pub trait AsDoc: View + Sized {
    /// The document of a value with this view.
    spec fn doc_of(v: Self::V) -> Doc;

    /// The value as a document.
    fn to_json(&self) -> (r: Json)
        ensures
            r@ == Self::doc_of(self@),
    ;
}

impl AsDoc for u64 {
    open spec fn doc_of(v: u64) -> Doc {
        Doc::Num(Num::Pos(v))
    }

    fn to_json(&self) -> (r: Json) {
        Json::u64(*self)
    }
}

/// A map as an object.
pub open spec fn map_doc<V: AsDoc>(m: Map<Seq<char>, V::V>) -> Doc {
    Doc::Obj(m.map_values(|v: V::V| V::doc_of(v)))
}

/// A map as an object.
pub fn map_json<V: AsDoc>(m: &StrMap<V>) -> (r: Json)
    ensures
        r@ == map_doc::<V>(m@),
{
    let mut out: StrMap<Json> = StrMap::new();
    let n: usize = m.len();
    let ghost order = m.order();
    let mut i: usize = 0;
    while i < n
        invariant
            i <= n == order.len(),
            order == m.order(),
            forall|k: Seq<char>|
                #[trigger] out@.contains_key(k) <==> order.take(i as int).contains(k),
            forall|k: Seq<char>|
                #[trigger] out@.contains_key(k) ==> m@.contains_key(k) && out@[k] == V::doc_of(
                    m@[k],
                ),
        decreases n - i,
    {
        let ghost seen = order.take(i as int);
        out.insert(m.key_at(i), m.value_at(i).to_json());
        i = i + 1;
        proof {
            assert(order.take(i as int) =~= seen.push(order[i - 1]));
            assert forall|k: Seq<char>|
                #[trigger] out@.contains_key(k) <==> order.take(i as int).contains(k) by {
                lemma_push_contains(seen, order[i - 1], k);
            }
        }
    }
    proof {
        assert(order.take(n as int) =~= order);
        assert forall|k: Seq<char>| out@.contains_key(k) == m@.contains_key(k) by {
            assert(order.to_set().contains(k) == order.contains(k));
        }
        assert(out@ =~= map_doc::<V>(m@)->Obj_0);
    }
    out.done()
}

}

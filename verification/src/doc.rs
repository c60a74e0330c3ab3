//! JSON documents: the executable value, what it is, and the calls into
//! `serde_json` that read and write it as text.

use vstd::prelude::*;
use crate::strmap::{has_key, key_pos, keys_distinct, StrMap};

verus! {

/// A number: an integer in one of its two ranges, or the bits of a binary64 float.
#[derive(Clone, Copy, Debug, PartialEq, Eq, Structural)]
pub enum Num {
    /// A non-negative integer.
    Pos(u64),
    /// A negative integer.
    Neg(i64),
    /// The bit pattern of a binary64 float.
    Float(u64),
}

/// `serde_json`'s number.
#[verifier::external_type_specification]
#[verifier::external_body]
pub struct ExNumber(serde_json::Number);

/// What a `serde_json::Number` holds.
pub uninterp spec fn number_num(n: serde_json::Number) -> Num;

/// A JSON value.
pub enum Json {
    Null,
    Bool(bool),
    Num(serde_json::Number),
    Str(String),
    Arr(Vec<Json>),
    Obj(StrMap<Json>),
}

/// What a JSON value is.
#[verifier::ext_equal]
pub enum Doc {
    Null,
    Bool(bool),
    Num(Num),
    Str(Seq<char>),
    Arr(Seq<Doc>),
    Obj(Map<Seq<char>, Doc>),
}

impl Json {
    pub closed spec fn doc(self) -> Doc
        decreases self,
    {
        match self {
            Json::Null => Doc::Null,
            Json::Bool(b) => Doc::Bool(b),
            Json::Num(n) => Doc::Num(number_num(n)),
            Json::Str(s) => Doc::Str(s@),
            Json::Arr(v) => Doc::Arr(
                Seq::new(v@.len(), |i: int| if 0 <= i < v@.len() { v@[i].doc() } else { Doc::Null }),
            ),
            Json::Obj(m) => Doc::Obj(
                Map::new(
                    |k: Seq<char>| has_key(m.items@, k),
                    |k: Seq<char>|
                        {
                            let i = key_pos(m.items@, k);
                            if 0 <= i < m.items@.len() {
                                m.items@[i].1.doc()
                            } else {
                                Doc::Null
                            }
                        },
                ),
            ),
        }
    }
}

impl View for Json {
    type V = Doc;

    closed spec fn view(&self) -> Doc {
        self.doc()
    }
}

/// Whether `d` is nested at most `n` deep.
pub open spec fn shallow(d: Doc, n: nat) -> bool
    decreases d,
{
    match d {
        Doc::Arr(s) => n > 0 && forall|i: int| 0 <= i < s.len() ==> shallow(#[trigger] s[i], (n - 1) as nat),
        Doc::Obj(m) => n > 0 && forall|k: Seq<char>| m.contains_key(k) ==> shallow(#[trigger] m[k], (n - 1) as nat),
        _ => true,
    }
}

/// `serde_json`'s own value.
#[verifier::external_type_specification]
#[verifier::external_body]
pub struct ExValue(serde_json::Value);

/// What a `serde_json::Value` holds.
pub uninterp spec fn value_doc(v: serde_json::Value) -> Doc;

/// What `serde_json::from_str` makes of a text: the document, or nothing where
/// the text is no JSON.
pub uninterp spec fn json_parse(text: Seq<char>) -> Option<Doc>;

/// The compact text that `serde_json::to_string` writes for a document.
pub uninterp spec fn json_text(d: Doc) -> Seq<char>;

/// The bits of the float that `serde_json::Number::as_f64` gives for an integer.
pub uninterp spec fn integer_bits(n: Num) -> u64;

/// The bits of the float that `serde_json::Number::as_f64` gives for a number: a
/// float is what it is, and zero is the float whose bits are all zero.
pub open spec fn float_bits(n: Num) -> u64 {
    match n {
        Num::Float(b) => b,
        Num::Pos(0) => 0,
        _ => integer_bits(n),
    }
}

/// How many arrays and objects `serde_json` lets stand inside one another in a
/// text that it reads.
pub open spec fn max_depth() -> nat {
    127
}

/// A `serde_json::Value`, taken apart by one level.
pub enum Layer {
    Null,
    Bool(bool),
    Num(serde_json::Number),
    Str(String),
    Arr(Vec<serde_json::Value>),
    Obj(Vec<(String, serde_json::Value)>),
}

/// A list of `serde_json` values by what they hold.
pub open spec fn value_docs(s: Seq<serde_json::Value>) -> Seq<Doc> {
    s.map_values(|v: serde_json::Value| value_doc(v))
}

/// What the value holds that was taken apart.
pub open spec fn layer_doc(l: Layer) -> Doc {
    match l {
        Layer::Null => Doc::Null,
        Layer::Bool(b) => Doc::Bool(b),
        Layer::Num(n) => Doc::Num(number_num(n)),
        Layer::Str(s) => Doc::Str(s@),
        Layer::Arr(v) => Doc::Arr(value_docs(v@)),
        Layer::Obj(v) => Doc::Obj(
            Map::new(
                |k: Seq<char>| has_key(v@, k),
                |k: Seq<char>| value_doc(v@[key_pos(v@, k)].1),
            ),
        ),
    }
}

/// Whether the members that were taken apart have pairwise distinct keys.
pub open spec fn layer_wf(l: Layer) -> bool {
    match l {
        Layer::Obj(v) => keys_distinct(v@),
        _ => true,
    }
}

/// Puts a `serde_json::Value` together by its constructors, one level.
#[verifier::external_body]
pub(crate) fn layer_value(l: Layer) -> (r: serde_json::Value)
    requires
        layer_wf(l),
    ensures
        value_doc(r) == layer_doc(l),
{
    match l {
        Layer::Null => serde_json::Value::Null,
        Layer::Bool(b) => serde_json::Value::Bool(b),
        Layer::Num(n) => serde_json::Value::Number(n),
        Layer::Str(s) => serde_json::Value::String(s),
        Layer::Arr(v) => serde_json::Value::Array(v),
        Layer::Obj(v) => serde_json::Value::Object(v.into_iter().collect()),
    }
}

/// Takes a `serde_json::Value` apart by its variants, one level. The keys of a
/// `serde_json::Map` are pairwise distinct.
#[verifier::external_body]
pub(crate) fn value_layer(v: serde_json::Value) -> (r: Layer)
    ensures
        layer_doc(r) == value_doc(v),
        layer_wf(r),
{
    match v {
        serde_json::Value::Null => Layer::Null,
        serde_json::Value::Bool(b) => Layer::Bool(b),
        serde_json::Value::Number(n) => Layer::Num(n),
        serde_json::Value::String(s) => Layer::Str(s),
        serde_json::Value::Array(a) => Layer::Arr(a),
        serde_json::Value::Object(m) => Layer::Obj(m.into_iter().collect()),
    }
}

/// Calls `serde_json::from_str`: the result is a function of the text.
#[verifier::external_body]
pub(crate) fn value_from_str(text: &str) -> (r: Option<serde_json::Value>)
    ensures
        match r {
            Some(v) => json_parse(text@) == Some(value_doc(v)),
            None => json_parse(text@) is None,
        },
{
    serde_json::from_str::<serde_json::Value>(text).ok()
}

/// Calls `serde_json::to_string`, which cannot fail on a `Value`. The text is a
/// function of what the value holds, and reading it gives that back: strings are
/// escaped and unescaped alike, integers are written in full, and floats in the
/// digits that, with the feature `float_roundtrip`, are read as the same float.
/// A text nested deeper than the reader's recursion limit is not read at all.
/// The text of an object stands between braces, and no text holds a line break:
/// inside strings every control character is escaped.
#[verifier::external_body]
pub(crate) fn value_to_string(v: &serde_json::Value) -> (r: String)
    ensures
        r@ == json_text(value_doc(*v)),
        shallow(value_doc(*v), max_depth()) ==> json_parse(r@) == Some(value_doc(*v)),
        value_doc(*v) is Obj ==> r@.len() > 1 && r@[0] == '{' && r@.last() == '}',
        !r@.contains('\n'),
{
    serde_json::to_string(v).unwrap()
}

/// Calls `serde_json::Number`'s `as_u64`, `as_i64` and `as_f64`: exactly one of
/// the three kinds holds of a number, and an integer counts as negative only
/// where it is below zero.
#[verifier::external_body]
pub(crate) fn num_of(n: &serde_json::Number) -> (r: Num)
    ensures
        r == number_num(*n),
{
    match (n.as_u64(), n.as_i64()) {
        (Some(u), _) => Num::Pos(u),
        (None, Some(i)) => Num::Neg(i),
        (None, None) => Num::Float(n.as_f64().unwrap_or_default().to_bits()),
    }
}

/// Calls `serde_json::Number::from` on a `u64`, which keeps the integer.
#[verifier::external_body]
pub(crate) fn number_of_u64(n: u64) -> (r: serde_json::Number)
    ensures
        number_num(r) == Num::Pos(n),
{
    serde_json::Number::from(n)
}

/// Calls `serde_json::Number::as_f64` and `serde_json::Number::from_f64`: the
/// number as a float. A float stays what it is; an integer gives the float that
/// `as_f64` converts it to, and zero the float whose bits are all zero. Every
/// `Number` has such a float, and it is finite.
#[verifier::external_body]
pub(crate) fn number_to_float(n: &serde_json::Number) -> (r: serde_json::Number)
    ensures
        number_num(r) == Num::Float(
            match number_num(*n) {
                Num::Float(b) => b,
                Num::Pos(0) => 0,
                _ => integer_bits(number_num(*n)),
            },
        ),
{
    n.as_f64().and_then(serde_json::Number::from_f64).unwrap_or_else(|| n.clone())
}

/// `serde_json::Number::clone` keeps what the number holds.
pub assume_specification[ <serde_json::Number as Clone>::clone ](
    n: &serde_json::Number,
) -> (r: serde_json::Number)
    ensures
        number_num(r) == number_num(*n),
;

/// A list of values by their views.
pub open spec fn docs(s: Seq<Json>) -> Seq<Doc> {
    s.map_values(|j: Json| j@)
}

/// A value's document, one level unfolded.
pub open spec fn unfolded(j: Json) -> Doc {
    match j {
        Json::Null => Doc::Null,
        Json::Bool(b) => Doc::Bool(b),
        Json::Num(n) => Doc::Num(number_num(n)),
        Json::Str(s) => Doc::Str(s@),
        Json::Arr(v) => Doc::Arr(docs(v@)),
        Json::Obj(m) => Doc::Obj(m@),
    }
}

pub broadcast proof fn lemma_view(j: Json)
    ensures
        #[trigger] j@ == unfolded(j),
{
    match j {
        Json::Arr(v) => {
            assert(j@->Arr_0 =~= docs(v@));
        },
        Json::Obj(m) => {
            m.lemma_view();
            let d = j@;
            assert forall|k: Seq<char>| d->Obj_0.contains_key(k) implies d->Obj_0[k] == m@[k] by {
                assert(has_key(m.items@, k));
            }
            assert(d->Obj_0 =~= m@);
        },
        _ => {},
    }
}

pub broadcast group group_json {
    lemma_view,
}

impl Doc {
    /// The member `k` of an object.
    pub open spec fn get(self, k: Seq<char>) -> Option<Doc> {
        match self {
            Doc::Obj(m) => if m.contains_key(k) { Some(m[k]) } else { None },
            _ => None,
        }
    }

    pub open spec fn as_str(self) -> Option<Seq<char>> {
        match self {
            Doc::Str(s) => Some(s),
            _ => None,
        }
    }

    pub open spec fn as_u64(self) -> Option<u64> {
        match self {
            Doc::Num(Num::Pos(n)) => Some(n),
            _ => None,
        }
    }

    pub open spec fn as_bool(self) -> Option<bool> {
        match self {
            Doc::Bool(b) => Some(b),
            _ => None,
        }
    }

    /// The bits of a number taken as a float.
    pub open spec fn as_float(self) -> Option<u64> {
        match self {
            Doc::Num(n) => Some(float_bits(n)),
            _ => None,
        }
    }

    /// The text of member `k`.
    pub open spec fn get_str(self, k: Seq<char>) -> Option<Seq<char>> {
        match self.get(k) {
            Some(d) => d.as_str(),
            None => None,
        }
    }

    /// The unsigned integer of member `k`.
    pub open spec fn get_u64(self, k: Seq<char>) -> Option<u64> {
        match self.get(k) {
            Some(d) => d.as_u64(),
            None => None,
        }
    }
}

}

//! Binary64 floats by their bits, and points in the plane.
//!
//! A float is carried as the number that it was read as. Two floats are compared by
//! their bits: the sign apart, a larger bit pattern is a larger number.

use vstd::prelude::*;
use crate::doc::{
    docs, float_bits, num_of, number_num, number_of_u64, number_to_float, Doc, Json, Num,
};
use crate::json::opt_doc;
use crate::strmap::Dup;

verus! {

broadcast use crate::doc::group_json;

/// A finite float.
pub struct Float {
    n: serde_json::Number,
}

impl Float {
    #[verifier::type_invariant]
    closed spec fn inv(self) -> bool {
        number_num(self.n) is Float
    }
}

impl View for Float {
    type V = u64;

    closed spec fn view(&self) -> u64 {
        match number_num(self.n) {
            Num::Float(b) => b,
            _ => 0,
        }
    }
}

impl Dup for Float {
    fn dup(&self) -> (r: Float) {
        proof {
            use_type_invariant(&*self);
        }
        Float { n: self.n.clone() }
    }
}

/// The place of a float among all floats: the two zeros share one.
pub open spec fn rank(bits: u64) -> int {
    if bits < 0x8000_0000_0000_0000 {
        bits as int
    } else {
        0x8000_0000_0000_0000 - bits
    }
}

/// Whether one float is less than another.
pub open spec fn float_lt(a: u64, b: u64) -> bool {
    rank(a) < rank(b)
}

/// Whether one float is less than another, by their bits.
pub fn bits_lt(a: u64, b: u64) -> (r: bool)
    ensures
        r == float_lt(a, b),
{
    let m: u64 = 0x8000_0000_0000_0000;
    if a < m {
        b < m && a < b
    } else if b < m {
        a > m || b > 0
    } else {
        a > b
    }
}

impl Float {
    /// Zero.
    pub fn zero() -> (r: Float)
        ensures
            r@ == 0,
    {
        Float { n: number_to_float(&number_of_u64(0)) }
    }

    /// A whole number as a float.
    pub fn of_u64(n: u64) -> (r: Float)
        ensures
            r@ == float_bits(Num::Pos(n)),
    {
        Float { n: number_to_float(&number_of_u64(n)) }
    }

    /// A JSON number as a float.
    pub fn of_json(j: &Json) -> (r: Option<Float>)
        ensures
            opt_bits(r) == j@.as_float(),
    {
        match j {
            Json::Num(n) => Some(Float { n: number_to_float(n) }),
            _ => None,
        }
    }

    /// The bits.
    pub fn bits(&self) -> (r: u64)
        ensures
            r == self@,
    {
        match num_of(&self.n) {
            Num::Float(b) => b,
            _ => 0,
        }
    }

    /// Whether this float is less than another.
    pub fn lt(&self, other: &Float) -> (r: bool)
        ensures
            r == float_lt(self@, other@),
    {
        bits_lt(self.bits(), other.bits())
    }

    /// The float as a JSON number.
    pub fn json(&self) -> (r: Json)
        ensures
            r@ == Doc::Num(Num::Float(self@)),
    {
        proof {
            use_type_invariant(&*self);
        }
        Json::Num(self.n.clone())
    }
}

/// An optional float by its bits.
pub open spec fn opt_bits(o: Option<Float>) -> Option<u64> {
    match o {
        Some(f) => Some(f@),
        None => None,
    }
}

/// Floats by their bits.
pub open spec fn all_bits(s: Seq<Float>) -> Seq<u64> {
    s.map_values(|f: Float| f@)
}

/// A position or a velocity. A coordinate that is no finite number is not there.
pub struct Point {
    pub x: Option<Float>,
    pub y: Option<Float>,
}

/// A `Point` by its bits.
#[verifier::ext_equal]
pub ghost struct Vec2 {
    pub x: Option<u64>,
    pub y: Option<u64>,
}

impl View for Point {
    type V = Vec2;

    open spec fn view(&self) -> Vec2 {
        Vec2 { x: opt_bits(self.x), y: opt_bits(self.y) }
    }
}

/// Copies an optional float.
pub fn dup_float(o: &Option<Float>) -> (r: Option<Float>)
    ensures
        opt_bits(r) == opt_bits(*o),
{
    match o {
        Some(f) => Some(f.dup()),
        None => None,
    }
}

impl Dup for Point {
    fn dup(&self) -> (r: Point) {
        Point { x: dup_float(&self.x), y: dup_float(&self.y) }
    }
}

/// A coordinate as a document: null where it is not there.
pub open spec fn coordinate_doc(c: Option<u64>) -> Doc {
    match c {
        Some(b) => Doc::Num(Num::Float(b)),
        None => Doc::Null,
    }
}

impl Vec2 {
    pub open spec fn zero() -> Vec2 {
        Vec2 { x: Some(0), y: Some(0) }
    }

    /// The point as an array of two numbers.
    pub open spec fn doc(self) -> Doc {
        Doc::Arr(seq![coordinate_doc(self.x), coordinate_doc(self.y)])
    }
}

/// The float at position `i` of an array; zero where there is no number.
pub open spec fn coordinate(s: Seq<Doc>, i: int) -> u64 {
    if i < s.len() {
        match s[i].as_float() {
            Some(b) => b,
            None => 0,
        }
    } else {
        0
    }
}

/// The point that a document denotes: the first two elements of an array, and the
/// origin where it is none.
pub open spec fn point_of(d: Option<Doc>) -> Vec2 {
    match d {
        Some(Doc::Arr(s)) => Vec2 { x: Some(coordinate(s, 0)), y: Some(coordinate(s, 1)) },
        _ => Vec2::zero(),
    }
}

fn coordinate_at(v: &Vec<Json>, i: usize) -> (r: Float)
    ensures
        r@ == coordinate(docs(v@), i as int),
{
    if i < v.len() {
        assert(docs(v@)[i as int] == v@[i as int]@);
        match Float::of_json(&v[i]) {
            Some(f) => f,
            None => Float::zero(),
        }
    } else {
        Float::zero()
    }
}

/// The point that a value denotes.
pub fn arr2(v: Option<&Json>) -> (r: Point)
    ensures
        r@ == point_of(opt_doc(v)),
{
    match v {
        Some(j) => match j.as_array() {
            Some(a) => Point { x: Some(coordinate_at(a, 0)), y: Some(coordinate_at(a, 1)) },
            None => Point { x: Some(Float::zero()), y: Some(Float::zero()) },
        },
        None => Point { x: Some(Float::zero()), y: Some(Float::zero()) },
    }
}

/// A coordinate as a value.
pub fn coordinate_json(c: &Option<Float>) -> (r: Json)
    ensures
        r@ == coordinate_doc(opt_bits(*c)),
{
    match c {
        Some(f) => f.json(),
        None => Json::Null,
    }
}

impl Point {
    /// The point as an array of two numbers.
    pub fn json(&self) -> (r: Json)
        ensures
            r@ == self@.doc(),
    {
        let mut v: Vec<Json> = Vec::new();
        v.push(coordinate_json(&self.x));
        v.push(coordinate_json(&self.y));
        proof {
            assert(docs(v@) =~= seq![coordinate_doc(self@.x), coordinate_doc(self@.y)]);
        }
        Json::Arr(v)
    }
}

/// A point that is there in full is what its array denotes.
pub proof fn law_point_round_trip(p: Vec2)
    requires
        p.x is Some,
        p.y is Some,
    ensures
        point_of(Some(p.doc())) == p,
{
}

}

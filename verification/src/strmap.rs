//! Maps and sets keyed by text.

use vstd::prelude::*;
use crate::order::{
    lemma_lt_irreflexive, lemma_lt_total, lemma_lt_trans, lemma_sorted, sorted, strictly_sorted,
};
use crate::text::{str_eq, str_lt, text_lt};

verus! {

/// Whether some pair of `s` has the key `k`.
pub open spec fn has_key<V>(s: Seq<(String, V)>, k: Seq<char>) -> bool {
    exists|i: int| 0 <= i < s.len() && (#[trigger] s[i]).0@ == k
}

/// A position of the key `k` in `s`.
pub open spec fn key_pos<V>(s: Seq<(String, V)>, k: Seq<char>) -> int {
    choose|i: int| 0 <= i < s.len() && (#[trigger] s[i]).0@ == k
}

/// Whether no key occurs twice.
pub open spec fn keys_distinct<V>(s: Seq<(String, V)>) -> bool {
    forall|i: int, j: int|
        0 <= i < s.len() && 0 <= j < s.len() && i != j ==> (#[trigger] s[i]).0@ != (
        #[trigger] s[j]).0@
}

/// Whether each key comes before the next.
pub open spec fn keys_ordered<V>(s: Seq<(String, V)>) -> bool {
    forall|i: int, j: int|
        0 <= i < j < s.len() ==> text_lt((#[trigger] s[i]).0@, (#[trigger] s[j]).0@)
}

/// Keys in order are distinct.
pub(crate) proof fn lemma_ordered<V>(s: Seq<(String, V)>)
    requires
        keys_ordered(s),
    ensures
        keys_distinct(s),
{
    assert forall|i: int, j: int| 0 <= i < s.len() && 0 <= j < s.len() && i != j implies (
    #[trigger] s[i]).0@ != (#[trigger] s[j]).0@ by {
        if i < j {
            lemma_lt_irreflexive(s[i].0@, s[j].0@);
        } else {
            lemma_lt_irreflexive(s[j].0@, s[i].0@);
        }
    }
}

/// A list of strings by their views.
pub open spec fn texts(s: Seq<String>) -> Seq<Seq<char>> {
    s.map_values(|t: String| t@)
}

/// A value that can be copied with its view.
pub trait Dup: View + Sized {
    fn dup(&self) -> (r: Self)
        ensures
            r@ == self@,
    ;
}

/// A map from texts to values, in the order of the keys.
pub struct StrMap<V> {
    pub(crate) items: Vec<(String, V)>,
}

impl<V> StrMap<V> {
    #[verifier::type_invariant]
    pub(crate) closed spec fn inv(self) -> bool {
        keys_ordered(self.items@)
    }

    /// The keys, in order.
    pub closed spec fn order(self) -> Seq<Seq<char>> {
        self.items@.map_values(|p: (String, V)| p.0@)
    }
}

impl<V: View> View for StrMap<V> {
    type V = Map<Seq<char>, V::V>;

    closed spec fn view(&self) -> Map<Seq<char>, V::V> {
        Map::new(
            |k: Seq<char>| has_key(self.items@, k),
            |k: Seq<char>| self.items@[key_pos(self.items@, k)].1@,
        )
    }
}

/// Taking a key out before it is set changes nothing.
pub broadcast proof fn lemma_remove_insert<K, V>(m: Map<K, V>, k: K, v: V)
    ensures
        #[trigger] m.remove(k).insert(k, v) == m.insert(k, v),
{
    assert(m.remove(k).insert(k, v) =~= m.insert(k, v));
}

/// Setting a key twice is setting it once.
pub broadcast proof fn lemma_insert_insert<K, V>(m: Map<K, V>, k: K, u: V, v: V)
    ensures
        #[trigger] m.insert(k, u).insert(k, v) == m.insert(k, v),
{
    assert(m.insert(k, u).insert(k, v) =~= m.insert(k, v));
}

/// Taking out a key that is not there changes nothing.
pub broadcast proof fn lemma_remove_absent<K, V>(m: Map<K, V>, k: K)
    requires
        !m.contains_key(k),
    ensures
        #[trigger] m.remove(k) == m,
{
    assert(m.remove(k) =~= m);
}

pub broadcast group group_map {
    lemma_remove_insert,
    lemma_insert_insert,
    lemma_remove_absent,
}

proof fn lemma_at<V>(items: Seq<(String, V)>, i: int)
    requires
        keys_distinct(items),
        0 <= i < items.len(),
    ensures
        has_key(items, items[i].0@),
        key_pos(items, items[i].0@) == i,
{
    assert(has_key(items, items[i].0@));
}

/// What a list of pairs is after the value of a pair was replaced.
proof fn lemma_set<V: View>(before: Seq<(String, V)>, i: int, p: (String, V))
    requires
        keys_ordered(before),
        0 <= i < before.len(),
        before[i].0@ == p.0@,
    ensures
        keys_ordered(before.update(i, p)),
        has_key(before, p.0@),
        forall|q: Seq<char>| #[trigger]
            has_key(before.update(i, p), q) == has_key(before, q),
        forall|q: Seq<char>| #[trigger]
            has_key(before, q) ==> before.update(i, p)[key_pos(before.update(i, p), q)].1@ == if q
                == p.0@ {
                p.1@
            } else {
                before[key_pos(before, q)].1@
            },
{
    let after = before.update(i, p);
    assert forall|a: int, b: int| 0 <= a < b < after.len() implies text_lt(
        (#[trigger] after[a]).0@,
        (#[trigger] after[b]).0@,
    ) by {
        assert(text_lt(before[a].0@, before[b].0@));
    }
    lemma_ordered(before);
    lemma_ordered(after);
    lemma_at(before, i);
    assert forall|q: Seq<char>| #[trigger] has_key(after, q) == has_key(before, q) by {
        if has_key(before, q) {
            assert(after[key_pos(before, q)].0@ == q);
        }
        if has_key(after, q) {
            assert(before[key_pos(after, q)].0@ == q);
        }
    }
    assert forall|q: Seq<char>| #[trigger] has_key(before, q) implies after[key_pos(after, q)].1@
        == if q == p.0@ {
        p.1@
    } else {
        before[key_pos(before, q)].1@
    } by {
        let j = key_pos(before, q);
        assert(after[j].0@ == q);
        lemma_at(after, j);
    }
}

/// What a list of pairs is after a pair was put in its place.
proof fn lemma_insert<V: View>(before: Seq<(String, V)>, i: int, p: (String, V))
    requires
        keys_ordered(before),
        0 <= i <= before.len(),
        forall|j: int| 0 <= j < i ==> text_lt((#[trigger] before[j]).0@, p.0@),
        i < before.len() ==> text_lt(p.0@, before[i].0@),
    ensures
        keys_ordered(before.insert(i, p)),
        !has_key(before, p.0@),
        has_key(before.insert(i, p), p.0@),
        before.insert(i, p)[key_pos(before.insert(i, p), p.0@)].1@ == p.1@,
        forall|q: Seq<char>|
            q != p.0@ ==> #[trigger] has_key(before.insert(i, p), q) == has_key(before, q),
        forall|q: Seq<char>|
            q != p.0@ && #[trigger] has_key(before, q) ==> before.insert(i, p)[key_pos(
                before.insert(i, p),
                q,
            )].1@ == before[key_pos(before, q)].1@,
{
    let after = before.insert(i, p);
    assert forall|j: int| i <= j < before.len() implies text_lt(
        p.0@,
        (#[trigger] before[j]).0@,
    ) by {
        if j > i {
            lemma_lt_trans(p.0@, before[i].0@, before[j].0@);
        }
    }
    assert forall|a: int, b: int| 0 <= a < b < after.len() implies text_lt(
        (#[trigger] after[a]).0@,
        (#[trigger] after[b]).0@,
    ) by {
        let a2 = if a < i { a } else { a - 1 };
        let b2 = if b < i { b } else { b - 1 };
        if a != i && b != i {
            assert(text_lt(before[a2].0@, before[b2].0@));
        } else if b == i {
            assert(text_lt(before[a].0@, p.0@));
        } else {
            assert(text_lt(p.0@, before[b2].0@));
        }
    }
    lemma_ordered(before);
    lemma_ordered(after);
    if has_key(before, p.0@) {
        let j = key_pos(before, p.0@);
        lemma_lt_total(before[j].0@, p.0@);
    }
    assert(after[i] == p);
    lemma_at(after, i);
    assert forall|q: Seq<char>| q != p.0@ implies #[trigger] has_key(after, q) == has_key(
        before,
        q,
    ) by {
        if has_key(before, q) {
            let j = key_pos(before, q);
            let j2 = if j < i { j } else { j + 1 };
            assert(after[j2].0@ == q);
        }
        if has_key(after, q) {
            let j = key_pos(after, q);
            let j2 = if j < i { j } else { j - 1 };
            assert(before[j2].0@ == q);
        }
    }
    assert forall|q: Seq<char>| q != p.0@ && #[trigger] has_key(before, q) implies after[key_pos(
        after,
        q,
    )].1@ == before[key_pos(before, q)].1@ by {
        let j = key_pos(before, q);
        let j2 = if j < i { j } else { j + 1 };
        assert(after[j2] == before[j]);
        lemma_at(after, j2);
    }
}

proof fn lemma_remove<V: View>(before: Seq<(String, V)>, after: Seq<(String, V)>, i: int)
    requires
        keys_distinct(before),
        keys_distinct(after),
        0 <= i < before.len(),
        after == before.remove(i),
    ensures
        !has_key(after, before[i].0@),
        forall|q: Seq<char>|
            #![auto]
            q != before[i].0@ ==> has_key(after, q) == has_key(before, q),
        forall|q: Seq<char>|
            #![auto]
            q != before[i].0@ && has_key(before, q) ==> after[key_pos(after, q)].1@
                == before[key_pos(before, q)].1@,
{
    let k = before[i].0@;
    if has_key(after, k) {
        let j = key_pos(after, k);
        let j2 = if j < i { j } else { j + 1 };
        assert(after[j] == before[j2]);
    }
    assert forall|q: Seq<char>| #![auto] q != k implies has_key(after, q) == has_key(before, q) && (
    has_key(before, q) ==> after[key_pos(after, q)].1@ == before[key_pos(before, q)].1@) by {
        if has_key(before, q) {
            let j = key_pos(before, q);
            let j2 = if j < i { j } else { j - 1 };
            assert(after[j2] == before[j]);
            lemma_at(after, j2);
        }
        if has_key(after, q) {
            let j = key_pos(after, q);
            let j2 = if j < i { j } else { j + 1 };
            assert(after[j] == before[j2]);
        }
    }
}

impl<V: View> StrMap<V> {
    /// The map by its pairs.
    pub(crate) proof fn lemma_view(&self)
        ensures
            self@ == Map::new(
                |k: Seq<char>| has_key(self.items@, k),
                |k: Seq<char>| self.items@[key_pos(self.items@, k)].1@,
            ),
    {
    }

    /// The pairs of the map: no key occurs twice.
    pub(crate) fn pairs(&self) -> (r: &Vec<(String, V)>)
        ensures
            *r == self.items,
            keys_distinct(r@),
    {
        proof {
            use_type_invariant(&*self);
            lemma_ordered(self.items@);
        }
        &self.items
    }

    /// The empty map.
    pub fn new() -> (r: StrMap<V>)
        ensures
            r@ == Map::<Seq<char>, V::V>::empty(),
            r.order() == Seq::<Seq<char>>::empty(),
    {
        let r = StrMap { items: Vec::new() };
        proof {
            assert(r@ =~= Map::<Seq<char>, V::V>::empty());
            assert(r.order() =~= Seq::<Seq<char>>::empty());
        }
        r
    }

    /// Where `k` is, or where it belongs.
    fn find(&self, k: &str) -> (r: (usize, bool))
        ensures
            r.0 <= self.items.len(),
            forall|j: int| 0 <= j < r.0 ==> text_lt((#[trigger] self.items@[j]).0@, k@),
            r.1 ==> r.0 < self.items.len() && self.items@[r.0 as int].0@ == k@,
            !r.1 ==> !has_key(self.items@, k@) && (r.0 < self.items.len() ==> text_lt(
                k@,
                self.items@[r.0 as int].0@,
            )),
    {
        proof {
            use_type_invariant(&*self);
        }
        let n: usize = self.items.len();
        let mut lo: usize = 0;
        let mut hi: usize = n;
        while lo < hi
            invariant
                lo <= hi <= n == self.items.len(),
                keys_ordered(self.items@),
                forall|j: int| 0 <= j < lo ==> text_lt((#[trigger] self.items@[j]).0@, k@),
                forall|j: int| hi <= j < n ==> !text_lt((#[trigger] self.items@[j]).0@, k@),
            decreases hi - lo,
        {
            let mid: usize = lo + (hi - lo) / 2;
            if str_lt(self.items[mid].0.as_str(), k) {
                proof {
                    assert forall|j: int| 0 <= j < mid + 1 implies text_lt(
                        (#[trigger] self.items@[j]).0@,
                        k@,
                    ) by {
                        if j < mid {
                            lemma_lt_trans(self.items@[j].0@, self.items@[mid as int].0@, k@);
                        }
                    }
                }
                lo = mid + 1;
            } else {
                proof {
                    assert forall|j: int| mid <= j < n implies !text_lt(
                        (#[trigger] self.items@[j]).0@,
                        k@,
                    ) by {
                        if j > mid && text_lt(self.items@[j].0@, k@) {
                            lemma_lt_trans(self.items@[mid as int].0@, self.items@[j].0@, k@);
                        }
                    }
                }
                hi = mid;
            }
        }
        let here: bool = lo < n && str_eq(self.items[lo].0.as_str(), k);
        proof {
            if !here {
                if lo < n {
                    lemma_lt_total(self.items@[lo as int].0@, k@);
                }
                if has_key(self.items@, k@) {
                    let j = key_pos(self.items@, k@);
                    lemma_lt_total(k@, k@);
                    if j > lo {
                        assert(text_lt(self.items@[lo as int].0@, self.items@[j].0@));
                        lemma_lt_trans(k@, self.items@[lo as int].0@, k@);
                    }
                }
            }
        }
        (lo, here)
    }

    /// The value at `k`.
    pub fn get(&self, k: &str) -> (r: Option<&V>)
        ensures
            match r {
                Some(v) => self@.contains_key(k@) && self@[k@] == v@,
                None => !self@.contains_key(k@),
            },
    {
        proof {
            use_type_invariant(&*self);
            lemma_ordered(self.items@);
        }
        let (i, here) = self.find(k);
        if here {
            proof {
                lemma_at(self.items@, i as int);
            }
            Some(&self.items[i].1)
        } else {
            None
        }
    }

    /// Whether `k` is a key.
    pub fn contains_key(&self, k: &str) -> (r: bool)
        ensures
            r == self@.contains_key(k@),
    {
        self.get(k).is_some()
    }

    /// Sets the value at `k`.
    pub fn insert(&mut self, k: &str, v: V)
        ensures
            final(self)@ == old(self)@.insert(k@, v@),
    {
        proof {
            use_type_invariant(&*self);
        }
        let ghost before = self.items@;
        let (i, here) = self.find(k);
        let mut items: Vec<(String, V)> = Vec::new();
        core::mem::swap(&mut self.items, &mut items);
        let pair: (String, V) = (k.to_owned(), v);
        let ghost p = pair;
        if here {
            proof {
                lemma_set(before, i as int, p);
            }
            items.set(i, pair);
        } else {
            proof {
                lemma_insert(before, i as int, p);
            }
            items.insert(i, pair);
        }
        self.items = items;
        proof {
            assert(self@ =~= old(self)@.insert(k@, v@));
        }
    }

    /// Takes the value at `k` out of the map.
    pub fn remove(&mut self, k: &str) -> (r: Option<V>)
        ensures
            final(self)@ == old(self)@.remove(k@),
            match r {
                Some(v) => old(self)@.contains_key(k@) && v@ == old(self)@[k@],
                None => !old(self)@.contains_key(k@),
            },
    {
        proof {
            use_type_invariant(&*self);
            lemma_ordered(self.items@);
        }
        let ghost before = self.items@;
        let (i, here) = self.find(k);
        if !here {
            proof {
                assert(self@ =~= old(self)@.remove(k@));
            }
            return None;
        }
        let mut items: Vec<(String, V)> = Vec::new();
        core::mem::swap(&mut self.items, &mut items);
        let (_key, v) = items.remove(i);
        proof {
            assert forall|a: int, b: int| 0 <= a < b < items@.len() implies text_lt(
                (#[trigger] items@[a]).0@,
                (#[trigger] items@[b]).0@,
            ) by {
                let a2 = if a < i { a } else { a + 1 };
                let b2 = if b < i { b } else { b + 1 };
                assert(items@[a] == before[a2]);
                assert(items@[b] == before[b2]);
            }
            lemma_ordered(items@);
        }
        self.items = items;
        proof {
            lemma_at(before, i as int);
            lemma_remove(before, self.items@, i as int);
            assert(self@ =~= old(self)@.remove(k@));
        }
        Some(v)
    }

    proof fn lemma_order(&self)
        requires
            self.inv(),
        ensures
            self.order().no_duplicates(),
            self.order().to_set() == self@.dom(),
            self@.dom().finite(),
            self@.dom().len() == self.order().len(),
            strictly_sorted(self.order()),
            self.order() == sorted(self@.dom()),
    {
        lemma_ordered(self.items@);
        let o = self.order();
        assert forall|i: int, j: int| 0 <= i < o.len() && 0 <= j < o.len() && i != j implies o[i]
            != o[j] by {
            assert(self.items@[i].0@ != self.items@[j].0@);
        }
        assert forall|k: Seq<char>| o.to_set().contains(k) == self@.dom().contains(k) by {
            if has_key(self.items@, k) {
                let i = key_pos(self.items@, k);
                assert(o[i] == k);
            }
            if o.contains(k) {
                let i = choose|i: int| 0 <= i < o.len() && o[i] == k;
                assert(self.items@[i].0@ == k);
            }
        }
        assert(o.to_set() =~= self@.dom());
        o.unique_seq_to_set();
        assert(strictly_sorted(o));
        lemma_sorted(o);
    }

    /// How many keys there are.
    pub fn len(&self) -> (r: usize)
        ensures
            r == self@.dom().len(),
            r == self.order().len(),
            self@.dom().finite(),
            self.order().no_duplicates(),
            self.order().to_set() == self@.dom(),
    {
        proof {
            use_type_invariant(&*self);
            self.lemma_order();
        }
        self.items.len()
    }

    /// Whether there is no key.
    pub fn is_empty(&self) -> (r: bool)
        ensures
            r == (self@ == Map::<Seq<char>, V::V>::empty()),
    {
        proof {
            use_type_invariant(&*self);
            self.lemma_order();
            if self@.dom().len() == 0 {
                assert(self@.dom() =~= Set::empty());
                assert(self@ =~= Map::<Seq<char>, V::V>::empty());
            }
        }
        self.items.len() == 0
    }

    /// The `i`-th key.
    pub fn key_at(&self, i: usize) -> (r: &str)
        requires
            i < self.order().len(),
        ensures
            r@ == self.order()[i as int],
            self@.contains_key(r@),
    {
        proof {
            use_type_invariant(&*self);
            lemma_ordered(self.items@);
            lemma_at(self.items@, i as int);
        }
        self.items[i].0.as_str()
    }

    /// The value at the `i`-th key.
    pub fn value_at(&self, i: usize) -> (r: &V)
        requires
            i < self.order().len(),
        ensures
            self@.contains_key(self.order()[i as int]),
            r@ == self@[self.order()[i as int]],
    {
        proof {
            use_type_invariant(&*self);
            lemma_ordered(self.items@);
            lemma_at(self.items@, i as int);
        }
        &self.items[i].1
    }

    /// The value at the `i`-th key, as a part of the map.
    pub(crate) fn raw_value(&self, i: usize) -> (r: &V)
        requires
            i < self.order().len(),
        ensures
            i < self.items@.len(),
            *r == self.items@[i as int].1,
            self@.contains_key(self.order()[i as int]),
            r@ == self@[self.order()[i as int]],
    {
        self.value_at(i);
        proof {
            use_type_invariant(&*self);
            lemma_ordered(self.items@);
            lemma_at(self.items@, i as int);
        }
        &self.items[i].1
    }

    /// The keys, in order.
    pub fn keys(&self) -> (r: Vec<String>)
        ensures
            texts(r@) == self.order(),
            self.order().no_duplicates(),
            self.order().to_set() == self@.dom(),
            self.order() == sorted(self@.dom()),
            strictly_sorted(self.order()),
    {
        proof {
            use_type_invariant(&*self);
            self.lemma_order();
        }
        let mut r: Vec<String> = Vec::new();
        let mut i: usize = 0;
        while i < self.items.len()
            invariant
                i <= self.items.len(),
                r.len() == i,
                forall|j: int| 0 <= j < i ==> (#[trigger] r@[j])@ == self.items@[j].0@,
            decreases self.items.len() - i,
        {
            r.push(self.items[i].0.clone());
            i = i + 1;
        }
        proof {
            assert(texts(r@) =~= self.order());
        }
        r
    }
}

impl<V: Dup> Dup for StrMap<V> {
    fn dup(&self) -> (r: StrMap<V>)
        ensures
            r.order() == self.order(),
    {
        proof {
            use_type_invariant(&*self);
        }
        let mut items: Vec<(String, V)> = Vec::new();
        let mut i: usize = 0;
        while i < self.items.len()
            invariant
                i <= self.items.len(),
                items.len() == i,
                forall|j: int|
                    0 <= j < i ==> (#[trigger] items@[j]).0@ == self.items@[j].0@ && items@[j].1@
                        == self.items@[j].1@,
            decreases self.items.len() - i,
        {
            items.push((self.items[i].0.clone(), self.items[i].1.dup()));
            i = i + 1;
        }
        proof {
            assert forall|a: int, b: int| 0 <= a < b < items@.len() implies text_lt(
                (#[trigger] items@[a]).0@,
                (#[trigger] items@[b]).0@,
            ) by {
                assert(text_lt(self.items@[a].0@, self.items@[b].0@));
            }
        }
        let r = StrMap { items };
        proof {
            lemma_ordered(self.items@);
            lemma_ordered(r.items@);
            assert forall|k: Seq<char>| #![auto] has_key(self.items@, k) == has_key(r.items@, k) && (
            has_key(self.items@, k) ==> self.items@[key_pos(self.items@, k)].1@ == r.items@[key_pos(
                r.items@,
                k,
            )].1@) by {
                if has_key(self.items@, k) {
                    let j = key_pos(self.items@, k);
                    assert(r.items@[j].0@ == k);
                    lemma_at(r.items@, j);
                }
                if has_key(r.items@, k) {
                    let j = key_pos(r.items@, k);
                    assert(self.items@[j].0@ == k);
                }
            }
            assert(r@ =~= self@);
            assert(r.order() =~= self.order());
        }
        r
    }
}

impl Dup for u64 {
    fn dup(&self) -> (r: u64) {
        *self
    }
}

impl Dup for () {
    fn dup(&self) -> (r: ()) {
    }
}

impl Dup for String {
    fn dup(&self) -> (r: String) {
        self.clone()
    }
}

/// A set of texts.
pub struct StrSet {
    map: StrMap<()>,
}

impl View for StrSet {
    type V = Set<Seq<char>>;

    closed spec fn view(&self) -> Set<Seq<char>> {
        self.map@.dom()
    }
}

impl Dup for StrSet {
    fn dup(&self) -> (r: StrSet) {
        StrSet { map: self.map.dup() }
    }
}

impl StrSet {
    /// The members, in order.
    pub closed spec fn order(self) -> Seq<Seq<char>> {
        self.map.order()
    }

    /// The empty set.
    pub fn new() -> (r: StrSet)
        ensures
            r@ == Set::<Seq<char>>::empty(),
    {
        let r = StrSet { map: StrMap::new() };
        proof {
            assert(r@ =~= Set::<Seq<char>>::empty());
        }
        r
    }

    /// Whether `k` is a member.
    pub fn contains(&self, k: &str) -> (r: bool)
        ensures
            r == self@.contains(k@),
    {
        self.map.contains_key(k)
    }

    /// Adds `k`.
    pub fn insert(&mut self, k: &str)
        ensures
            final(self)@ == old(self)@.insert(k@),
    {
        self.map.insert(k, ());
        proof {
            assert(self@ =~= old(self)@.insert(k@));
        }
    }

    /// Takes `k` out, and says whether it was a member.
    pub fn remove(&mut self, k: &str) -> (r: bool)
        ensures
            final(self)@ == old(self)@.remove(k@),
            r == old(self)@.contains(k@),
    {
        let was = self.map.remove(k);
        proof {
            assert(self@ =~= old(self)@.remove(k@));
        }
        was.is_some()
    }

    /// How many members there are.
    pub fn len(&self) -> (r: usize)
        ensures
            r == self@.len(),
            self@.finite(),
    {
        self.map.len()
    }

    /// The members, in order.
    pub fn members(&self) -> (r: Vec<String>)
        ensures
            texts(r@) == self.order(),
            self.order().no_duplicates(),
            self.order().to_set() == self@,
            self.order() == sorted(self@),
            strictly_sorted(self.order()),
    {
        self.map.keys()
    }
}

}

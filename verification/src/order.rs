//! Sets of texts in their order.

use vstd::prelude::*;
use vstd::utf8::encode_utf8;
use crate::json::lemma_push_contains;
use crate::strmap::{texts, StrSet};
use crate::text::{lemma_bytes_lt_total, lemma_bytes_lt_trans, lemma_utf8_injective, text_lt};

verus! {

/// Whether each text comes before the next.
pub open spec fn strictly_sorted(q: Seq<Seq<char>>) -> bool {
    forall|i: int, j: int| 0 <= i < j < q.len() ==> text_lt(#[trigger] q[i], #[trigger] q[j])
}

/// The members of a set in order.
pub open spec fn sorted(s: Set<Seq<char>>) -> Seq<Seq<char>> {
    choose|q: Seq<Seq<char>>| strictly_sorted(q) && q.to_set() == s
}

/// Of two texts one comes before the other, or they are the same.
pub proof fn lemma_lt_total(a: Seq<char>, b: Seq<char>)
    ensures
        a == b || text_lt(a, b) || text_lt(b, a),
        !(text_lt(a, b) && text_lt(b, a)),
        a == b ==> !text_lt(a, b),
{
    lemma_bytes_lt_total(encode_utf8(a), encode_utf8(b));
    if encode_utf8(a) == encode_utf8(b) {
        lemma_utf8_injective(a, b);
    }
}

/// A text does not come before itself.
pub proof fn lemma_lt_irreflexive(a: Seq<char>, b: Seq<char>)
    requires
        text_lt(a, b),
    ensures
        a != b,
{
    lemma_lt_total(a, b);
}

/// What comes before comes before what follows.
pub proof fn lemma_lt_trans(a: Seq<char>, b: Seq<char>, c: Seq<char>)
    requires
        text_lt(a, b),
        text_lt(b, c),
    ensures
        text_lt(a, c),
{
    lemma_bytes_lt_trans(encode_utf8(a), encode_utf8(b), encode_utf8(c));
}

proof fn lemma_same_set(p: Seq<Seq<char>>, q: Seq<Seq<char>>)
    requires
        strictly_sorted(p),
        strictly_sorted(q),
        p.to_set() == q.to_set(),
    ensures
        p == q,
    decreases p.len(),
{
    assert forall|k: Seq<char>| p.contains(k) == q.contains(k) by {
        assert(p.to_set().contains(k) == p.contains(k));
        assert(q.to_set().contains(k) == q.contains(k));
    }
    if p.len() == 0 {
        if q.len() > 0 {
            assert(q.contains(q[0]));
        }
        assert(p =~= q);
    } else {
        assert(p.contains(p.last()));
        let i = choose|i: int| 0 <= i < q.len() && q[i] == p.last();
        assert(q.contains(q.last()));
        let j = choose|j: int| 0 <= j < p.len() && p[j] == q.last();
        if i < q.len() - 1 {
            assert(text_lt(q[i], q[q.len() - 1]));
            if j < p.len() - 1 {
                assert(text_lt(p[j], p[p.len() - 1]));
            }
            lemma_lt_total(p.last(), q.last());
        }
        let a = p.drop_last();
        let b = q.drop_last();
        assert forall|k: Seq<char>| a.to_set().contains(k) == b.to_set().contains(k) by {
            assert(p =~= a.push(p.last()));
            assert(q =~= b.push(q.last()));
            lemma_push_contains(a, p.last(), k);
            lemma_push_contains(b, q.last(), k);
            if a.contains(p.last()) {
                let m = choose|m: int| 0 <= m < a.len() && a[m] == p.last();
                assert(p[m] == p.last());
                assert(text_lt(p[m], p[p.len() - 1]));
                lemma_lt_total(p.last(), p.last());
            }
            if b.contains(q.last()) {
                let m = choose|m: int| 0 <= m < b.len() && b[m] == q.last();
                assert(q[m] == q.last());
                assert(text_lt(q[m], q[q.len() - 1]));
                lemma_lt_total(q.last(), q.last());
            }
        }
        assert(a.to_set() =~= b.to_set());
        assert forall|m: int, n: int| 0 <= m < n < a.len() implies text_lt(
            #[trigger] a[m],
            #[trigger] a[n],
        ) by {
            assert(text_lt(p[m], p[n]));
        }
        assert forall|m: int, n: int| 0 <= m < n < b.len() implies text_lt(
            #[trigger] b[m],
            #[trigger] b[n],
        ) by {
            assert(text_lt(q[m], q[n]));
        }
        lemma_same_set(a, b);
        assert(p =~= a.push(p.last()));
        assert(q =~= b.push(q.last()));
    }
}

/// There is one way to put a set in order.
pub proof fn lemma_sorted(q: Seq<Seq<char>>)
    requires
        strictly_sorted(q),
    ensures
        sorted(q.to_set()) == q,
{
    let s = q.to_set();
    assert(strictly_sorted(q) && q.to_set() == s);
    lemma_same_set(sorted(s), q);
}

spec fn spot(q: Seq<Seq<char>>, a: Seq<char>, i: int) -> int
    decreases q.len() - i,
{
    if 0 <= i < q.len() && text_lt(q[i], a) {
        spot(q, a, i + 1)
    } else {
        i
    }
}

proof fn lemma_spot(q: Seq<Seq<char>>, a: Seq<char>, i: int)
    requires
        0 <= i <= q.len(),
        forall|j: int| 0 <= j < i ==> text_lt(#[trigger] q[j], a),
    ensures
        i <= spot(q, a, i) <= q.len(),
        forall|j: int| 0 <= j < spot(q, a, i) ==> text_lt(#[trigger] q[j], a),
        spot(q, a, i) < q.len() ==> !text_lt(q[spot(q, a, i)], a),
    decreases q.len() - i,
{
    if i < q.len() && text_lt(q[i], a) {
        lemma_spot(q, a, i + 1);
    }
}

proof fn lemma_insert_sorted(before: Seq<Seq<char>>, a: Seq<char>, i: int)
    requires
        strictly_sorted(before),
        0 <= i <= before.len(),
        forall|j: int| 0 <= j < i ==> text_lt(#[trigger] before[j], a),
        i < before.len() ==> !text_lt(before[i], a) && before[i] != a,
    ensures
        strictly_sorted(before.insert(i, a)),
        forall|k: Seq<char>|
            #[trigger] before.insert(i, a).contains(k) <==> before.contains(k) || k == a,
{
    let after = before.insert(i, a);
    assert forall|m: int, n: int| 0 <= m < n < after.len() implies text_lt(
        #[trigger] after[m],
        #[trigger] after[n],
    ) by {
        let m2 = if m < i { m } else { m - 1 };
        let n2 = if n < i { n } else { n - 1 };
        if m != i && n != i {
            assert(text_lt(before[m2], before[n2]));
        } else if n == i {
            assert(text_lt(before[m], a));
        } else {
            lemma_lt_total(before[i], a);
            if n2 > i {
                assert(text_lt(before[i], before[n2]));
                lemma_lt_trans(a, before[i], before[n2]);
            }
        }
    }
    assert forall|k: Seq<char>| #[trigger] after.contains(k) <==> before.contains(k) || k == a by {
        if before.contains(k) {
            let j = choose|j: int| 0 <= j < before.len() && before[j] == k;
            let j2 = if j < i { j } else { j + 1 };
            assert(after[j2] == k);
        }
        if k == a {
            assert(after[i] == k);
        }
        if after.contains(k) {
            let j = choose|j: int| 0 <= j < after.len() && after[j] == k;
            let j2 = if j < i { j } else { j - 1 };
            if j != i {
                assert(before[j2] == k);
            }
        }
    }
}

/// Every finite set can be put in order.
pub proof fn lemma_sorted_of(s: Set<Seq<char>>)
    requires
        s.finite(),
    ensures
        strictly_sorted(sorted(s)),
        sorted(s).to_set() == s,
        sorted(s).len() == s.len(),
    decreases s.len(),
{
    if s.len() == 0 {
        let q = Seq::<Seq<char>>::empty();
        assert(s =~= Set::empty());
        assert(q.to_set() =~= s);
        lemma_sorted(q);
    } else {
        let a = s.choose();
        let rest = s.remove(a);
        lemma_sorted_of(rest);
        let q = sorted(rest);
        lemma_spot(q, a, 0);
        let i = spot(q, a, 0);
        if i < q.len() && q[i] == a {
            assert(q.contains(a));
            assert(q.to_set().contains(a));
        }
        lemma_insert_sorted(q, a, i);
        let p = q.insert(i, a);
        assert forall|k: Seq<char>| p.to_set().contains(k) == s.contains(k) by {
            assert(q.to_set().contains(k) == q.contains(k));
            assert(p.to_set().contains(k) == p.contains(k));
        }
        assert(p.to_set() =~= s);
        lemma_sorted(p);
    }
}

/// Puts the members of a set in order.
pub fn sorted_texts(s: &StrSet) -> (r: Vec<String>)
    ensures
        texts(r@) == sorted(s@),
        strictly_sorted(texts(r@)),
        texts(r@).to_set() == s@,
{
    s.members()
}

}

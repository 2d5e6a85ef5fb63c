//! Lexicographic order on texts, and sorting by it.

use vstd::prelude::*;
use vstd::relations::{sorted_by, total_ordering};
use vstd::seq_lib::lemma_sorted_unique;
use crate::text::{chars_of, lex_le, rows, text_le, texts};

verus! {

/// Lexicographic order by code point, as a relation.
pub open spec fn lex_order() -> spec_fn(Seq<char>, Seq<char>) -> bool {
    |a: Seq<char>, b: Seq<char>| lex_le(a, b)
}

/// The items in non-decreasing lexicographic order.
pub open spec fn sorted_texts(items: Seq<Seq<char>>) -> Seq<Seq<char>> {
    items.sort_by(lex_order())
}

/// The items sorted, or as they are.
pub open spec fn arranged(items: Seq<Seq<char>>, sort: bool) -> Seq<Seq<char>> {
    if sort {
        sorted_texts(items)
    } else {
        items
    }
}

/// Every text sorts no later than itself.
pub proof fn lemma_lex_reflexive(a: Seq<char>)
    ensures
        lex_le(a, a),
    decreases a.len(),
{
    if a.len() > 0 {
        lemma_lex_reflexive(a.drop_first());
    }
}

/// Of two texts, one sorts no later than the other.
pub proof fn lemma_lex_total(a: Seq<char>, b: Seq<char>)
    ensures
        lex_le(a, b) || lex_le(b, a),
    decreases a.len(),
{
    if a.len() > 0 && b.len() > 0 && a[0] == b[0] {
        lemma_lex_total(a.drop_first(), b.drop_first());
    }
}

/// Two texts that sort no later than each other are the same text.
pub proof fn lemma_lex_antisymmetric(a: Seq<char>, b: Seq<char>)
    requires
        lex_le(a, b),
        lex_le(b, a),
    ensures
        a == b,
    decreases a.len(),
{
    if a.len() == 0 || b.len() == 0 {
        assert(a =~= b);
    } else {
        assert(a[0] == b[0]);
        lemma_lex_antisymmetric(a.drop_first(), b.drop_first());
        assert(a =~= seq![a[0]] + a.drop_first());
        assert(b =~= seq![b[0]] + b.drop_first());
    }
}

/// The order passes along a chain of three texts.
pub proof fn lemma_lex_transitive(a: Seq<char>, b: Seq<char>, c: Seq<char>)
    requires
        lex_le(a, b),
        lex_le(b, c),
    ensures
        lex_le(a, c),
    decreases a.len(),
{
    if a.len() > 0 && b.len() > 0 && c.len() > 0 && a[0] == b[0] && b[0] == c[0] {
        lemma_lex_transitive(a.drop_first(), b.drop_first(), c.drop_first());
    }
}

/// Lexicographic order is a total order.
pub proof fn lemma_lex_total_order()
    ensures
        total_ordering(lex_order()),
{
    let r = lex_order();
    assert forall|x: Seq<char>| #[trigger] r(x, x) by {
        lemma_lex_reflexive(x);
    }
    assert forall|x: Seq<char>, y: Seq<char>| #[trigger] r(x, y) && #[trigger] r(y, x) implies x
        == y by {
        lemma_lex_antisymmetric(x, y);
    }
    assert forall|x: Seq<char>, y: Seq<char>, z: Seq<char>| #[trigger]
        r(x, y) && #[trigger] r(y, z) implies r(x, z) by {
        lemma_lex_transitive(x, y, z);
    }
    assert forall|x: Seq<char>, y: Seq<char>| #[trigger] r(x, y) || #[trigger] r(y, x) by {
        lemma_lex_total(x, y);
    }
}

/// Sorted items are in non-decreasing order and are the same items, each as
/// often as before.
pub proof fn lemma_sorted_texts(items: Seq<Seq<char>>)
    ensures
        sorted_by(sorted_texts(items), lex_order()),
        sorted_texts(items).to_multiset() == items.to_multiset(),
        sorted_texts(items).len() == items.len(),
{
    lemma_lex_total_order();
    items.lemma_sort_by_ensures(lex_order());
    broadcast use vstd::seq_lib::to_multiset_len;
    assert(sorted_texts(items).to_multiset().len() == items.to_multiset().len());
}

/// The items in non-decreasing lexicographic order.
pub fn sort_texts(items: &[String]) -> (r: Vec<String>)
    ensures
        texts(r@) == sorted_texts(texts(items@)),
{
    let mut r: Vec<String> = Vec::new();
    let mut keys: Vec<Vec<char>> = Vec::new();
    let mut k: usize = 0;
    proof {
        assert(texts(items@).take(0) =~= Seq::empty());
        assert(rows(keys@) =~= Seq::empty());
    }
    while k < items.len()
        invariant
            k <= items.len(),
            r.len() == keys.len(),
            texts(r@) == rows(keys@),
            sorted_by(rows(keys@), lex_order()),
            rows(keys@).to_multiset() == texts(items@).take(k as int).to_multiset(),
        decreases items.len() - k,
    {
        let item = chars_of(items[k].as_str());
        let mut at: usize = 0;
        while at < keys.len() && text_le(&keys[at], &item)
            invariant
                at <= keys.len(),
                forall|j: int| 0 <= j < at ==> lex_le(#[trigger] rows(keys@)[j], item@),
            decreases keys.len() - at,
        {
            assert(rows(keys@)[at as int] == keys[at as int]@);
            at += 1;
        }
        proof {
            let before = rows(keys@);
            let after = before.insert(at as int, item@);
            assert forall|i: int, j: int| 0 <= i < j < after.len() implies #[trigger] lex_order()(
                after[i],
                after[j],
            ) by {
                if j == at {
                    assert(after[i] == before[i]);
                } else if i == at {
                    assert(after[j] == before[j - 1]);
                    assert(before[at as int] == keys[at as int]@);
                    lemma_lex_total(before[at as int], item@);
                    if j - 1 > at {
                        assert(lex_order()(before[at as int], before[j - 1]));
                    } else {
                        lemma_lex_reflexive(before[at as int]);
                    }
                    lemma_lex_transitive(item@, before[at as int], before[j - 1]);
                } else {
                    let bi = if i < at { i } else { i - 1 };
                    let bj = if j < at { j } else { j - 1 };
                    assert(after[i] == before[bi] && after[j] == before[bj]);
                    assert(lex_order()(before[bi], before[bj]));
                }
            }
            vstd::seq_lib::to_multiset_insert(before, at as int, item@);
            let upto = texts(items@).take(k as int);
            assert(texts(items@).take(k + 1) =~= upto.push(item@));
            vstd::seq_lib::to_multiset_build(upto, item@);
            assert(rows(keys@.insert(at as int, item)) =~= after);
            assert(texts(r@.insert(at as int, items[k as int])) =~= after);
        }
        r.insert(at, items[k].clone());
        keys.insert(at, item);
        k += 1;
    }
    proof {
        assert(texts(items@).take(items.len() as int) =~= texts(items@));
        lemma_sorted_texts(texts(items@));
        lemma_lex_total_order();
        lemma_sorted_unique(rows(keys@), sorted_texts(texts(items@)), lex_order());
    }
    r
}

} // verus!

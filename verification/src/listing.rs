//! Key-ordered listings of key-value pairs, and the maps they stand for.
//!
//! A leaf keeps its pairs in ascending key order. A listing in that order is determined by
//! the map it stands for, which is why a leaf's digest depends on its content alone and
//! not on the order in which the pairs arrived.

use vstd::prelude::*;
use crate::key::{
    Key, Value, lemma_key_order_connected, lemma_key_order_irreflexive,
    lemma_key_order_transitive,
};

verus! {

/// The keys of `s` are strictly ascending.
pub open spec fn listing_sorted(s: Seq<(Key, Value)>) -> bool {
    forall|i: int, j: int| 0 <= i < j < s.len() ==> #[trigger] s[i].0.precedes(s[j].0)
}

/// Some pair of `s` has key `k`.
pub open spec fn listing_has(s: Seq<(Key, Value)>, k: Key) -> bool {
    exists|i: int| 0 <= i < s.len() && (#[trigger] s[i]).0 == k
}

/// A position of `s` whose pair has key `k`, if there is one.
pub open spec fn listing_index(s: Seq<(Key, Value)>, k: Key) -> int {
    choose|i: int| 0 <= i < s.len() && (#[trigger] s[i]).0 == k
}

/// The map that a listing stands for.
pub open spec fn listing_map(s: Seq<(Key, Value)>) -> Map<Key, Value> {
    Map::new(|k: Key| listing_has(s, k), |k: Key| s[listing_index(s, k)].1)
}

/// The ascending listing of a map: the one sorted sequence of pairs that stands for it.
pub open spec fn sorted_listing(m: Map<Key, Value>) -> Seq<(Key, Value)> {
    choose|s: Seq<(Key, Value)>| listing_sorted(s) && listing_map(s) == m
}

/// Word `w` (of sixteen) of a pair: the key's eight words, then the value's.
pub open spec fn entry_word(e: (Key, Value), w: int) -> u32 {
    if w < 8 {
        e.0.0@[w]
    } else {
        e.1.0@[w - 8]
    }
}

/// The words of a listing: for each pair in order, the key's words followed by the value's.
pub open spec fn listing_words(s: Seq<(Key, Value)>) -> Seq<u32> {
    Seq::new(16 * s.len(), |j: int| entry_word(s[j / 16], j % 16))
}

/// In a sorted listing each key occurs once, and the map holds the value listed with it.
pub proof fn lemma_listing_lookup(s: Seq<(Key, Value)>, i: int)
    requires
        listing_sorted(s),
        0 <= i < s.len(),
    ensures
        listing_map(s).contains_key(s[i].0),
        listing_map(s)[s[i].0] == s[i].1,
        listing_index(s, s[i].0) == i,
{
    let k = s[i].0;
    assert(listing_has(s, k));
    let j = listing_index(s, k);
    lemma_key_order_irreflexive(k);
    if j < i {
        assert(s[j].0.precedes(s[i].0));
    } else if i < j {
        assert(s[i].0.precedes(s[j].0));
    }
}

/// Removing the pair at `pos` removes its key from the map.
pub proof fn lemma_listing_remove(s: Seq<(Key, Value)>, pos: int)
    requires
        listing_sorted(s),
        0 <= pos < s.len(),
    ensures
        listing_sorted(s.remove(pos)),
        listing_map(s.remove(pos)) == listing_map(s).remove(s[pos].0),
{
    let t = s.remove(pos);
    let k0 = s[pos].0;
    assert forall|i: int, j: int| 0 <= i < j < t.len() implies #[trigger] t[i].0.precedes(
        t[j].0,
    ) by {
        let i2 = if i < pos { i } else { i + 1 };
        let j2 = if j < pos { j } else { j + 1 };
        assert(t[i] == s[i2]);
        assert(t[j] == s[j2]);
        assert(s[i2].0.precedes(s[j2].0));
    }
    let m1 = listing_map(t);
    let m2 = listing_map(s).remove(k0);
    lemma_listing_lookup(s, pos);
    assert forall|q: Key| m1.contains_key(q) <==> m2.contains_key(q) by {
        if m1.contains_key(q) {
            let i = listing_index(t, q);
            let i2 = if i < pos { i } else { i + 1 };
            assert(t[i] == s[i2]);
            lemma_listing_lookup(s, i2);
        }
        if m2.contains_key(q) {
            let i2 = listing_index(s, q);
            lemma_listing_lookup(s, i2);
            let i = if i2 < pos { i2 } else { i2 - 1 };
            assert(t[i] == s[i2]);
            assert(listing_has(t, q));
        }
    }
    assert forall|q: Key| m1.contains_key(q) implies m1[q] == m2[q] by {
        let i = listing_index(t, q);
        let i2 = if i < pos { i } else { i + 1 };
        assert(t[i] == s[i2]);
        lemma_listing_lookup(t, i);
        lemma_listing_lookup(s, i2);
    }
    assert(m1 =~= m2);
}

/// Inserting a pair with a new key at its place in the order adds it to the map.
pub proof fn lemma_listing_insert(s: Seq<(Key, Value)>, pos: int, k: Key, v: Value)
    requires
        listing_sorted(s),
        0 <= pos <= s.len(),
        forall|i: int| 0 <= i < pos ==> (#[trigger] s[i]).0.precedes(k),
        forall|i: int| pos <= i < s.len() ==> k.precedes((#[trigger] s[i]).0),
    ensures
        listing_sorted(s.insert(pos, (k, v))),
        listing_map(s.insert(pos, (k, v))) == listing_map(s).insert(k, v),
{
    let t = s.insert(pos, (k, v));
    assert(t[pos] == (k, v));
    assert forall|i: int, j: int| 0 <= i < j < t.len() implies #[trigger] t[i].0.precedes(
        t[j].0,
    ) by {
        let i2 = if i < pos { i } else { i - 1 };
        let j2 = if j < pos { j } else { j - 1 };
        if i != pos {
            assert(t[i] == s[i2]);
        }
        if j != pos {
            assert(t[j] == s[j2]);
        }
        if i != pos && j != pos {
            assert(s[i2].0.precedes(s[j2].0));
        }
    }
    let m1 = listing_map(t);
    let m2 = listing_map(s).insert(k, v);
    lemma_listing_lookup(t, pos);
    assert forall|q: Key| m1.contains_key(q) <==> m2.contains_key(q) by {
        if m1.contains_key(q) {
            let i = listing_index(t, q);
            if i != pos {
                let i2 = if i < pos { i } else { i - 1 };
                assert(t[i] == s[i2]);
                assert(listing_has(s, q));
            }
        }
        if m2.contains_key(q) && q != k {
            let i2 = listing_index(s, q);
            let i = if i2 < pos { i2 } else { i2 + 1 };
            assert(t[i] == s[i2]);
            assert(listing_has(t, q));
        }
    }
    assert forall|q: Key| m1.contains_key(q) implies m1[q] == m2[q] by {
        let i = listing_index(t, q);
        lemma_listing_lookup(t, i);
        if i != pos {
            let i2 = if i < pos { i } else { i - 1 };
            assert(t[i] == s[i2]);
            lemma_listing_lookup(s, i2);
        }
    }
    assert(m1 =~= m2);
}

/// Replacing the value listed with a key replaces it in the map.
pub proof fn lemma_listing_update(s: Seq<(Key, Value)>, pos: int, v: Value)
    requires
        listing_sorted(s),
        0 <= pos < s.len(),
    ensures
        listing_sorted(s.update(pos, (s[pos].0, v))),
        listing_map(s.update(pos, (s[pos].0, v))) == listing_map(s).insert(s[pos].0, v),
{
    let k = s[pos].0;
    let t = s.update(pos, (k, v));
    assert forall|i: int, j: int| 0 <= i < j < t.len() implies #[trigger] t[i].0.precedes(
        t[j].0,
    ) by {
        assert(t[i].0 == s[i].0);
        assert(t[j].0 == s[j].0);
        assert(s[i].0.precedes(s[j].0));
    }
    let m1 = listing_map(t);
    let m2 = listing_map(s).insert(k, v);
    assert forall|q: Key| m1.contains_key(q) <==> m2.contains_key(q) by {
        if m1.contains_key(q) {
            let i = listing_index(t, q);
            assert(t[i].0 == s[i].0);
            assert(listing_has(s, q));
        }
        if m2.contains_key(q) {
            let i = if q == k { pos } else { listing_index(s, q) };
            assert(t[i].0 == s[i].0);
            assert(listing_has(t, q));
        }
    }
    assert forall|q: Key| m1.contains_key(q) implies m1[q] == m2[q] by {
        let i = listing_index(t, q);
        lemma_listing_lookup(t, i);
        lemma_listing_lookup(s, i);
        lemma_listing_lookup(s, pos);
        assert(t[i].0 == s[i].0);
    }
    assert(m1 =~= m2);
}

/// Two sorted listings of the same map are the same listing.
pub proof fn lemma_listing_unique(s: Seq<(Key, Value)>, t: Seq<(Key, Value)>)
    requires
        listing_sorted(s),
        listing_sorted(t),
        listing_map(s) == listing_map(t),
    ensures
        s == t,
    decreases s.len(),
{
    let m = listing_map(s);
    if s.len() == 0 {
        if t.len() > 0 {
            lemma_listing_lookup(t, 0);
            assert(listing_has(s, t[0].0));
        }
        assert(s =~= t);
    } else {
        let sl = s.len() - 1;
        let ks = s[sl].0;
        lemma_listing_lookup(s, sl);
        assert(listing_has(t, ks));
        let j = listing_index(t, ks);
        let tl = t.len() - 1;
        let kt = t[tl].0;
        lemma_listing_lookup(t, tl);
        assert(listing_has(s, kt));
        let i = listing_index(s, kt);
        if j < tl {
            assert(t[j].0.precedes(t[tl].0));
            if i < sl {
                assert(s[i].0.precedes(s[sl].0));
                lemma_key_order_transitive(ks, kt, ks);
            }
            lemma_key_order_irreflexive(ks);
        }
        assert(s[sl] == t[tl]);
        lemma_listing_remove(s, sl);
        lemma_listing_remove(t, tl);
        lemma_listing_unique(s.remove(sl), t.remove(tl));
        assert forall|x: int| 0 <= x < s.len() implies s[x] == t[x] by {
            if x < sl {
                assert(s[x] == s.remove(sl)[x]);
                assert(t[x] == t.remove(tl)[x]);
            }
        }
        assert(s =~= t);
    }
}

/// Where a search for `k` stops at `pos` without finding it, `k` is not listed, and every
/// pair from `pos` on comes after it.
pub proof fn lemma_listing_absent(s: Seq<(Key, Value)>, pos: int, k: Key)
    requires
        listing_sorted(s),
        0 <= pos <= s.len(),
        forall|i: int| 0 <= i < pos ==> (#[trigger] s[i]).0.precedes(k),
        pos < s.len() ==> s[pos].0 != k && !s[pos].0.precedes(k),
    ensures
        forall|i: int| pos <= i < s.len() ==> k.precedes((#[trigger] s[i]).0),
        !listing_map(s).contains_key(k),
{
    assert forall|i: int| pos <= i < s.len() implies k.precedes((#[trigger] s[i]).0) by {
        lemma_key_order_connected(s[pos].0, k);
        if pos < i {
            assert(s[pos].0.precedes(s[i].0));
            lemma_key_order_transitive(k, s[pos].0, s[i].0);
        }
    }
    if listing_has(s, k) {
        let i = listing_index(s, k);
        lemma_key_order_irreflexive(k);
    }
}

/// A sorted listing is the ascending listing of the map it stands for.
pub proof fn lemma_sorted_listing_of_map(s: Seq<(Key, Value)>)
    requires
        listing_sorted(s),
    ensures
        sorted_listing(listing_map(s)) == s,
{
    let m = listing_map(s);
    let t = sorted_listing(m);
    assert(listing_sorted(s) && listing_map(s) == m);
    lemma_listing_unique(s, t);
}

/// The empty listing stands for the empty map, and only it does.
pub proof fn lemma_listing_empty(s: Seq<(Key, Value)>)
    ensures
        s.len() == 0 <==> listing_map(s) == Map::<Key, Value>::empty(),
{
    if s.len() == 0 {
        assert(listing_map(s) =~= Map::<Key, Value>::empty());
    } else {
        assert(listing_has(s, s[0].0));
        assert(listing_map(s).contains_key(s[0].0));
    }
}

} // verus!

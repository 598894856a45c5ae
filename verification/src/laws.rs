//! What holds of every tree, and of every leaf.

use vstd::prelude::*;
use crate::empty_roots::empty_root;
use crate::hasher::Hasher;
use crate::key::{Key, Value, empty_value};
use crate::leaf::bucket_hash;
use crate::listing::{listing_has, listing_index};
use crate::model::{
    SmtView, empties_unforgeable, lemma_authentic_opens, lemma_fresh_valid,
    lemma_insert_entries, lemma_insert_valid, lemma_remove_entries, lemma_remove_valid,
    merkle_root,
};

verus! {

/// The pair hash never gives two different pairs the same digest.
pub open spec fn pair_injective<H: Hasher>() -> bool {
    forall|a: Seq<u8>, b: Seq<u8>, c: Seq<u8>, d: Seq<u8>|
        #[trigger] H::pair(a, b) == #[trigger] H::pair(c, d) ==> a == c && b == d
}

/// A pair hash without collisions does not forge empty subtrees: what the laws below ask
/// of the hash is no more than that.
pub proof fn law_injective_hash_is_unforgeable<H: Hasher>()
    requires
        pair_injective::<H>(),
    ensures
        empties_unforgeable::<H>(),
{
    assert forall|l: Seq<u8>, r: Seq<u8>, h: nat|
        1 <= h <= 64 && #[trigger] H::pair(l, r) == #[trigger] empty_root::<H>(h) implies l
        == empty_root::<H>((h - 1) as nat) && r == empty_root::<H>((h - 1) as nat) by {
        let below = empty_root::<H>((h - 1) as nat);
        assert(empty_root::<H>(h) == H::pair(below, below));
    }
}

/// A change to a tree.
pub enum Op {
    Insert(Key, Value),
    Remove(Key),
}

/// The tree after one change.
pub open spec fn apply<H: Hasher>(tree: SmtView, op: Op) -> SmtView {
    match op {
        Op::Insert(key, value) => tree.insert_result::<H>(key, value).0,
        Op::Remove(key) => tree.remove_result::<H>(key).0,
    }
}

/// The tree that a sequence of changes, applied in order, makes of the empty tree.
pub open spec fn run<H: Hasher>(ops: Seq<Op>) -> SmtView
    decreases ops.len(),
{
    if ops.len() == 0 {
        SmtView::fresh::<H>()
    } else {
        apply::<H>(run::<H>(ops.drop_last()), ops.last())
    }
}

/// Whatever insertions and removals made it, a tree is valid.
pub proof fn law_always_valid<H: Hasher>(ops: Seq<Op>)
    ensures
        run::<H>(ops).valid::<H>(),
    decreases ops.len(),
{
    if ops.len() == 0 {
        lemma_fresh_valid::<H>();
    } else {
        let before = run::<H>(ops.drop_last());
        law_always_valid::<H>(ops.drop_last());
        match ops.last() {
            Op::Insert(key, value) => lemma_insert_valid::<H>(before, key, value),
            Op::Remove(key) => lemma_remove_valid::<H>(before, key),
        }
    }
}

/// Whatever insertions and removals made a tree, none of its stored nodes holds the pair
/// of digests that a node of an empty tree would have at that depth: such a node is never
/// kept.
pub proof fn law_sparse<H: Hasher>(ops: Seq<Op>, node: (u8, u64))
    requires
        run::<H>(ops).nodes.contains_key(node),
    ensures
        node.0 < 64,
        run::<H>(ops).nodes[node] != (
            empty_root::<H>((63 - node.0) as nat),
            empty_root::<H>((63 - node.0) as nat),
        ),
{
    law_always_valid::<H>(ops);
    assert(empty_root::<H>((64 - node.0) as nat) == H::pair(
        empty_root::<H>((63 - node.0) as nat),
        empty_root::<H>((63 - node.0) as nat),
    ));
}

/// With a hash that does not forge empty subtrees: after a value other than the empty one
/// is inserted for a key, the tree gives the key that value, and the proof it hands out
/// for the key shows the value against the new root.
pub proof fn law_round_trip<H: Hasher>(tree: SmtView, key: Key, value: Value)
    requires
        tree.valid::<H>(),
        empties_unforgeable::<H>(),
        value != empty_value(),
    ensures
        tree.insert_result::<H>(key, value).0.value_of(key) == value,
        tree.insert_result::<H>(key, value).0.opens::<H>(key, value),
{
    let after = tree.insert_result::<H>(key, value).0;
    lemma_insert_valid::<H>(tree, key, value);
    lemma_authentic_opens::<H>(after, key);
}

/// In the tree that holds nothing every key has the empty value, the proof handed out for
/// the key shows it, and the root is the hash of two empty subtrees of height 63.
pub proof fn law_fresh_tree<H: Hasher>(key: Key)
    ensures
        SmtView::fresh::<H>().value_of(key) == empty_value(),
        SmtView::fresh::<H>().opens::<H>(key, empty_value()),
        SmtView::fresh::<H>().root == H::pair(empty_root::<H>(63), empty_root::<H>(63)),
{
    lemma_fresh_valid::<H>();
    lemma_authentic_opens::<H>(SmtView::fresh::<H>(), key);
}

/// With a hash that does not forge empty subtrees, the root is the digest of what the
/// tree holds, and of nothing else.
pub proof fn law_root_of_entries<H: Hasher>(tree: SmtView)
    requires
        tree.valid::<H>(),
        empties_unforgeable::<H>(),
    ensures
        tree.root == merkle_root::<H>(tree.entries()),
{
}

/// With a hash that does not forge empty subtrees: inserting a value for a key that has
/// none, then removing the key, gives back the root that the tree had.
pub proof fn law_insert_then_remove<H: Hasher>(tree: SmtView, key: Key, value: Value)
    requires
        tree.valid::<H>(),
        empties_unforgeable::<H>(),
        value != empty_value(),
        tree.value_of(key) == empty_value(),
    ensures
        tree.insert_result::<H>(key, value).0.remove_result::<H>(key).0.root == tree.root,
{
    let grown = tree.insert_result::<H>(key, value).0;
    let back = grown.remove_result::<H>(key).0;
    lemma_insert_valid::<H>(tree, key, value);
    lemma_remove_valid::<H>(grown, key);
    lemma_insert_entries::<H>(tree, key, value);
    lemma_remove_entries::<H>(grown, key);
    assert(!tree.entries().contains_key(key));
    assert(back.entries() =~= tree.entries());
}

/// Inserting the same value for the same key a second time changes nothing, and returns
/// that value.
pub proof fn law_insert_twice<H: Hasher>(tree: SmtView, key: Key, value: Value)
    ensures
        tree.insert_result::<H>(key, value).0.insert_result::<H>(key, value) == (
            tree.insert_result::<H>(key, value).0,
            value,
        ),
{
}

/// Inserting the empty value for a key is removing the key: the same tree results, and
/// the same value is returned.
pub proof fn law_insert_empty_is_remove<H: Hasher>(tree: SmtView, key: Key)
    ensures
        tree.insert_result::<H>(key, empty_value()) == tree.remove_result::<H>(key),
{
}

/// The bucket that a sequence of pairs, inserted in order, makes of `bucket`.
pub open spec fn insert_all(bucket: Map<Key, Value>, pairs: Seq<(Key, Value)>) -> Map<Key, Value>
    decreases pairs.len(),
{
    if pairs.len() == 0 {
        bucket
    } else {
        insert_all(bucket, pairs.drop_last()).insert(pairs.last().0, pairs.last().1)
    }
}

/// No two pairs of the sequence have the same key.
pub open spec fn distinct_keys(pairs: Seq<(Key, Value)>) -> bool {
    forall|i: int, j: int|
        0 <= i < j < pairs.len() ==> (#[trigger] pairs[i]).0 != (#[trigger] pairs[j]).0
}

/// The bucket with the pairs of `pairs` laid over it.
pub open spec fn overlay(bucket: Map<Key, Value>, pairs: Seq<(Key, Value)>) -> Map<Key, Value> {
    Map::new(
        |k: Key| bucket.contains_key(k) || listing_has(pairs, k),
        |k: Key|
            if listing_has(pairs, k) {
                pairs[listing_index(pairs, k)].1
            } else {
                bucket[k]
            },
    )
}

proof fn lemma_distinct_index(pairs: Seq<(Key, Value)>, i: int)
    requires
        distinct_keys(pairs),
        0 <= i < pairs.len(),
    ensures
        listing_has(pairs, pairs[i].0),
        listing_index(pairs, pairs[i].0) == i,
{
    let k = pairs[i].0;
    assert(listing_has(pairs, k));
    let j = listing_index(pairs, k);
    if j < i {
        assert(pairs[j].0 != pairs[i].0);
    } else if i < j {
        assert(pairs[i].0 != pairs[j].0);
    }
}

proof fn lemma_insert_all(bucket: Map<Key, Value>, pairs: Seq<(Key, Value)>)
    requires
        distinct_keys(pairs),
    ensures
        insert_all(bucket, pairs) == overlay(bucket, pairs),
    decreases pairs.len(),
{
    if pairs.len() == 0 {
        assert(insert_all(bucket, pairs) =~= overlay(bucket, pairs));
    } else {
        let front = pairs.drop_last();
        let last = pairs.len() - 1;
        assert forall|i: int, j: int| 0 <= i < j < front.len() implies (#[trigger] front[i]).0
            != (#[trigger] front[j]).0 by {
            assert(front[i] == pairs[i]);
            assert(front[j] == pairs[j]);
        }
        lemma_insert_all(bucket, front);
        let a = overlay(bucket, front).insert(pairs[last].0, pairs[last].1);
        let b = overlay(bucket, pairs);
        lemma_distinct_index(pairs, last);
        assert forall|k: Key| #![trigger b.contains_key(k)]
            a.contains_key(k) == b.contains_key(k) && (a.contains_key(k) ==> a[k] == b[k]) by {
            if k != pairs[last].0 {
                if listing_has(front, k) {
                    let i = listing_index(front, k);
                    assert(front[i] == pairs[i]);
                    lemma_distinct_index(pairs, i);
                }
                if listing_has(pairs, k) {
                    let i = listing_index(pairs, k);
                    assert(front[i] == pairs[i]);
                    lemma_distinct_index(front, i);
                }
            }
        }
        assert(a =~= b);
    }
}

/// Pairs with different keys give a bucket the same hash in whatever order they are
/// inserted: two sequences of the same pairs, each without a repeated key, make the same
/// bucket.
pub proof fn law_leaf_hash_any_order<H: Hasher>(
    bucket: Map<Key, Value>,
    first: Seq<(Key, Value)>,
    second: Seq<(Key, Value)>,
)
    requires
        distinct_keys(first),
        distinct_keys(second),
        forall|pair: (Key, Value)| first.contains(pair) <==> second.contains(pair),
    ensures
        insert_all(bucket, first) == insert_all(bucket, second),
        bucket_hash::<H>(insert_all(bucket, first)) == bucket_hash::<H>(
            insert_all(bucket, second),
        ),
{
    lemma_insert_all(bucket, first);
    lemma_insert_all(bucket, second);
    let a = overlay(bucket, first);
    let b = overlay(bucket, second);
    assert forall|k: Key| #![trigger b.contains_key(k)]
        a.contains_key(k) == b.contains_key(k) && (a.contains_key(k) ==> a[k] == b[k]) by {
        if listing_has(first, k) {
            let i = listing_index(first, k);
            assert(first.contains(first[i]));
            let j = choose|j: int| 0 <= j < second.len() && second[j] == first[i];
            lemma_distinct_index(second, j);
        }
        if listing_has(second, k) {
            let j = listing_index(second, k);
            assert(second.contains(second[j]));
            let i = choose|i: int| 0 <= i < first.len() && first[i] == second[j];
            lemma_distinct_index(first, i);
        }
    }
    assert(a =~= b);
}

} // verus!

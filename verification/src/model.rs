//! The mathematical model of the tree: what its digests are, and what an insertion or a
//! removal turns a tree into.

use vstd::prelude::*;
use vstd::arithmetic::power2::{lemma2_to64, lemma2_to64_rest, lemma_pow2_unfold, pow2};
use crate::empty_roots::empty_root;
use crate::hasher::Hasher;
use crate::key::{Key, Value, empty_value};
use crate::leaf::{bucket_digest, key_index};
use crate::path::{fold_path, fold_step};

verus! {

/// The position, at `depth`, of the node above the leaf at position `leaf`: each level up
/// halves the position.
pub open spec fn ancestor(leaf: nat, depth: nat) -> nat
    decreases 64 - depth,
{
    if depth >= 64 {
        leaf
    } else {
        ancestor(leaf, depth + 1) / 2
    }
}

/// The interior node with address `node` lies on the way from the leaf at `leaf` to the
/// root.
pub open spec fn on_path(node: (u8, u64), leaf: nat) -> bool {
    node.0 < 64 && node.1 == ancestor(leaf, node.0 as nat)
}

/// The pairs of `entries` whose keys map to the leaf at `pos`.
pub open spec fn bucket_of(entries: Map<Key, Value>, pos: nat) -> Map<Key, Value> {
    Map::new(|k: Key| entries.contains_key(k) && key_index(k) == pos, |k: Key| entries[k])
}

/// The digest of the subtree rooted at (`depth`, `pos`) of the tree that holds `entries`:
/// at depth 64 the digest of the leaf's bucket, above it the hash of the two children's
/// digests.
pub open spec fn tree_digest<H: Hasher>(entries: Map<Key, Value>, depth: nat, pos: nat) -> Seq<
    u8,
>
    decreases 64 - depth,
{
    if depth >= 64 {
        bucket_digest::<H>(bucket_of(entries, pos))
    } else {
        H::pair(
            tree_digest::<H>(entries, depth + 1, 2 * pos),
            tree_digest::<H>(entries, depth + 1, 2 * pos + 1),
        )
    }
}

/// Two sets of entries hold the same pairs but for the keys that map to `leaf`.
pub open spec fn agree_off(e1: Map<Key, Value>, e2: Map<Key, Value>, leaf: nat) -> bool {
    forall|k: Key|
        key_index(k) != leaf ==> (e1.contains_key(k) <==> e2.contains_key(k)) && (
        e1.contains_key(k) ==> e1[k] == e2[k])
}

/// The root digest of the tree that holds `entries`.
pub open spec fn merkle_root<H: Hasher>(entries: Map<Key, Value>) -> Seq<u8> {
    tree_digest::<H>(entries, 0, 0)
}

/// No pair of digests other than two empty subtrees hashes to the digest of an empty
/// subtree. The tree prunes a node when its digest is that of an empty subtree; it is this
/// property of the hash that makes pruning lose nothing.
pub open spec fn empties_unforgeable<H: Hasher>() -> bool {
    forall|l: Seq<u8>, r: Seq<u8>, h: nat|
        1 <= h <= 64 && #[trigger] H::pair(l, r) == #[trigger] empty_root::<H>(h) ==> l
            == empty_root::<H>((h - 1) as nat) && r == empty_root::<H>((h - 1) as nat)
}

/// What a tree holds: its root digest, its buckets by leaf index, and the interior nodes
/// that it has stored, each with the digests of its two children.
pub struct SmtView {
    pub root: Seq<u8>,
    pub leaves: Map<u64, Map<Key, Value>>,
    pub nodes: Map<(u8, u64), (Seq<u8>, Seq<u8>)>,
}

impl SmtView {
    /// The tree that holds nothing.
    pub open spec fn fresh<H: Hasher>() -> SmtView {
        SmtView { root: empty_root::<H>(64), leaves: Map::empty(), nodes: Map::empty() }
    }

    /// The bucket at leaf position `pos`, empty where the tree has none.
    pub open spec fn bucket(self, pos: nat) -> Map<Key, Value> {
        if pos <= u64::MAX && self.leaves.contains_key(pos as u64) {
            self.leaves[pos as u64]
        } else {
            Map::empty()
        }
    }

    /// The value of `key`: the empty value unless the tree holds another.
    pub open spec fn value_of(self, key: Key) -> Value {
        let b = self.bucket(key_index(key) as nat);
        if b.contains_key(key) {
            b[key]
        } else {
            empty_value()
        }
    }

    /// All the pairs that the tree holds.
    pub open spec fn entries(self) -> Map<Key, Value> {
        Map::new(
            |k: Key| self.bucket(key_index(k) as nat).contains_key(k),
            |k: Key| self.bucket(key_index(k) as nat)[k],
        )
    }

    /// The two child digests of the interior node at (`depth`, `pos`): the stored ones, or
    /// for a node that is not stored those of two empty subtrees.
    pub open spec fn node_at<H: Hasher>(self, depth: nat, pos: nat) -> (Seq<u8>, Seq<u8>) {
        if depth < 64 && pos <= u64::MAX && self.nodes.contains_key((depth as u8, pos as u64)) {
            self.nodes[(depth as u8, pos as u64)]
        } else {
            (empty_root::<H>((63 - depth) as nat), empty_root::<H>((63 - depth) as nat))
        }
    }

    /// The digest recorded for the sibling of the node at `depth + 1` on the way up from
    /// `leaf`.
    pub open spec fn sibling_at<H: Hasher>(self, leaf: nat, depth: nat) -> Seq<u8> {
        let node = self.node_at::<H>(depth, ancestor(leaf, depth));
        if ancestor(leaf, depth + 1) % 2 == 0 {
            node.1
        } else {
            node.0
        }
    }

    /// The 64 sibling digests on the way up from `leaf`, the leaf's sibling first.
    pub open spec fn siblings<H: Hasher>(self, leaf: nat) -> Seq<Seq<u8>> {
        Seq::new(64, |j: int| self.sibling_at::<H>(leaf, (63 - j) as nat))
    }

    /// The digest that the node at `depth` above `leaf` gets when the leaf's digest is
    /// `seed` and the recorded siblings are kept.
    pub open spec fn climb<H: Hasher>(self, leaf: nat, seed: Seq<u8>, depth: nat) -> Seq<u8>
        decreases 64 - depth,
    {
        if depth >= 64 {
            seed
        } else {
            fold_step::<H>(
                self.climb::<H>(leaf, seed, depth + 1),
                self.sibling_at::<H>(leaf, depth),
                ancestor(leaf, depth + 1),
            )
        }
    }

    /// The two child digests of the node at `depth` above `leaf` once the leaf's digest is
    /// `seed`: the child on the way takes its new digest, the other keeps the recorded one.
    pub open spec fn raised_pair<H: Hasher>(self, leaf: nat, seed: Seq<u8>, depth: nat) -> (
        Seq<u8>,
        Seq<u8>,
    ) {
        let below = self.climb::<H>(leaf, seed, depth + 1);
        let node = self.node_at::<H>(depth, ancestor(leaf, depth));
        if ancestor(leaf, depth + 1) % 2 == 0 {
            (below, node.1)
        } else {
            (node.0, below)
        }
    }

    /// The tree after the way from `leaf` to the root has been recomputed for the leaf
    /// digest `seed`. A node on the way whose new digest is that of an empty subtree is no
    /// longer stored; any other is stored with its new pair of child digests. Nodes off the
    /// way are untouched, and the root is the digest reached at depth 0.
    pub open spec fn recomputed<H: Hasher>(self, leaf: nat, seed: Seq<u8>) -> SmtView {
        SmtView {
            root: self.climb::<H>(leaf, seed, 0),
            leaves: self.leaves,
            nodes: self.recomputed_nodes::<H>(leaf, seed, 0),
        }
    }

    /// The stored nodes once the way up from `leaf` has been recomputed from the leaves
    /// down to depth `floor`.
    pub open spec fn recomputed_nodes<H: Hasher>(self, leaf: nat, seed: Seq<u8>, floor: nat) -> Map<
        (u8, u64),
        (Seq<u8>, Seq<u8>),
    > {
        Map::new(
            |k: (u8, u64)|
                if on_path(k, leaf) && k.0 >= floor {
                    self.climb::<H>(leaf, seed, k.0 as nat) != empty_root::<H>((64 - k.0) as nat)
                } else {
                    self.nodes.contains_key(k)
                },
            |k: (u8, u64)|
                if on_path(k, leaf) && k.0 >= floor {
                    self.raised_pair::<H>(leaf, seed, k.0 as nat)
                } else {
                    self.nodes[k]
                },
        )
    }

    /// The tree with the bucket at `pos` replaced.
    pub open spec fn with_bucket(self, pos: u64, bucket: Map<Key, Value>) -> SmtView {
        SmtView { leaves: self.leaves.insert(pos, bucket), ..self }
    }

    /// The tree after `key` is removed, and the value the key had. Where the key has no
    /// value the tree stays as it is; else the key leaves its bucket and the way from that
    /// leaf to the root is recomputed.
    pub open spec fn remove_result<H: Hasher>(self, key: Key) -> (SmtView, Value) {
        let pos = key_index(key);
        let bucket = self.bucket(pos as nat);
        if !bucket.contains_key(key) {
            (self, empty_value())
        } else {
            let rest = bucket.remove(key);
            (
                self.with_bucket(pos, rest).recomputed::<H>(
                    pos as nat,
                    bucket_digest::<H>(rest),
                ),
                bucket[key],
            )
        }
    }

    /// The tree after `value` is inserted for `key`, and the value the key had. Inserting
    /// the empty value is removing the key; inserting the value that the key already has
    /// changes nothing; else the pair enters the key's bucket and the way from that leaf to
    /// the root is recomputed.
    pub open spec fn insert_result<H: Hasher>(self, key: Key, value: Value) -> (SmtView, Value) {
        let pos = key_index(key);
        let previous = self.value_of(key);
        if value == empty_value() {
            self.remove_result::<H>(key)
        } else if previous == value {
            (self, value)
        } else {
            let grown = self.bucket(pos as nat).insert(key, value);
            (
                self.with_bucket(pos, grown).recomputed::<H>(
                    pos as nat,
                    bucket_digest::<H>(grown),
                ),
                previous,
            )
        }
    }

    /// The proof that the tree hands out for `key` shows that the key has `value`: that is
    /// the key's value, and the key's bucket folds with the recorded siblings to the root.
    pub open spec fn opens<H: Hasher>(self, key: Key, value: Value) -> bool {
        let pos = key_index(key) as nat;
        &&& value == self.value_of(key)
        &&& fold_path::<H>(self.siblings::<H>(pos), pos, bucket_digest::<H>(self.bucket(pos)))
            == self.root
    }

    /// Every bucket holds only keys that map to its position, and no empty value.
    pub open spec fn buckets_valid(self) -> bool {
        forall|p: u64, k: Key|
            self.leaves.contains_key(p) && #[trigger] self.leaves[p].contains_key(k)
                ==> key_index(k) == p && self.leaves[p][k] != empty_value()
    }

    /// Only interior nodes are stored, and none whose digest is that of an empty subtree.
    pub open spec fn sparse<H: Hasher>(self) -> bool {
        forall|k: (u8, u64)| #[trigger]
            self.nodes.contains_key(k) ==> k.0 < 64 && H::pair(self.nodes[k].0, self.nodes[k].1)
                != empty_root::<H>((64 - k.0) as nat)
    }

    /// Every recorded digest is the digest of the subtree it stands for: the root that of
    /// the whole tree, and the two digests of each interior node, stored or not, those of
    /// its children.
    pub open spec fn authentic<H: Hasher>(self) -> bool {
        &&& self.root == merkle_root::<H>(self.entries())
        &&& self.nodes_match::<H>(self.entries())
    }

    /// The two digests of each interior node, stored or not, are those that its children
    /// have in the tree that holds `entries`.
    pub open spec fn nodes_match<H: Hasher>(self, entries: Map<Key, Value>) -> bool {
        forall|depth: nat, pos: nat|
            depth < 64 ==> #[trigger] self.node_at::<H>(depth, pos) == (
                tree_digest::<H>(entries, depth + 1, 2 * pos),
                tree_digest::<H>(entries, depth + 1, 2 * pos + 1),
            )
    }

    /// What holds of every tree: its buckets are valid, it is sparse, and, where the hash
    /// does not forge empty subtrees, it is authentic.
    pub open spec fn valid<H: Hasher>(self) -> bool {
        &&& self.buckets_valid()
        &&& self.sparse::<H>()
        &&& empties_unforgeable::<H>() ==> self.authentic::<H>()
    }
}

/// Above any leaf of the tree, the node at depth 0 is the root.
pub proof fn lemma_ancestor_root(leaf: nat)
    requires
        leaf <= u64::MAX,
    ensures
        ancestor(leaf, 0) == 0,
{
    lemma2_to64();
    lemma2_to64_rest();
    lemma_ancestor_bound(leaf, 0);
}

proof fn lemma_ancestor_bound(leaf: nat, depth: nat)
    requires
        leaf < pow2(64),
        depth <= 64,
    ensures
        ancestor(leaf, depth) < pow2(depth),
    decreases 64 - depth,
{
    if depth < 64 {
        lemma_ancestor_bound(leaf, depth + 1);
        lemma_pow2_unfold(depth + 1);
    }
}

/// Folding the recorded siblings onto a leaf digest climbs to the same digest at depth 0.
pub proof fn lemma_fold_is_climb<H: Hasher>(view: SmtView, leaf: nat, seed: Seq<u8>)
    ensures
        fold_path::<H>(view.siblings::<H>(leaf), leaf, seed) == view.climb::<H>(leaf, seed, 0),
{
    lemma_fold_from::<H>(view, leaf, seed, 64);
    assert(view.siblings::<H>(leaf).skip(0) =~= view.siblings::<H>(leaf));
}

proof fn lemma_fold_from<H: Hasher>(view: SmtView, leaf: nat, seed: Seq<u8>, depth: nat)
    requires
        depth <= 64,
    ensures
        fold_path::<H>(
            view.siblings::<H>(leaf).skip(64 - depth),
            ancestor(leaf, depth),
            view.climb::<H>(leaf, seed, depth),
        ) == view.climb::<H>(leaf, seed, 0),
    decreases depth,
{
    let rest = view.siblings::<H>(leaf).skip(64 - depth);
    if depth > 0 {
        let up = (depth - 1) as nat;
        assert(rest[0] == view.sibling_at::<H>(leaf, up));
        assert(rest.drop_first() =~= view.siblings::<H>(leaf).skip(64 - up));
        lemma_fold_from::<H>(view, leaf, seed, up);
    }
}

/// The tree that holds nothing has, at every node, the digest of an empty subtree.
pub proof fn lemma_empty_tree_digest<H: Hasher>(depth: nat, pos: nat)
    requires
        depth <= 64,
    ensures
        tree_digest::<H>(Map::empty(), depth, pos) == empty_root::<H>((64 - depth) as nat),
    decreases 64 - depth,
{
    if depth < 64 {
        lemma_empty_tree_digest::<H>(depth + 1, 2 * pos);
        lemma_empty_tree_digest::<H>(depth + 1, 2 * pos + 1);
    } else {
        assert(bucket_of(Map::empty(), pos) =~= Map::<Key, Value>::empty());
    }
}

/// Two sets of entries that differ only at one leaf give the same digest to every subtree
/// that the leaf is not in.
pub proof fn lemma_off_path_digest<H: Hasher>(
    e1: Map<Key, Value>,
    e2: Map<Key, Value>,
    leaf: nat,
    depth: nat,
    pos: nat,
)
    requires
        agree_off(e1, e2, leaf),
        depth <= 64,
        pos != ancestor(leaf, depth),
    ensures
        tree_digest::<H>(e1, depth, pos) == tree_digest::<H>(e2, depth, pos),
    decreases 64 - depth,
{
    if depth < 64 {
        lemma_off_path_digest::<H>(e1, e2, leaf, depth + 1, 2 * pos);
        lemma_off_path_digest::<H>(e1, e2, leaf, depth + 1, 2 * pos + 1);
    } else {
        assert(bucket_of(e1, pos) =~= bucket_of(e2, pos));
    }
}

/// In a tree with valid buckets, the pairs that map to a leaf are those of its bucket.
pub proof fn lemma_bucket_of_entries(view: SmtView, pos: nat)
    requires
        view.buckets_valid(),
    ensures
        bucket_of(view.entries(), pos) == view.bucket(pos),
{
    assert(bucket_of(view.entries(), pos) =~= view.bucket(pos));
}

/// A stored pair hashes to the digest that the climb reaches at its node.
pub proof fn lemma_raised_pair_digest<H: Hasher>(
    view: SmtView,
    leaf: nat,
    seed: Seq<u8>,
    depth: nat,
)
    requires
        depth < 64,
    ensures
        H::pair(
            view.raised_pair::<H>(leaf, seed, depth).0,
            view.raised_pair::<H>(leaf, seed, depth).1,
        ) == view.climb::<H>(leaf, seed, depth),
{
}

/// Recomputing one more node on the way up either drops that node or stores its new pair,
/// and touches no other.
pub proof fn lemma_recompute_step<H: Hasher>(
    view: SmtView,
    leaf: nat,
    seed: Seq<u8>,
    here: (u8, u64),
)
    requires
        on_path(here, leaf),
    ensures
        view.recomputed_nodes::<H>(leaf, seed, here.0 as nat) == if view.climb::<H>(
            leaf,
            seed,
            here.0 as nat,
        ) == empty_root::<H>((64 - here.0) as nat) {
            view.recomputed_nodes::<H>(leaf, seed, (here.0 + 1) as nat).remove(here)
        } else {
            view.recomputed_nodes::<H>(leaf, seed, (here.0 + 1) as nat).insert(
                here,
                view.raised_pair::<H>(leaf, seed, here.0 as nat),
            )
        },
{
    let target = view.recomputed_nodes::<H>(leaf, seed, here.0 as nat);
    let earlier = view.recomputed_nodes::<H>(leaf, seed, (here.0 + 1) as nat);
    let stepped = if view.climb::<H>(leaf, seed, here.0 as nat) == empty_root::<H>(
        (64 - here.0) as nat,
    ) {
        earlier.remove(here)
    } else {
        earlier.insert(here, view.raised_pair::<H>(leaf, seed, here.0 as nat))
    };
    assert forall|k: (u8, u64)| #![trigger target.contains_key(k)]
        stepped.contains_key(k) == target.contains_key(k) && (stepped.contains_key(k)
            ==> stepped[k] == target[k]) by {
        if on_path(k, leaf) && k.0 == here.0 {
            assert(k == here);
        }
    }
    assert(stepped =~= target);
}

/// Where the nodes of `view` match the entries `before`, and `after` differs from `before`
/// only at `leaf`, climbing from the leaf's digest in `after` reaches, at each depth, the
/// digest that the node there has in `after`.
pub proof fn lemma_climb_digest<H: Hasher>(
    view: SmtView,
    before: Map<Key, Value>,
    after: Map<Key, Value>,
    leaf: nat,
    depth: nat,
)
    requires
        view.nodes_match::<H>(before),
        agree_off(before, after, leaf),
        depth <= 64,
    ensures
        view.climb::<H>(leaf, tree_digest::<H>(after, 64, leaf), depth) == tree_digest::<H>(
            after,
            depth,
            ancestor(leaf, depth),
        ),
        depth < 64 ==> view.raised_pair::<H>(leaf, tree_digest::<H>(after, 64, leaf), depth) == (
            tree_digest::<H>(after, depth + 1, 2 * ancestor(leaf, depth)),
            tree_digest::<H>(after, depth + 1, 2 * ancestor(leaf, depth) + 1),
        ),
    decreases 64 - depth,
{
    if depth < 64 {
        let seed = tree_digest::<H>(after, 64, leaf);
        let here = ancestor(leaf, depth);
        let child = ancestor(leaf, depth + 1);
        lemma_climb_digest::<H>(view, before, after, leaf, depth + 1);
        let node = view.node_at::<H>(depth, here);
        assert(node == (
            tree_digest::<H>(before, depth + 1, 2 * here),
            tree_digest::<H>(before, depth + 1, 2 * here + 1),
        ));
        if child % 2 == 0 {
            assert(child == 2 * here);
            lemma_off_path_digest::<H>(before, after, leaf, depth + 1, 2 * here + 1);
        } else {
            assert(child == 2 * here + 1);
            lemma_off_path_digest::<H>(before, after, leaf, depth + 1, 2 * here);
        }
        lemma_raised_pair_digest::<H>(view, leaf, seed, depth);
    }
}

/// Replacing one valid bucket and recomputing the way from it to the root leaves a valid
/// tree.
pub proof fn lemma_recomputed_valid<H: Hasher>(view: SmtView, pos: u64, bucket: Map<Key, Value>)
    requires
        view.valid::<H>(),
        forall|k: Key| #[trigger]
            bucket.contains_key(k) ==> key_index(k) == pos && bucket[k] != empty_value(),
    ensures
        view.with_bucket(pos, bucket).recomputed::<H>(
            pos as nat,
            bucket_digest::<H>(bucket),
        ).valid::<H>(),
{
    let leaf = pos as nat;
    let seed = bucket_digest::<H>(bucket);
    let mid = view.with_bucket(pos, bucket);
    let post = mid.recomputed::<H>(leaf, seed);
    assert(post.buckets_valid());
    assert forall|k: (u8, u64)| #[trigger] post.nodes.contains_key(k) implies k.0 < 64
        && H::pair(post.nodes[k].0, post.nodes[k].1) != empty_root::<H>((64 - k.0) as nat) by {
        if on_path(k, leaf) {
            lemma_raised_pair_digest::<H>(mid, leaf, seed, k.0 as nat);
        }
    }
    if empties_unforgeable::<H>() {
        let before = view.entries();
        let after = post.entries();
        lemma_bucket_of_entries(post, leaf);
        assert(post.bucket(leaf) == bucket);
        assert(seed == tree_digest::<H>(after, 64, leaf));
        assert forall|k: Key| key_index(k) != leaf implies (before.contains_key(k)
            <==> after.contains_key(k)) && (before.contains_key(k) ==> before[k]
            == after[k]) by {
            assert(post.bucket(key_index(k) as nat) == view.bucket(key_index(k) as nat));
        }
        assert(mid.nodes_match::<H>(before)) by {
            assert forall|depth: nat, q: nat| depth < 64 implies #[trigger] mid.node_at::<H>(
                depth,
                q,
            ) == (
                tree_digest::<H>(before, depth + 1, 2 * q),
                tree_digest::<H>(before, depth + 1, 2 * q + 1),
            ) by {
                assert(mid.node_at::<H>(depth, q) == view.node_at::<H>(depth, q));
            }
        }
        lemma_climb_digest::<H>(mid, before, after, leaf, 0);
        lemma_ancestor_root(leaf);
        assert(post.root == merkle_root::<H>(after));
        assert forall|depth: nat, q: nat| depth < 64 implies #[trigger] post.node_at::<H>(
            depth,
            q,
        ) == (
            tree_digest::<H>(after, depth + 1, 2 * q),
            tree_digest::<H>(after, depth + 1, 2 * q + 1),
        ) by {
            if q == ancestor(leaf, depth) {
                lemma2_to64();
                lemma2_to64_rest();
                lemma_ancestor_bound(leaf, depth);
                lemma_ancestor_bound(leaf, 64);
                lemma_pow2_grows(depth);
                let k = (depth as u8, q as u64);
                assert(on_path(k, leaf));
                lemma_climb_digest::<H>(mid, before, after, leaf, depth);
                lemma_raised_pair_digest::<H>(mid, leaf, seed, depth);
                let pair = mid.raised_pair::<H>(leaf, seed, depth);
                if !post.nodes.contains_key(k) {
                    assert(H::pair(pair.0, pair.1) == empty_root::<H>((64 - depth) as nat));
                }
            } else {
                assert(post.node_at::<H>(depth, q) == view.node_at::<H>(depth, q));
                lemma_off_path_digest::<H>(before, after, leaf, depth + 1, 2 * q);
                lemma_off_path_digest::<H>(before, after, leaf, depth + 1, 2 * q + 1);
            }
        }
    }
}

/// The tree that holds nothing is valid, whatever the hash.
pub proof fn lemma_fresh_valid<H: Hasher>()
    ensures
        SmtView::fresh::<H>().valid::<H>(),
        SmtView::fresh::<H>().authentic::<H>(),
{
    let view = SmtView::fresh::<H>();
    assert(view.entries() =~= Map::<Key, Value>::empty());
    lemma_empty_tree_digest::<H>(0, 0);
    assert forall|depth: nat, q: nat| depth < 64 implies #[trigger] view.node_at::<H>(depth, q)
        == (
        tree_digest::<H>(view.entries(), depth + 1, 2 * q),
        tree_digest::<H>(view.entries(), depth + 1, 2 * q + 1),
    ) by {
        lemma_empty_tree_digest::<H>(depth + 1, 2 * q);
        lemma_empty_tree_digest::<H>(depth + 1, 2 * q + 1);
    }
}

/// In an authentic tree the proof handed out for a key shows the key's value.
pub proof fn lemma_authentic_opens<H: Hasher>(view: SmtView, key: Key)
    requires
        view.buckets_valid(),
        view.authentic::<H>(),
    ensures
        view.opens::<H>(key, view.value_of(key)),
{
    let leaf = key_index(key) as nat;
    let entries = view.entries();
    lemma_bucket_of_entries(view, leaf);
    lemma_fold_is_climb::<H>(view, leaf, bucket_digest::<H>(view.bucket(leaf)));
    lemma_climb_digest::<H>(view, entries, entries, leaf, 0);
    lemma_ancestor_root(leaf);
}

/// Removing a key from a valid tree leaves a valid tree.
pub proof fn lemma_remove_valid<H: Hasher>(tree: SmtView, key: Key)
    requires
        tree.valid::<H>(),
    ensures
        tree.remove_result::<H>(key).0.valid::<H>(),
{
    let pos = key_index(key);
    let bucket = tree.bucket(pos as nat);
    if bucket.contains_key(key) {
        let rest = bucket.remove(key);
        assert forall|k: Key| #[trigger] rest.contains_key(k) implies key_index(k) == pos
            && rest[k] != empty_value() by {
            assert(tree.leaves[pos].contains_key(k));
        }
        lemma_recomputed_valid::<H>(tree, pos, rest);
    }
}

/// Inserting a value for a key into a valid tree leaves a valid tree.
pub proof fn lemma_insert_valid<H: Hasher>(tree: SmtView, key: Key, value: Value)
    requires
        tree.valid::<H>(),
    ensures
        tree.insert_result::<H>(key, value).0.valid::<H>(),
{
    let pos = key_index(key);
    let bucket = tree.bucket(pos as nat);
    if value == empty_value() {
        lemma_remove_valid::<H>(tree, key);
    } else if tree.value_of(key) != value {
        let grown = bucket.insert(key, value);
        assert forall|k: Key| #[trigger] grown.contains_key(k) implies key_index(k) == pos
            && grown[k] != empty_value() by {
            if k != key {
                assert(tree.leaves[pos].contains_key(k));
            }
        }
        lemma_recomputed_valid::<H>(tree, pos, grown);
    }
}

/// Removing a key takes its pair, and no other, out of what the tree holds.
pub proof fn lemma_remove_entries<H: Hasher>(tree: SmtView, key: Key)
    requires
        tree.buckets_valid(),
    ensures
        tree.remove_result::<H>(key).0.entries() == tree.entries().remove(key),
{
    let after = tree.remove_result::<H>(key).0;
    assert forall|k: Key|
        after.entries().contains_key(k) == tree.entries().remove(key).contains_key(k) && (
        after.entries().contains_key(k) ==> after.entries()[k] == tree.entries().remove(
            key,
        )[k]) by {
        assert(key_index(k) != key_index(key) ==> after.bucket(key_index(k) as nat)
            == tree.bucket(key_index(k) as nat));
    }
    assert(after.entries() =~= tree.entries().remove(key));
}

/// Inserting a value other than the empty one adds the pair to what the tree holds.
pub proof fn lemma_insert_entries<H: Hasher>(tree: SmtView, key: Key, value: Value)
    requires
        tree.buckets_valid(),
        value != empty_value(),
    ensures
        tree.insert_result::<H>(key, value).0.entries() == tree.entries().insert(key, value),
{
    let after = tree.insert_result::<H>(key, value).0;
    assert forall|k: Key|
        after.entries().contains_key(k) == tree.entries().insert(key, value).contains_key(k)
            && (after.entries().contains_key(k) ==> after.entries()[k] == tree.entries().insert(
            key,
            value,
        )[k]) by {
        assert(key_index(k) != key_index(key) ==> after.bucket(key_index(k) as nat)
            == tree.bucket(key_index(k) as nat));
    }
    assert(after.entries() =~= tree.entries().insert(key, value));
}

proof fn lemma_pow2_grows(depth: nat)
    requires
        depth <= 64,
    ensures
        pow2(depth) <= pow2(64),
    decreases 64 - depth,
{
    if depth < 64 {
        lemma_pow2_grows(depth + 1);
        lemma_pow2_unfold(depth + 1);
    }
}

} // verus!

//! The tree: a root digest, the buckets, and the interior nodes that differ from those of
//! an empty tree.

use std::collections::BTreeMap;
use vstd::prelude::*;
use crate::digest::{Digest, zero_digest};
use crate::empty_roots::{EmptySubtreeRoots, empty_root};
use crate::hasher::Hasher;
use crate::key::{Key, Value, empty_value};
use crate::leaf::{LeafIndex, SmtLeaf, key_index, key_to_leaf_index, LEAF_DEPTH};
use crate::model::{
    SmtView, ancestor, empties_unforgeable, lemma_authentic_opens, lemma_fresh_valid,
    lemma_insert_entries, lemma_raised_pair_digest, lemma_recompute_step,
    lemma_recomputed_valid, lemma_remove_entries, merkle_root,
};
use crate::node::{InnerNode, NodeIndex, Side};
use crate::path::{MerklePath, SmtProof};

verus! {

broadcast use vstd::laws_cmp::group_laws_cmp;

/// A key-value store with proofs of what it holds. Keys and values are 256 bits wide, every
/// key has the empty value until another is inserted, and the leaves are at depth 64.
///
/// The interior nodes are kept in a map ordered by depth, then by position.
#[derive(Debug, PartialEq, Eq)]
pub struct Smt<H: Hasher> {
    root: Digest,
    leaves: BTreeMap<u64, SmtLeaf<H>>,
    inner_nodes: BTreeMap<(u8, u64), InnerNode>,
    empty_roots: EmptySubtreeRoots<H>,
}

impl<H: Hasher> View for Smt<H> {
    type V = SmtView;

    closed spec fn view(&self) -> SmtView {
        SmtView {
            root: self.root@,
            leaves: Map::new(|p: u64| self.leaves@.contains_key(p), |p: u64| self.leaves@[p]@),
            nodes: Map::new(
                |k: (u8, u64)| self.inner_nodes@.contains_key(k),
                |k: (u8, u64)| self.inner_nodes@[k]@,
            ),
        }
    }
}

/// The digest that a leaf with the given hash contributes: the hash, or the zero digest
/// for a leaf that has none.
pub open spec fn seed_of(leaf_hash: Option<Digest>) -> Seq<u8> {
    match leaf_hash {
        Some(d) => d@,
        None => zero_digest(),
    }
}

impl<H: Hasher> Clone for Smt<H> {
    fn clone(&self) -> (r: Self)
        ensures
            r@ == self@,
            self.wf() ==> r.wf(),
    {
        let r = Smt {
            root: self.root,
            leaves: self.leaves.clone(),
            inner_nodes: self.inner_nodes.clone(),
            empty_roots: self.empty_roots.clone(),
        };
        proof {
            assert(r@.leaves =~= self@.leaves);
            assert(r@.nodes =~= self@.nodes);
        }
        r
    }
}

impl<H: Hasher> Default for Smt<H> {
    fn default() -> (r: Self)
        ensures
            r.wf(),
            r@ == SmtView::fresh::<H>(),
    {
        Self::new()
    }
}

impl<H: Hasher> Smt<H> {
    /// The tree is valid, and each bucket is stored under its own index. The empty tree is
    /// well formed, and insertions and removals keep a tree so.
    pub closed spec fn wf(&self) -> bool {
        &&& self@.valid::<H>()
        &&& self.leaves_wf()
    }

    spec fn leaves_wf(&self) -> bool {
        forall|p: u64| #[trigger]
            self.leaves@.contains_key(p) ==> self.leaves@[p].spec_index().value == p
    }

    /// The tree that holds nothing.
    pub fn new() -> (r: Self)
        ensures
            r.wf(),
            r@ == SmtView::fresh::<H>(),
            r@.valid::<H>(),
    {
        let empty_roots = EmptySubtreeRoots::<H>::new();
        let empty_subtree = *empty_roots.entry(LEAF_DEPTH, 1);
        let root = H::hash_pair(&empty_subtree, &empty_subtree);
        let r = Smt { root, leaves: BTreeMap::new(), inner_nodes: BTreeMap::new(), empty_roots };
        proof {
            assert(r@.leaves =~= Map::<u64, Map<Key, Value>>::empty());
            assert(r@.nodes =~= Map::<(u8, u64), (Seq<u8>, Seq<u8>)>::empty());
            assert(r@.root == empty_root::<H>(64));
            lemma_fresh_valid::<H>();
        }
        r
    }

    /// The value of `key`, with a proof of it: the key's bucket, and the 64 sibling digests
    /// recorded on the way from the key's leaf to the root. Where the hash does not forge
    /// empty subtrees the proof shows the value against the current root.
    pub fn get(&self, key: &Key) -> (res: (Value, SmtProof<H>))
        requires
            self.wf(),
        ensures
            res.0 == self@.value_of(*key),
            res.1.leaf@ == self@.bucket(key_index(*key) as nat),
            res.1.leaf.spec_index().value == key_index(*key),
            res.1.path@ == self@.siblings::<H>(key_index(*key) as nat),
            forall|value: Value|
                res.1.proves(*key, value, self@.root) == self@.opens::<H>(*key, value),
            empties_unforgeable::<H>() ==> res.1.proves(*key, res.0, self@.root),
    {
        let leaf_index = key_to_leaf_index(key);
        let leaf = match self.leaves.get(&leaf_index.value) {
            Some(leaf) => leaf.clone(),
            None => SmtLeaf::new(leaf_index),
        };
        let value = match leaf.get_direct(key) {
            Some(v) => v,
            None => Value::empty(),
        };
        let ghost pos = leaf_index.value as nat;
        let mut index = NodeIndex::from(leaf_index);
        let mut path_nodes: Vec<Digest> = Vec::new();
        while index.depth > 0
            invariant
                index.depth <= 64,
                index.value == ancestor(pos, index.depth as nat),
                path_nodes@.len() == 64 - index.depth,
                forall|j: int|
                    0 <= j < path_nodes@.len() ==> (#[trigger] path_nodes@[j])@
                        == self@.sibling_at::<H>(pos, (63 - j) as nat),
            decreases index.depth,
        {
            let side = index.get_side();
            index.move_up();
            let inner_node = self.get_inner_node(&index);
            let sibling = match side {
                Side::Left => inner_node.right,
                Side::Right => inner_node.left,
            };
            path_nodes.push(sibling);
        }
        let proof = SmtProof { path: MerklePath::new(path_nodes), leaf };
        proof {
            assert(proof.path@ =~= self@.siblings::<H>(pos));
            if empties_unforgeable::<H>() {
                lemma_authentic_opens::<H>(self@, *key);
            }
        }
        (value, proof)
    }

    /// Gives `key` the value `value` and returns the value it had. Inserting the empty
    /// value removes the key.
    pub fn insert(&mut self, key: Key, value: Value) -> (r: Value)
        requires
            old(self).wf(),
        ensures
            final(self).wf(),
            final(self)@.valid::<H>(),
            (final(self)@, r) == old(self)@.insert_result::<H>(key, value),
            r == old(self)@.value_of(key),
            final(self)@.entries() == if value == empty_value() {
                old(self)@.entries().remove(key)
            } else {
                old(self)@.entries().insert(key, value)
            },
            empties_unforgeable::<H>() ==> final(self)@.root == merkle_root::<H>(
                final(self)@.entries(),
            ),
    {
        proof {
            if value == empty_value() {
                lemma_remove_entries::<H>(old(self)@, key);
            } else {
                lemma_insert_entries::<H>(old(self)@, key, value);
            }
        }
        if value == Value::empty() {
            return self.remove(&key);
        }
        let leaf_index = key_to_leaf_index(&key);
        let mut leaf = match self.leaves.remove(&leaf_index.value) {
            Some(leaf) => leaf,
            None => SmtLeaf::new(leaf_index),
        };
        let ghost bucket = leaf@;
        proof {
            assert(bucket == old(self)@.bucket(leaf_index.value as nat));
        }
        let old_value = leaf.insert(key, value);
        if old_value == value {
            proof {
                assert(leaf@ =~= old(self)@.bucket(leaf_index.value as nat));
            }
            self.leaves.insert(leaf_index.value, leaf);
            proof {
                assert(self@.leaves =~= old(self)@.leaves);
                assert(self@.nodes =~= old(self)@.nodes);
            }
            return value;
        }
        let leaf_hash = leaf.hash();
        proof {
            use_type_invariant(&leaf);
            leaf.lemma_keys_share_index();
            assert forall|k: Key| #[trigger] leaf@.contains_key(k) implies key_index(k)
                == leaf_index.value && leaf@[k] != empty_value() by {
                if k != key {
                    assert(bucket.contains_key(k));
                }
            }
            lemma_recomputed_valid::<H>(old(self)@, leaf_index.value, leaf@);
        }
        self.leaves.insert(leaf_index.value, leaf);
        proof {
            assert(self@.leaves =~= old(self)@.with_bucket(leaf_index.value, leaf@).leaves);
            assert(self@.nodes =~= old(self)@.nodes);
        }
        self.recompute_nodes_from_leaf_to_root(leaf_index, leaf_hash);
        old_value
    }

    /// Removes `key` and returns the value it had: afterwards its value is the empty one.
    pub fn remove(&mut self, key: &Key) -> (r: Value)
        requires
            old(self).wf(),
        ensures
            final(self).wf(),
            final(self)@.valid::<H>(),
            (final(self)@, r) == old(self)@.remove_result::<H>(*key),
            r == old(self)@.value_of(*key),
            final(self)@.entries() == old(self)@.entries().remove(*key),
            empties_unforgeable::<H>() ==> final(self)@.root == merkle_root::<H>(
                final(self)@.entries(),
            ),
    {
        proof {
            lemma_remove_entries::<H>(old(self)@, *key);
        }
        let leaf_index = key_to_leaf_index(key);
        let mut leaf = match self.leaves.remove(&leaf_index.value) {
            Some(leaf) => leaf,
            None => {
                proof {
                    assert(self@.leaves =~= old(self)@.leaves);
                    assert(self@.nodes =~= old(self)@.nodes);
                }
                return Value::empty();
            },
        };
        let ghost bucket = leaf@;
        proof {
            assert(old(self)@.leaves.contains_key(leaf_index.value));
            assert(bucket == old(self)@.leaves[leaf_index.value]);
        }
        let old_value = match leaf.remove(key) {
            Some(v) => v,
            None => {
                proof {
                    assert(leaf@ =~= old(self)@.bucket(leaf_index.value as nat));
                }
                self.leaves.insert(leaf_index.value, leaf);
                proof {
                    assert(self@.leaves =~= old(self)@.leaves);
                    assert(self@.nodes =~= old(self)@.nodes);
                }
                return Value::empty();
            },
        };
        let leaf_hash = leaf.hash();
        proof {
            use_type_invariant(&leaf);
            leaf.lemma_keys_share_index();
            assert forall|k: Key| #[trigger] leaf@.contains_key(k) implies key_index(k)
                == leaf_index.value && leaf@[k] != empty_value() by {
                assert(bucket.contains_key(k));
            }
            lemma_recomputed_valid::<H>(old(self)@, leaf_index.value, leaf@);
        }
        self.leaves.insert(leaf_index.value, leaf);
        proof {
            assert(self@.leaves =~= old(self)@.with_bucket(leaf_index.value, leaf@).leaves);
            assert(self@.nodes =~= old(self)@.nodes);
        }
        self.recompute_nodes_from_leaf_to_root(leaf_index, leaf_hash);
        old_value
    }

    /// The number of interior nodes that the tree has stored.
    pub fn stored_nodes(&self) -> (r: usize)
        ensures
            r == self@.nodes.dom().len(),
    {
        proof {
            assert(self@.nodes.dom() =~= self.inner_nodes@.dom());
        }
        self.inner_nodes.len()
    }

    /// The root digest.
    pub fn get_root(&self) -> (r: &Digest)
        ensures
            r@ == self@.root,
    {
        &self.root
    }

    /// Recomputes the digests on the way from a leaf to the root, for the leaf's new hash.
    fn recompute_nodes_from_leaf_to_root(&mut self, leaf_index: LeafIndex, leaf_hash: Option<Digest>)
        ensures
            final(self)@ == old(self)@.recomputed::<H>(
                leaf_index.value as nat,
                seed_of(leaf_hash),
            ),
            final(self).leaves == old(self).leaves,
    {
        let ghost pre = self@;
        let ghost pos = leaf_index.value as nat;
        let ghost seed = seed_of(leaf_hash);
        let mut node_hash = match leaf_hash {
            Some(digest) => digest,
            None => Digest::zero(),
        };
        let mut index = NodeIndex::from(leaf_index);
        proof {
            assert(self@.nodes =~= pre.recomputed_nodes::<H>(pos, seed, 64));
        }
        while index.depth > 0
            invariant
                index.depth <= 64,
                index.value == ancestor(pos, index.depth as nat),
                node_hash@ == pre.climb::<H>(pos, seed, index.depth as nat),
                self.leaves == old(self).leaves,
                self@.nodes == pre.recomputed_nodes::<H>(pos, seed, index.depth as nat),
            decreases index.depth,
        {
            let ghost before = self@;
            let side = index.get_side();
            index.move_up();
            let inner_node = self.get_inner_node(&index);
            let (left, right) = match side {
                Side::Left => (node_hash, inner_node.right),
                Side::Right => (inner_node.left, node_hash),
            };
            let ghost here = (index.depth, index.value);
            proof {
                assert(before.node_at::<H>(here.0 as nat, here.1 as nat) == pre.node_at::<H>(
                    here.0 as nat,
                    here.1 as nat,
                ));
                lemma_raised_pair_digest::<H>(pre, pos, seed, here.0 as nat);
                lemma_recompute_step::<H>(pre, pos, seed, here);
            }
            node_hash = H::hash_pair(&left, &right);
            let empty = *self.empty_roots.entry(LEAF_DEPTH, index.depth);
            if node_hash == empty {
                self.inner_nodes.remove(&(index.depth, index.value));
                assert(self@.nodes =~= before.nodes.remove(here));
            } else {
                self.inner_nodes.insert((index.depth, index.value), InnerNode { left, right });
                assert(self@.nodes =~= before.nodes.insert(here, (left@, right@)));
            }
        }
        self.root = node_hash;
        proof {
            assert(self@.leaves =~= pre.leaves);
        }
    }

    /// The two child digests of an interior node: the stored ones, or for a node that is
    /// not stored those of two empty subtrees.
    fn get_inner_node(&self, index: &NodeIndex) -> (r: InnerNode)
        requires
            index.depth < 64,
        ensures
            r@ == self@.node_at::<H>(index.depth as nat, index.value as nat),
    {
        match self.inner_nodes.get(&(index.depth, index.value)) {
            Some(node) => *node,
            None => {
                let node = *self.empty_roots.entry(LEAF_DEPTH, index.depth + 1);
                InnerNode { left: node, right: node }
            },
        }
    }
}

} // verus!

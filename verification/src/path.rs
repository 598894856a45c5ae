//! Merkle paths and the proofs built from them.

use vstd::prelude::*;
use crate::digest::Digest;
use crate::hasher::Hasher;
use crate::key::{Key, Value, empty_value};
use crate::leaf::{SmtLeaf, bucket_digest, key_index};

verus! {

/// The step of a fold: a node's digest combined with its sibling's, the node to the left
/// when its position is even, to the right when it is odd.
pub open spec fn fold_step<H: Hasher>(node: Seq<u8>, sibling: Seq<u8>, pos: nat) -> Seq<u8> {
    if pos % 2 == 0 {
        H::pair(node, sibling)
    } else {
        H::pair(sibling, node)
    }
}

/// The digest reached by folding `siblings`, lowest first, onto the digest `node` of the
/// node at position `pos`; each step halves the position.
pub open spec fn fold_path<H: Hasher>(siblings: Seq<Seq<u8>>, pos: nat, node: Seq<u8>) -> Seq<u8>
    decreases siblings.len(),
{
    if siblings.len() == 0 {
        node
    } else {
        fold_path::<H>(
            siblings.drop_first(),
            pos / 2,
            fold_step::<H>(node, siblings[0], pos),
        )
    }
}

/// The sibling digests along the way from a leaf to the root, the leaf's sibling first.
pub struct MerklePath {
    pub nodes: Vec<Digest>,
}

impl View for MerklePath {
    type V = Seq<Seq<u8>>;

    open spec fn view(&self) -> Seq<Seq<u8>> {
        Seq::new(self.nodes@.len(), |i: int| self.nodes@[i]@)
    }
}

impl MerklePath {
    /// The path made of the given sibling digests.
    pub fn new(nodes: Vec<Digest>) -> (r: Self)
        ensures
            r.nodes == nodes,
    {
        MerklePath { nodes }
    }

    /// Folds the path onto `init_hash`, the digest of the leaf at position `index`.
    pub fn compute_root<H: Hasher>(&self, index: u64, init_hash: &Digest) -> (r: Digest)
        ensures
            r@ == fold_path::<H>(self@, index as nat, init_hash@),
    {
        let mut node: Digest = *init_hash;
        let mut pos: u64 = index;
        let mut i: usize = 0;
        assert(self@.skip(0) =~= self@);
        while i < self.nodes.len()
            invariant
                i <= self.nodes@.len(),
                fold_path::<H>(self@, index as nat, init_hash@) == fold_path::<H>(
                    self@.skip(i as int),
                    pos as nat,
                    node@,
                ),
            decreases self.nodes@.len() - i,
        {
            let sibling = &self.nodes[i];
            proof {
                assert(self@.skip(i as int)[0] == sibling@);
                assert(self@.skip(i as int).drop_first() =~= self@.skip(i + 1));
            }
            node = if pos % 2 == 0 {
                H::hash_pair(&node, sibling)
            } else {
                H::hash_pair(sibling, &node)
            };
            pos = pos / 2;
            i += 1;
        }
        node
    }
}

/// A proof of what one key's value is: the key's whole bucket, and the path from it to
/// the root.
pub struct SmtProof<H> {
    pub path: MerklePath,
    pub leaf: SmtLeaf<H>,
}

impl<H: Hasher> SmtProof<H> {
    /// The root that this proof commits to.
    pub open spec fn spec_root(&self) -> Seq<u8> {
        fold_path::<H>(
            self.path@,
            self.leaf.spec_index().value as nat,
            bucket_digest::<H>(self.leaf@),
        )
    }

    /// The proof shows that `key` has `value` in the tree with the given root: the key
    /// belongs to the proof's bucket, the bucket gives it that value, and the bucket and
    /// the path fold to the root.
    pub open spec fn proves(&self, key: Key, value: Value, root: Seq<u8>) -> bool {
        &&& key_index(key) == self.leaf.spec_index().value
        &&& value == if self.leaf@.contains_key(key) {
            self.leaf@[key]
        } else {
            empty_value()
        }
        &&& self.spec_root() == root
    }

    /// Whether the proof shows that `key` has `value` under `root`.
    pub fn verify(&self, key: &Key, value: &Value, root: &Digest) -> (r: bool)
        ensures
            r == self.proves(*key, *value, root@),
    {
        let leaf_value = match self.leaf.get(key) {
            Some(v) => v,
            None => {
                return false;
            },
        };
        if leaf_value != *value {
            return false;
        }
        let proof_root = self.compute_root();
        proof_root == *root
    }

    /// The root that the bucket and the path fold to.
    pub fn compute_root(&self) -> (r: Digest)
        ensures
            r@ == self.spec_root(),
    {
        let seed = match self.leaf.hash() {
            Some(d) => d,
            None => Digest::zero(),
        };
        self.path.compute_root::<H>(self.leaf.index().value, &seed)
    }
}

} // verus!

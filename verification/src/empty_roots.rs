//! The digests of the empty subtrees, one per height.

use std::marker::PhantomData;
use vstd::prelude::*;
use crate::digest::{Digest, zero_digest};
use crate::hasher::Hasher;
use crate::leaf::LEAF_DEPTH;

verus! {

/// The digest of the subtree of the given height that holds no key: the zero digest at
/// height 0, and above it the hash of two empty subtrees one level lower.
pub open spec fn empty_root<H: Hasher>(height: nat) -> Seq<u8>
    decreases height,
{
    if height == 0 {
        zero_digest()
    } else {
        H::pair(empty_root::<H>((height - 1) as nat), empty_root::<H>((height - 1) as nat))
    }
}

/// The table of the 65 empty-subtree digests of a tree of depth 64, computed once.
#[derive(Debug, PartialEq, Eq)]
pub struct EmptySubtreeRoots<H: Hasher> {
    by_height: Vec<Digest>,
    hasher: PhantomData<H>,
}

impl<H: Hasher> Clone for EmptySubtreeRoots<H> {
    fn clone(&self) -> (r: Self) {
        proof {
            use_type_invariant(self);
        }
        let mut by_height: Vec<Digest> = Vec::new();
        let mut h: usize = 0;
        while h < 65
            invariant
                h <= 65,
                self.by_height@.len() == 65,
                by_height@ == self.by_height@.take(h as int),
            decreases 65 - h,
        {
            by_height.push(self.by_height[h]);
            assert(by_height@ =~= self.by_height@.take(h + 1));
            h += 1;
        }
        assert(by_height@ =~= self.by_height@);
        EmptySubtreeRoots { by_height, hasher: PhantomData }
    }
}

impl<H: Hasher> EmptySubtreeRoots<H> {
    /// The table holds, at each height up to 64, the digest of the empty subtree of that
    /// height.
    #[verifier::type_invariant]
    pub closed spec fn wf(&self) -> bool {
        &&& self.by_height@.len() == 65
        &&& forall|h: int|
            0 <= h <= 64 ==> (#[trigger] self.by_height@[h])@ == empty_root::<H>(h as nat)
    }

    /// Computes the table, from the leaves up.
    pub fn new() -> (r: Self)
        ensures
            r.wf(),
    {
        let mut by_height: Vec<Digest> = Vec::new();
        by_height.push(Digest::zero());
        let mut h: usize = 0;
        while h < 64
            invariant
                h <= 64,
                by_height@.len() == h + 1,
                forall|i: int|
                    0 <= i <= h ==> (#[trigger] by_height@[i])@ == empty_root::<H>(i as nat),
            decreases 64 - h,
        {
            let next = H::hash_pair(&by_height[h], &by_height[h]);
            by_height.push(next);
            h += 1;
        }
        EmptySubtreeRoots { by_height, hasher: PhantomData }
    }

    /// The digest of the empty subtree whose root is at `depth` in a tree whose leaves are
    /// at `leaf_depth`.
    pub fn entry(&self, leaf_depth: u8, depth: u8) -> (r: &Digest)
        requires
            depth <= leaf_depth <= LEAF_DEPTH,
        ensures
            r@ == empty_root::<H>((leaf_depth - depth) as nat),
    {
        proof {
            use_type_invariant(self);
        }
        &self.by_height[(leaf_depth - depth) as usize]
    }
}

} // verus!

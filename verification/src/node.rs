//! Addresses of the tree's nodes, and the cached content of an interior node.

use vstd::prelude::*;
use vstd::std_specs::convert::FromSpecImpl;
use crate::digest::Digest;
use crate::leaf::{LeafIndex, LEAF_DEPTH};

verus! {

/// The address of a node: its depth (0 at the root, 64 at the leaves) and its position
/// among the nodes of that depth.
#[derive(Clone, Copy, Debug, PartialEq, Eq, Structural, PartialOrd, Ord)]
pub struct NodeIndex {
    pub depth: u8,
    pub value: u64,
}

/// Which child of its parent a node is.
#[derive(Clone, Copy, Debug, PartialEq, Eq, Structural)]
pub enum Side {
    Left,
    Right,
}

/// The digests of the two children of an interior node.
#[derive(Clone, Copy, Debug, PartialEq, Eq)]
pub struct InnerNode {
    pub left: Digest,
    pub right: Digest,
}

impl View for InnerNode {
    type V = (Seq<u8>, Seq<u8>);

    open spec fn view(&self) -> (Seq<u8>, Seq<u8>) {
        (self.left@, self.right@)
    }
}

impl Default for NodeIndex {
    fn default() -> (r: NodeIndex)
        ensures
            r == (NodeIndex { depth: 0, value: 0 }),
    {
        NodeIndex { depth: 0, value: 0 }
    }
}

impl From<LeafIndex> for NodeIndex {
    fn from(leaf: LeafIndex) -> (r: NodeIndex) {
        NodeIndex { depth: LEAF_DEPTH, value: leaf.value }
    }
}

impl FromSpecImpl<LeafIndex> for NodeIndex {
    open spec fn obeys_from_spec() -> bool {
        true
    }

    open spec fn from_spec(leaf: LeafIndex) -> NodeIndex {
        NodeIndex { depth: LEAF_DEPTH, value: leaf.value }
    }
}

impl NodeIndex {
    /// The side that a node at this position is on.
    pub open spec fn spec_side(&self) -> Side {
        if self.value % 2 == 0 {
            Side::Left
        } else {
            Side::Right
        }
    }

    /// Moves to the parent: one level up, at half the position.
    pub fn move_up(&mut self)
        requires
            old(self).depth > 0,
        ensures
            final(self).depth == old(self).depth - 1,
            final(self).value == old(self).value / 2,
    {
        self.depth -= 1;
        self.value /= 2;
    }

    /// The side of its parent that this node is on: left at an even position, right at an
    /// odd one.
    pub fn get_side(&self) -> (r: Side)
        ensures
            r == self.spec_side(),
    {
        if self.value % 2 == 0 {
            Side::Left
        } else {
            Side::Right
        }
    }
}

} // verus!

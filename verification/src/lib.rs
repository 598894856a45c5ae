//! An authenticated key-value store over a sparse Merkle tree of depth 64.
//!
//! Keys and values are 256 bits wide. Every key has the empty value until another one is
//! inserted for it, so the tree stands for a map over all 2^256 keys of which only the
//! populated part is kept. A key is reduced to a 64-bit leaf index; the keys that share an
//! index share a leaf. The tree commits to what it holds by one root digest, and hands out,
//! for any key, a proof of the key's value that can be checked against that digest alone.
//!
//! - [`digest`], [`key`]: the fixed-size values.
//! - [`hasher`]: the hash that the tree is built on, and its SHA-256 implementation.
//! - [`listing`], [`leaf`]: leaves and the order of their pairs.
//! - [`node`], [`empty_roots`]: addresses of nodes, and the digests of empty subtrees.
//! - [`path`]: Merkle paths and proofs.
//! - [`model`]: what the digests of a tree are, and what a change makes of a tree.
//! - [`tree`]: the tree itself.
//! - [`laws`]: what holds of every tree and leaf.

pub mod digest;
pub mod empty_roots;
pub mod hasher;
pub mod key;
pub mod laws;
pub mod leaf;
pub mod listing;
pub mod model;
pub mod node;
pub mod path;
pub mod tree;

pub use digest::Digest;
pub use empty_roots::EmptySubtreeRoots;
pub use hasher::Hasher;
pub use key::{Key, Value};
pub use node::{InnerNode, NodeIndex, Side};
pub use path::{MerklePath, SmtProof};
pub use tree::Smt;

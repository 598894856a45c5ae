//! Leaves: the buckets of keys that share a leaf index.

use std::marker::PhantomData;
use vstd::prelude::*;
use crate::digest::{Digest, zero_digest};
use crate::hasher::Hasher;
use crate::key::{Key, Value, empty_value};
use crate::listing::{
    entry_word, lemma_listing_absent, lemma_listing_empty, lemma_listing_insert,
    lemma_listing_lookup, lemma_listing_remove, lemma_listing_update,
    lemma_sorted_listing_of_map, listing_map, listing_sorted, listing_words, sorted_listing,
};

verus! {

/// Depth of the leaves: the root is at depth 0.
pub const LEAF_DEPTH: u8 = 64;

/// The 64-bit address of a leaf.
#[derive(Clone, Copy, Debug, PartialEq, Eq, Structural, PartialOrd, Ord)]
pub struct LeafIndex {
    pub value: u64,
}

impl Default for LeafIndex {
    fn default() -> (r: LeafIndex)
        ensures
            r.value == 0,
    {
        LeafIndex { value: 0 }
    }
}

/// The leaf index of a key: its last two words, word 6 being the low half.
pub open spec fn key_index(key: Key) -> u64 {
    (key.0@[6] + key.0@[7] * 0x1_0000_0000) as u64
}

/// Reduces a key to the index of the leaf that holds it.
pub fn key_to_leaf_index(key: &Key) -> (r: LeafIndex)
    ensures
        r.value == key_index(*key),
{
    let low: u64 = key.0[6] as u64;
    let high: u64 = key.0[7] as u64;
    LeafIndex { value: low + high * 0x1_0000_0000 }
}

/// The hash of a bucket: none for the empty bucket, else the hash of its pairs' words in
/// ascending key order.
pub open spec fn bucket_hash<H: Hasher>(m: Map<Key, Value>) -> Option<Seq<u8>> {
    if m == Map::<Key, Value>::empty() {
        None
    } else {
        Some(H::words(listing_words(sorted_listing(m))))
    }
}

/// What a bucket contributes to its parent: its hash, or the zero digest when it is empty.
pub open spec fn bucket_digest<H: Hasher>(m: Map<Key, Value>) -> Seq<u8> {
    match bucket_hash::<H>(m) {
        Some(d) => d,
        None => zero_digest(),
    }
}

/// The byte view of an optional digest.
pub open spec fn digest_view(d: Option<Digest>) -> Option<Seq<u8>> {
    match d {
        Some(d) => Some(d@),
        None => None,
    }
}

/// All the keys that map to one leaf index, with their values, in ascending key order.
#[derive(Debug, PartialEq, Eq)]
pub struct SmtLeaf<H> {
    index: LeafIndex,
    kvs: Vec<(Key, Value)>,
    hasher: PhantomData<H>,
}

impl<H> View for SmtLeaf<H> {
    type V = Map<Key, Value>;

    closed spec fn view(&self) -> Map<Key, Value> {
        listing_map(self.kvs@)
    }
}

impl<H> Clone for SmtLeaf<H> {
    fn clone(&self) -> (r: Self)
        ensures
            r@ == self@,
            r.spec_index() == self.spec_index(),
    {
        proof {
            use_type_invariant(self);
        }
        let mut kvs: Vec<(Key, Value)> = Vec::new();
        let mut i: usize = 0;
        while i < self.kvs.len()
            invariant
                i <= self.kvs@.len(),
                kvs@ == self.kvs@.take(i as int),
            decreases self.kvs@.len() - i,
        {
            kvs.push(self.kvs[i]);
            assert(kvs@ =~= self.kvs@.take(i + 1));
            i += 1;
        }
        assert(kvs@ =~= self.kvs@);
        SmtLeaf { index: self.index, kvs, hasher: PhantomData }
    }
}

impl<H> SmtLeaf<H> {
    /// The pairs are in ascending key order, and every key maps to this leaf's index.
    #[verifier::type_invariant]
    pub closed spec fn wf(&self) -> bool {
        &&& listing_sorted(self.kvs@)
        &&& forall|i: int|
            0 <= i < self.kvs@.len() ==> key_index((#[trigger] self.kvs@[i]).0)
                == self.index.value
    }

    /// The index of this leaf.
    pub closed spec fn spec_index(&self) -> LeafIndex {
        self.index
    }

    /// Every key of a leaf maps to the leaf's index.
    pub proof fn lemma_keys_share_index(&self)
        requires
            self.wf(),
        ensures
            forall|k: Key| #[trigger]
                self@.contains_key(k) ==> key_index(k) == self.spec_index().value,
    {
    }

    /// The empty bucket for `index`.
    pub fn new(index: LeafIndex) -> (r: Self)
        ensures
            r@ == Map::<Key, Value>::empty(),
            r.spec_index() == index,
            r.wf(),
    {
        let r = SmtLeaf { index, kvs: Vec::new(), hasher: PhantomData };
        proof {
            lemma_listing_empty(r.kvs@);
        }
        r
    }

    /// The bucket that holds one pair, at the index of its key.
    pub fn new_single(key: Key, value: Value) -> (r: Self)
        ensures
            r@ == Map::<Key, Value>::empty().insert(key, value),
            r.spec_index().value == key_index(key),
            r.wf(),
    {
        let index = key_to_leaf_index(&key);
        let mut kvs: Vec<(Key, Value)> = Vec::new();
        proof {
            lemma_listing_empty(kvs@);
            lemma_listing_insert(kvs@, 0, key, value);
        }
        kvs.insert(0, (key, value));
        SmtLeaf { index, kvs, hasher: PhantomData }
    }

    /// The first position whose key does not come before `key`.
    fn locate(&self, key: &Key) -> (pos: usize)
        ensures
            pos <= self.kvs@.len(),
            forall|i: int| 0 <= i < pos ==> (#[trigger] self.kvs@[i]).0.precedes(*key),
            pos < self.kvs@.len() ==> !self.kvs@[pos as int].0.precedes(*key),
    {
        let mut pos: usize = 0;
        while pos < self.kvs.len() && self.kvs[pos].0.less_than(key)
            invariant
                pos <= self.kvs@.len(),
                forall|i: int| 0 <= i < pos ==> (#[trigger] self.kvs@[i]).0.precedes(*key),
            decreases self.kvs@.len() - pos,
        {
            pos += 1;
        }
        pos
    }

    /// The value of `key` in this bucket, the empty value where it has none; nothing where
    /// `key` belongs to another leaf.
    pub fn get(&self, key: &Key) -> (r: Option<Value>)
        ensures
            r == if key_index(*key) != self.spec_index().value {
                None
            } else if self@.contains_key(*key) {
                Some(self@[*key])
            } else {
                Some(empty_value())
            },
    {
        if key_to_leaf_index(key).value != self.index.value {
            return None;
        }
        match self.get_direct(key) {
            Some(v) => Some(v),
            None => Some(Value::empty()),
        }
    }

    /// The value stored for `key`, if any, for a key known to belong to this leaf.
    pub fn get_direct(&self, key: &Key) -> (r: Option<Value>)
        requires
            key_index(*key) == self.spec_index().value,
        ensures
            r == if self@.contains_key(*key) {
                Some(self@[*key])
            } else {
                None
            },
    {
        proof {
            use_type_invariant(self);
        }
        let pos = self.locate(key);
        if pos < self.kvs.len() && self.kvs[pos].0 == *key {
            proof {
                lemma_listing_lookup(self.kvs@, pos as int);
            }
            Some(self.kvs[pos].1)
        } else {
            proof {
                lemma_listing_absent(self.kvs@, pos as int, *key);
            }
            None
        }
    }

    /// The pairs of the bucket, in ascending key order.
    pub fn pairs(&self) -> (r: Vec<(Key, Value)>)
        ensures
            r@ == sorted_listing(self@),
    {
        proof {
            use_type_invariant(self);
            lemma_sorted_listing_of_map(self.kvs@);
        }
        let mut r: Vec<(Key, Value)> = Vec::new();
        let mut i: usize = 0;
        while i < self.kvs.len()
            invariant
                i <= self.kvs@.len(),
                r@ == self.kvs@.take(i as int),
            decreases self.kvs@.len() - i,
        {
            r.push(self.kvs[i]);
            assert(r@ =~= self.kvs@.take(i + 1));
            i += 1;
        }
        assert(r@ =~= self.kvs@);
        r
    }

    /// Whether the bucket holds no pair.
    pub fn is_empty(&self) -> (r: bool)
        ensures
            r == (self@ =~= Map::<Key, Value>::empty()),
    {
        proof {
            lemma_listing_empty(self.kvs@);
        }
        self.kvs.len() == 0
    }

    /// The index of this leaf.
    pub fn index(&self) -> (r: LeafIndex)
        ensures
            r == self.spec_index(),
    {
        self.index
    }

    /// Stores `value` for `key` and returns the value it had, the empty value if none.
    pub fn insert(&mut self, key: Key, value: Value) -> (r: Value)
        requires
            key_index(key) == old(self).spec_index().value,
        ensures
            final(self)@ == old(self)@.insert(key, value),
            final(self).spec_index() == old(self).spec_index(),
            final(self).wf(),
            r == if old(self)@.contains_key(key) {
                old(self)@[key]
            } else {
                empty_value()
            },
    {
        proof {
            use_type_invariant(&*self);
        }
        let pos = self.locate(&key);
        let found = pos < self.kvs.len() && self.kvs[pos].0 == key;
        let mut kvs: Vec<(Key, Value)> = Vec::new();
        core::mem::swap(&mut self.kvs, &mut kvs);
        let previous = if found {
            let previous = kvs[pos].1;
            proof {
                lemma_listing_lookup(kvs@, pos as int);
                lemma_listing_update(kvs@, pos as int, value);
            }
            kvs.set(pos, (key, value));
            previous
        } else {
            proof {
                lemma_listing_absent(kvs@, pos as int, key);
                lemma_listing_insert(kvs@, pos as int, key, value);
            }
            kvs.insert(pos, (key, value));
            Value::empty()
        };
        self.kvs = kvs;
        previous
    }

    /// Removes `key` and returns the value it had, if it had one.
    pub fn remove(&mut self, key: &Key) -> (r: Option<Value>)
        ensures
            final(self)@ == old(self)@.remove(*key),
            final(self).spec_index() == old(self).spec_index(),
            final(self).wf(),
            r == if old(self)@.contains_key(*key) {
                Some(old(self)@[*key])
            } else {
                None
            },
    {
        proof {
            use_type_invariant(&*self);
        }
        let pos = self.locate(key);
        if pos < self.kvs.len() && self.kvs[pos].0 == *key {
            let mut kvs: Vec<(Key, Value)> = Vec::new();
            core::mem::swap(&mut self.kvs, &mut kvs);
            proof {
                lemma_listing_lookup(kvs@, pos as int);
                lemma_listing_remove(kvs@, pos as int);
            }
            let removed = kvs.remove(pos);
            self.kvs = kvs;
            Some(removed.1)
        } else {
            proof {
                lemma_listing_absent(self.kvs@, pos as int, *key);
                assert(self@.remove(*key) =~= self@);
            }
            None
        }
    }
}

impl<H: Hasher> SmtLeaf<H> {
    /// The hash of the bucket: none when it is empty, else the hash of all its pairs, each
    /// key's words followed by its value's, in ascending key order.
    pub fn hash(&self) -> (r: Option<Digest>)
        ensures
            digest_view(r) == bucket_hash::<H>(self@),
    {
        proof {
            use_type_invariant(self);
            lemma_listing_empty(self.kvs@);
            lemma_sorted_listing_of_map(self.kvs@);
        }
        if self.kvs.len() == 0 {
            return None;
        }
        let mut words: Vec<u32> = Vec::new();
        let mut i: usize = 0;
        while i < self.kvs.len()
            invariant
                i <= self.kvs@.len(),
                words@.len() == 16 * i,
                forall|j: int|
                    0 <= j < 16 * i ==> words@[j] == entry_word(self.kvs@[j / 16], j % 16),
            decreases self.kvs@.len() - i,
        {
            let entry = self.kvs[i];
            let mut w: usize = 0;
            while w < 16
                invariant
                    w <= 16,
                    i < self.kvs@.len(),
                    entry == self.kvs@[i as int],
                    words@.len() == 16 * i + w,
                    forall|j: int|
                        0 <= j < 16 * i + w ==> words@[j] == entry_word(
                            self.kvs@[j / 16],
                            j % 16,
                        ),
                decreases 16 - w,
            {
                let word: u32 = if w < 8 {
                    entry.0.0[w]
                } else {
                    entry.1.0[w - 8]
                };
                words.push(word);
                w += 1;
            }
            i += 1;
        }
        assert(words@ =~= listing_words(self.kvs@));
        Some(H::hash_words(words.as_slice()))
    }
}

} // verus!

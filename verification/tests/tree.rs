use risc0_zkvm::sha::Impl;
use sparse_merkle::leaf::{LeafIndex, SmtLeaf, LEAF_DEPTH};
use sparse_merkle::{Digest, EmptySubtreeRoots, Hasher, Key, Smt, Value};

const EMPTY_TREE_ROOT: [u8; 32] = [
    234, 223, 35, 252, 153, 213, 20, 221, 142, 162, 4, 210, 35, 233, 141, 169, 136, 131, 31, 155,
    93, 25, 64, 39, 76, 165, 32, 183, 251, 23, 61, 138,
];

#[test]
fn test_create_empty_tree() {
    let smt = Smt::<Impl>::new();
    let empty_roots = EmptySubtreeRoots::<Impl>::new();
    assert_eq!(smt.get_root(), empty_roots.entry(LEAF_DEPTH, 0));

    let key = Key([0; 8]);
    let (value, proof) = smt.get(&key);
    assert_eq!(value, Value::empty());
    assert!(proof.verify(&key, &value, smt.get_root()));
}

#[test]
fn test_insert() {
    let mut smt = Smt::<Impl>::new();
    let empty_root = *smt.get_root();

    let key_1 = Key([1, 0, 0, 0, 0, 0, 0, 0]);
    let value_1 = Value(Impl::hash_words(&[]).as_words());

    let key_2 = Key([0, 0, 0, 0, 0, 0, 0, 1]);
    let value_2 = Value(Impl::hash_words(&[7]).as_words());

    let old_value = insert_and_check_proof(&mut smt, key_1, value_1);
    assert_eq!(old_value, Value::empty());
    let single_insert_root = *smt.get_root();

    let old_value = insert_and_check_proof(&mut smt, key_2, value_2);
    assert_eq!(old_value, Value::empty());

    let removed_value = smt.remove(&key_2);
    assert_eq!(removed_value, value_2);
    assert_eq!(&single_insert_root, smt.get_root());

    let removed_value = smt.remove(&key_1);
    assert_eq!(removed_value, value_1);
    assert_eq!(&empty_root, smt.get_root());

    for key in KeyIter::default() {
        let value = Value(key.0);
        insert_and_check_proof(&mut smt, key, value);
    }
}

fn insert_and_check_proof(smt: &mut Smt<Impl>, key: Key, value: Value) -> Value {
    let old_value = smt.insert(key, value);

    let (inserted_value, proof) = smt.get(&key);
    assert_eq!(inserted_value, value);
    assert!(proof.verify(&key, &value, smt.get_root()));

    old_value
}

struct KeyIter {
    state: Key,
}

impl Default for KeyIter {
    fn default() -> Self {
        Self { state: Key([0; 8]) }
    }
}

impl KeyIter {
    const MAX_VALUE: u32 = 2;
}

impl Iterator for KeyIter {
    type Item = Key;

    fn next(&mut self) -> Option<Self::Item> {
        if self.state.0[7] > Self::MAX_VALUE {
            return None;
        }

        let result = Some(self.state);

        let mut i = 0;
        self.state.0[i] += 1;
        while (i < 7) && self.state.0[i] > Self::MAX_VALUE {
            self.state.0[i] = 0;
            i += 1;
            self.state.0[i] += 1;
        }

        result
    }
}

fn value(n: u32) -> Value {
    Value([n, 0, 0, 0, 0, 0, 0, n + 1])
}

#[test]
fn fresh_tree_has_the_known_root() {
    let smt = Smt::<Impl>::new();
    assert_eq!(smt.get_root(), &Digest(EMPTY_TREE_ROOT));
    let empty_roots = EmptySubtreeRoots::<Impl>::new();
    let below = empty_roots.entry(LEAF_DEPTH, 1);
    assert_eq!(smt.get_root(), &Impl::hash_pair(below, below));
    assert_eq!(smt.stored_nodes(), 0);
}

#[test]
fn default_tree_is_the_fresh_tree() {
    let smt = Smt::<Impl>::default();
    assert_eq!(smt.get_root(), &Digest(EMPTY_TREE_ROOT));
}

#[test]
fn fresh_tree_gives_every_key_the_empty_value() {
    let smt = Smt::<Impl>::new();
    for key in [
        Key([0; 8]),
        Key([1, 2, 3, 4, 5, 6, 7, 8]),
        Key([u32::MAX; 8]),
    ] {
        let (found, proof) = smt.get(&key);
        assert_eq!(found, Value::empty());
        assert!(proof.verify(&key, &Value::empty(), smt.get_root()));
        assert!(proof.leaf.is_empty());
        assert_eq!(proof.path.nodes.len(), 64);
    }
}

#[test]
fn inserted_value_is_read_back_and_proved() {
    let mut smt = Smt::<Impl>::new();
    let key = Key([9, 8, 7, 6, 5, 4, 3, 2]);
    assert_eq!(smt.insert(key, value(5)), Value::empty());
    let (found, proof) = smt.get(&key);
    assert_eq!(found, value(5));
    assert!(proof.verify(&key, &value(5), smt.get_root()));
    assert!(!proof.verify(&key, &value(6), smt.get_root()));
    assert!(!proof.verify(&key, &value(5), &Digest(EMPTY_TREE_ROOT)));
    let other = Key([9, 8, 7, 6, 5, 4, 3, 3]);
    assert!(!proof.verify(&other, &Value::empty(), smt.get_root()));
}

#[test]
fn insert_returns_the_previous_value() {
    let mut smt = Smt::<Impl>::new();
    let key = Key([4; 8]);
    assert_eq!(smt.insert(key, value(1)), Value::empty());
    assert_eq!(smt.insert(key, value(2)), value(1));
    assert_eq!(smt.get(&key).0, value(2));
}

#[test]
fn insert_then_remove_restores_the_root() {
    let mut smt = Smt::<Impl>::new();
    smt.insert(Key([1, 1, 1, 1, 1, 1, 1, 1]), value(1));
    smt.insert(Key([2, 2, 2, 2, 2, 2, 2, 2]), value(2));
    let before = *smt.get_root();
    let nodes_before = smt.stored_nodes();

    let key = Key([3, 3, 3, 3, 3, 3, 3, 3]);
    smt.insert(key, value(3));
    assert_ne!(smt.get_root(), &before);
    assert_eq!(smt.remove(&key), value(3));
    assert_eq!(smt.get_root(), &before);
    assert_eq!(smt.stored_nodes(), nodes_before);
    assert_eq!(smt.get(&key).0, Value::empty());
}

#[test]
fn second_insert_of_the_same_pair_changes_nothing() {
    let mut smt = Smt::<Impl>::new();
    let key = Key([5, 0, 0, 0, 0, 0, 0, 9]);
    assert_eq!(smt.insert(key, value(7)), Value::empty());
    let root = *smt.get_root();
    assert_eq!(smt.insert(key, value(7)), value(7));
    assert_eq!(smt.get_root(), &root);
}

#[test]
fn inserting_the_empty_value_is_removing() {
    let key = Key([6, 0, 0, 0, 0, 0, 1, 0]);
    let other = Key([7, 0, 0, 0, 0, 0, 2, 0]);
    let mut by_insert = Smt::<Impl>::new();
    let mut by_remove = Smt::<Impl>::new();
    for smt in [&mut by_insert, &mut by_remove] {
        smt.insert(key, value(1));
        smt.insert(other, value(2));
    }
    assert_eq!(by_insert.insert(key, Value::empty()), value(1));
    assert_eq!(by_remove.remove(&key), value(1));
    assert_eq!(by_insert.get_root(), by_remove.get_root());
    assert_eq!(by_insert.get(&key).0, Value::empty());

    assert_eq!(by_insert.insert(key, Value::empty()), Value::empty());
    assert_eq!(by_remove.remove(&key), Value::empty());
    assert_eq!(by_insert.get_root(), by_remove.get_root());
}

#[test]
fn removing_an_absent_key_changes_nothing() {
    let mut smt = Smt::<Impl>::new();
    assert_eq!(smt.remove(&Key([1; 8])), Value::empty());
    assert_eq!(smt.get_root(), &Digest(EMPTY_TREE_ROOT));

    smt.insert(Key([1, 0, 0, 0, 0, 0, 5, 5]), value(1));
    let root = *smt.get_root();
    // same bucket, other key
    assert_eq!(smt.remove(&Key([2, 0, 0, 0, 0, 0, 5, 5])), Value::empty());
    assert_eq!(smt.get_root(), &root);
}

#[test]
fn nodes_of_an_emptied_tree_are_pruned() {
    let mut smt = Smt::<Impl>::new();
    let key_1 = Key([0, 0, 0, 0, 0, 0, 0, 0]);
    let key_2 = Key([0, 0, 0, 0, 0, 0, 1, 0]);
    smt.insert(key_1, value(1));
    // one stored node per level on the way from the leaf to the root
    assert_eq!(smt.stored_nodes(), 64);
    smt.insert(key_2, value(2));
    // the two leaves are siblings: they share every node on the way
    assert_eq!(smt.stored_nodes(), 64);
    smt.remove(&key_1);
    assert_eq!(smt.stored_nodes(), 64);
    smt.remove(&key_2);
    assert_eq!(smt.stored_nodes(), 0);
    assert_eq!(smt.get_root(), &Digest(EMPTY_TREE_ROOT));
}

#[test]
fn distant_leaves_share_only_the_root_node() {
    let mut smt = Smt::<Impl>::new();
    smt.insert(Key([0, 0, 0, 0, 0, 0, 0, 0]), value(1));
    smt.insert(Key([0, 0, 0, 0, 0, 0, 0, 0x8000_0000]), value(2));
    assert_eq!(smt.stored_nodes(), 127);
}

#[test]
fn colliding_keys_are_kept_apart_in_one_bucket() {
    let mut smt = Smt::<Impl>::new();
    let key_1 = Key([1, 0, 0, 0, 0, 0, 11, 12]);
    let key_2 = Key([2, 0, 0, 0, 0, 0, 11, 12]);
    smt.insert(key_2, value(20));
    smt.insert(key_1, value(10));

    let (found_1, proof_1) = smt.get(&key_1);
    let (found_2, proof_2) = smt.get(&key_2);
    assert_eq!(found_1, value(10));
    assert_eq!(found_2, value(20));
    assert!(proof_1.verify(&key_1, &value(10), smt.get_root()));
    assert!(proof_2.verify(&key_2, &value(20), smt.get_root()));
    assert!(!proof_1.verify(&key_1, &value(20), smt.get_root()));

    let mut words: Vec<u32> = Vec::new();
    words.extend_from_slice(&key_1.0);
    words.extend_from_slice(&value(10).0);
    words.extend_from_slice(&key_2.0);
    words.extend_from_slice(&value(20).0);
    assert_eq!(proof_1.leaf.hash(), Some(Impl::hash_words(&words)));
    assert_eq!(proof_1.leaf.index(), LeafIndex { value: 11 + (12u64 << 32) });

    let single: SmtLeaf<Impl> = SmtLeaf::new_single(key_1, value(10));
    assert_ne!(proof_1.leaf.hash(), single.hash());
}

#[test]
fn cloned_tree_is_a_snapshot() {
    let mut smt = Smt::<Impl>::new();
    let key = Key([1, 2, 3, 4, 5, 6, 7, 8]);
    smt.insert(key, value(1));
    let snapshot = smt.clone();
    smt.insert(key, value(2));
    assert_eq!(snapshot.get(&key).0, value(1));
    assert_ne!(snapshot.get_root(), smt.get_root());
    smt.insert(key, value(1));
    assert_eq!(snapshot.get_root(), smt.get_root());
    assert_eq!(snapshot.stored_nodes(), smt.stored_nodes());
}

#[test]
fn proof_of_an_old_root_fails_after_a_change() {
    let mut smt = Smt::<Impl>::new();
    let key = Key([1, 2, 3, 4, 5, 6, 7, 8]);
    smt.insert(key, value(1));
    let (found, proof) = smt.get(&key);
    let old_root = *smt.get_root();
    smt.insert(Key([8, 7, 6, 5, 4, 3, 2, 1]), value(2));
    assert!(proof.verify(&key, &found, &old_root));
    assert!(!proof.verify(&key, &found, smt.get_root()));
}

#[test]
fn root_depends_on_what_is_held_alone() {
    // a history of insertions, overwrites and removals
    let mut worn = Smt::<Impl>::new();
    let mut state: u32 = 12345;
    let mut held: std::collections::BTreeMap<[u32; 8], [u32; 8]> = std::collections::BTreeMap::new();
    for step in 0..400u32 {
        state = state.wrapping_mul(1664525).wrapping_add(1013904223);
        let a = (state >> 16) % 5;
        state = state.wrapping_mul(1664525).wrapping_add(1013904223);
        let b = (state >> 16) % 3;
        state = state.wrapping_mul(1664525).wrapping_add(1013904223);
        let c = (state >> 16) % 3;
        let key = Key([a, 0, 0, 0, 0, 0, b, c]);
        state = state.wrapping_mul(1664525).wrapping_add(1013904223);
        if (state >> 16) % 3 == 0 {
            let expected = held.remove(&key.0).map(Value).unwrap_or(Value::empty());
            assert_eq!(worn.remove(&key), expected);
        } else {
            let new = value(step);
            let expected = held.insert(key.0, new.0).map(Value).unwrap_or(Value::empty());
            assert_eq!(worn.insert(key, new), expected);
        }
        let (found, proof) = worn.get(&key);
        assert_eq!(found, held.get(&key.0).copied().map(Value).unwrap_or(Value::empty()));
        assert!(proof.verify(&key, &found, worn.get_root()));
    }
    assert!(!held.is_empty());

    // the same content, inserted once, in descending key order
    let mut neat = Smt::<Impl>::new();
    for (key, held_value) in held.iter().rev() {
        neat.insert(Key(*key), Value(*held_value));
    }
    assert_eq!(neat.get_root(), worn.get_root());
    assert_eq!(neat.stored_nodes(), worn.stored_nodes());
    for (key, held_value) in held.iter() {
        let (found, proof) = worn.get(&Key(*key));
        assert_eq!(found, Value(*held_value));
        assert!(proof.verify(&Key(*key), &found, neat.get_root()));
    }

    // emptied, it is the empty tree again
    for key in held.keys() {
        worn.remove(&Key(*key));
    }
    assert_eq!(worn.get_root(), &Digest(EMPTY_TREE_ROOT));
    assert_eq!(worn.stored_nodes(), 0);
}

use risc0_zkvm::sha::Impl;
use sparse_merkle::hasher::words_to_le_bytes;
use sparse_merkle::leaf::{key_to_leaf_index, LeafIndex, SmtLeaf, LEAF_DEPTH};
use sparse_merkle::{
    Digest, EmptySubtreeRoots, Hasher, InnerNode, Key, MerklePath, NodeIndex, Side, SmtProof,
    Value,
};

const PAIR_OF_ZEROS: [u8; 32] = [
    218, 86, 152, 190, 23, 185, 180, 105, 98, 51, 87, 153, 119, 159, 190, 202, 140, 229, 212, 145,
    192, 210, 98, 67, 186, 254, 249, 234, 24, 55, 169, 216,
];

const SHA256_OF_NOTHING: [u8; 32] = [
    227, 176, 196, 66, 152, 252, 28, 20, 154, 251, 244, 200, 153, 111, 185, 36, 39, 174, 65, 228,
    100, 155, 147, 76, 164, 149, 153, 27, 120, 82, 184, 85,
];

const SHA256_OF_WORD_SEVEN: [u8; 32] = [
    232, 97, 63, 90, 91, 201, 249, 254, 237, 163, 42, 142, 124, 128, 182, 157, 212, 135, 142, 71,
    182, 169, 23, 35, 251, 21, 235, 132, 35, 107, 106, 43,
];

const PAIR_OF_NOTHING_AND_ZERO: [u8; 32] = [
    44, 17, 150, 20, 27, 64, 202, 217, 19, 197, 187, 209, 46, 74, 193, 163, 145, 28, 130, 18, 19,
    206, 218, 56, 104, 6, 201, 46, 152, 25, 223, 48,
];

#[test]
fn zero_digest_is_all_zero() {
    assert_eq!(Digest::zero(), Digest([0; 32]));
    assert_eq!(Digest::zero().as_words(), [0u32; 8]);
}

#[test]
fn digest_words_are_little_endian() {
    let digest = Digest(SHA256_OF_NOTHING);
    assert_eq!(
        digest.as_words(),
        [
            0x42c4b0e3, 0x141cfc98, 0xc8f4fb9a, 0x24b96f99, 0xe441ae27, 0x4c939b64, 0x1b9995a4,
            0x55b85278
        ]
    );
}

#[test]
fn digests_compare_by_their_bytes() {
    let mut other = SHA256_OF_NOTHING;
    other[31] ^= 1;
    assert_eq!(Digest(SHA256_OF_NOTHING), Digest(SHA256_OF_NOTHING));
    assert_ne!(Digest(SHA256_OF_NOTHING), Digest(other));
}

#[test]
fn hash_pair_is_the_sha256_compression() {
    let zero = Digest::zero();
    assert_eq!(Impl::hash_pair(&zero, &zero), Digest(PAIR_OF_ZEROS));
    let nothing = Digest(SHA256_OF_NOTHING);
    assert_eq!(Impl::hash_pair(&nothing, &zero), Digest(PAIR_OF_NOTHING_AND_ZERO));
    assert_ne!(Impl::hash_pair(&zero, &nothing), Impl::hash_pair(&nothing, &zero));
}

#[test]
fn hash_words_is_sha256_of_the_words_bytes() {
    assert_eq!(Impl::hash_words(&[]), Digest(SHA256_OF_NOTHING));
    assert_eq!(Impl::hash_words(&[7]), Digest(SHA256_OF_WORD_SEVEN));
}

#[test]
fn words_are_laid_out_least_significant_byte_first() {
    assert_eq!(words_to_le_bytes(&[]), Vec::<u8>::new());
    assert_eq!(
        words_to_le_bytes(&[0x0403_0201, 7, 0xffee_ddcc]),
        vec![1, 2, 3, 4, 7, 0, 0, 0, 0xcc, 0xdd, 0xee, 0xff]
    );
}

#[test]
fn empty_subtree_roots_double_up_from_zero() {
    let table = EmptySubtreeRoots::<Impl>::new();
    assert_eq!(table.entry(LEAF_DEPTH, LEAF_DEPTH), &Digest::zero());
    assert_eq!(table.entry(LEAF_DEPTH, 63), &Digest(PAIR_OF_ZEROS));
    for depth in 0..LEAF_DEPTH {
        let below = table.entry(LEAF_DEPTH, depth + 1);
        assert_eq!(table.entry(LEAF_DEPTH, depth), &Impl::hash_pair(below, below));
    }
    // only the height counts
    assert_eq!(table.entry(10, 9), &Digest(PAIR_OF_ZEROS));
    assert_eq!(table.entry(0, 0), &Digest::zero());
}

#[test]
fn leaf_index_is_made_of_the_last_two_words() {
    assert_eq!(key_to_leaf_index(&Key([0; 8])), LeafIndex { value: 0 });
    assert_eq!(key_to_leaf_index(&Key([9, 9, 9, 9, 9, 9, 0, 0])), LeafIndex { value: 0 });
    assert_eq!(key_to_leaf_index(&Key([0, 0, 0, 0, 0, 0, 1, 0])), LeafIndex { value: 1 });
    assert_eq!(key_to_leaf_index(&Key([0, 0, 0, 0, 0, 0, 0, 1])), LeafIndex { value: 1 << 32 });
    assert_eq!(
        key_to_leaf_index(&Key([0, 0, 0, 0, 0, 0, 0x0102_0304, 0x0506_0708])),
        LeafIndex { value: 0x0506_0708_0102_0304 }
    );
    assert_eq!(key_to_leaf_index(&Key([0, 0, 0, 0, 0, 0, u32::MAX, u32::MAX])).value, u64::MAX);
    assert_eq!(LeafIndex::default(), LeafIndex { value: 0 });
}

#[test]
fn keys_are_ordered_word_by_word() {
    let low = Key([1, 9, 9, 9, 9, 9, 9, 9]);
    let high = Key([2, 0, 0, 0, 0, 0, 0, 0]);
    assert!(low.less_than(&high));
    assert!(!high.less_than(&low));
    assert!(!low.less_than(&low));
    assert!(Key([1, 2, 3, 4, 5, 6, 7, 8]).less_than(&Key([1, 2, 3, 4, 5, 6, 7, 9])));
    assert!(low < high);
    assert_eq!(Key([3; 8]), Key([3; 8]));
    assert_ne!(Key([3; 8]), Key([3, 3, 3, 3, 3, 3, 3, 4]));
}

#[test]
fn empty_value_is_all_zero() {
    assert_eq!(Value::empty(), Value([0; 8]));
    assert_ne!(Value::empty(), Value([0, 0, 0, 0, 0, 0, 0, 1]));
}

#[test]
fn node_index_moves_up_by_halving() {
    let mut index = NodeIndex::from(LeafIndex { value: 13 });
    assert_eq!(index, NodeIndex { depth: 64, value: 13 });
    assert_eq!(index.get_side(), Side::Right);
    index.move_up();
    assert_eq!(index, NodeIndex { depth: 63, value: 6 });
    assert_eq!(index.get_side(), Side::Left);
    index.move_up();
    assert_eq!(index, NodeIndex { depth: 62, value: 3 });
    assert_eq!(index.get_side(), Side::Right);
    assert_eq!(NodeIndex::default(), NodeIndex { depth: 0, value: 0 });
}

#[test]
fn inner_node_holds_two_digests() {
    let node = InnerNode { left: Digest::zero(), right: Digest(PAIR_OF_ZEROS) };
    assert_eq!(node, InnerNode { left: Digest([0; 32]), right: Digest(PAIR_OF_ZEROS) });
}

#[test]
fn new_leaf_is_empty() {
    let leaf: SmtLeaf<Impl> = SmtLeaf::new(LeafIndex { value: 5 });
    assert!(leaf.is_empty());
    assert_eq!(leaf.index(), LeafIndex { value: 5 });
    assert_eq!(leaf.hash(), None);
    assert_eq!(leaf.get(&Key([0, 0, 0, 0, 0, 0, 5, 0])), Some(Value::empty()));
    assert_eq!(leaf.get(&Key([0, 0, 0, 0, 0, 0, 6, 0])), None);
}

#[test]
fn single_leaf_holds_its_pair() {
    let key = Key([1, 2, 3, 4, 5, 6, 7, 8]);
    let held = Value([8, 7, 6, 5, 4, 3, 2, 1]);
    let leaf: SmtLeaf<Impl> = SmtLeaf::new_single(key, held);
    assert!(!leaf.is_empty());
    assert_eq!(leaf.index(), LeafIndex { value: 7 + (8u64 << 32) });
    assert_eq!(leaf.get(&key), Some(held));
    assert_eq!(leaf.get_direct(&key), Some(held));
    assert_eq!(leaf.get_direct(&Key([0, 2, 3, 4, 5, 6, 7, 8])), None);
    assert_eq!(
        leaf.hash(),
        Some(Impl::hash_words(&[1, 2, 3, 4, 5, 6, 7, 8, 8, 7, 6, 5, 4, 3, 2, 1]))
    );
}

#[test]
fn leaf_insert_and_remove_return_what_was_held() {
    let mut leaf: SmtLeaf<Impl> = SmtLeaf::new(LeafIndex { value: 0 });
    let key = Key([1, 0, 0, 0, 0, 0, 0, 0]);
    assert_eq!(leaf.insert(key, Value([1; 8])), Value::empty());
    assert_eq!(leaf.insert(key, Value([2; 8])), Value([1; 8]));
    assert_eq!(leaf.get(&key), Some(Value([2; 8])));
    assert_eq!(leaf.remove(&Key([2, 0, 0, 0, 0, 0, 0, 0])), None);
    assert_eq!(leaf.remove(&key), Some(Value([2; 8])));
    assert_eq!(leaf.remove(&key), None);
    assert!(leaf.is_empty());
    assert_eq!(leaf.hash(), None);
}

#[test]
fn leaf_hash_does_not_depend_on_insertion_order() {
    let keys = [
        Key([3, 0, 0, 0, 0, 0, 4, 4]),
        Key([1, 0, 0, 0, 0, 0, 4, 4]),
        Key([2, 5, 0, 0, 0, 0, 4, 4]),
        Key([2, 0, 0, 0, 0, 0, 4, 4]),
    ];
    let orders: [[usize; 4]; 4] = [[0, 1, 2, 3], [3, 2, 1, 0], [1, 3, 0, 2], [2, 0, 3, 1]];
    let mut hashes = Vec::new();
    for order in orders {
        let mut leaf: SmtLeaf<Impl> = SmtLeaf::new(LeafIndex { value: 4 + (4u64 << 32) });
        for i in order {
            leaf.insert(keys[i], Value([i as u32 + 1; 8]));
        }
        hashes.push(leaf.hash());
    }
    let mut words: Vec<u32> = Vec::new();
    for i in [1usize, 3, 2, 0] {
        words.extend_from_slice(&keys[i].0);
        words.extend_from_slice(&[i as u32 + 1; 8]);
    }
    let expected = Some(Impl::hash_words(&words));
    for hash in hashes {
        assert_eq!(hash, expected);
    }
}

#[test]
fn leaf_lists_its_pairs_in_key_order() {
    let mut leaf: SmtLeaf<Impl> = SmtLeaf::new(LeafIndex { value: 1 });
    assert_eq!(leaf.pairs(), Vec::new());
    leaf.insert(Key([5, 0, 0, 0, 0, 0, 1, 0]), Value([5; 8]));
    leaf.insert(Key([4, 9, 0, 0, 0, 0, 1, 0]), Value([4; 8]));
    leaf.insert(Key([4, 0, 0, 0, 0, 0, 1, 0]), Value([3; 8]));
    assert_eq!(
        leaf.pairs(),
        vec![
            (Key([4, 0, 0, 0, 0, 0, 1, 0]), Value([3; 8])),
            (Key([4, 9, 0, 0, 0, 0, 1, 0]), Value([4; 8])),
            (Key([5, 0, 0, 0, 0, 0, 1, 0]), Value([5; 8])),
        ]
    );
}

#[test]
fn cloned_leaf_holds_the_same_pairs() {
    let mut leaf: SmtLeaf<Impl> = SmtLeaf::new(LeafIndex { value: 1 });
    leaf.insert(Key([5, 0, 0, 0, 0, 0, 1, 0]), Value([5; 8]));
    leaf.insert(Key([4, 0, 0, 0, 0, 0, 1, 0]), Value([4; 8]));
    let copy = leaf.clone();
    assert_eq!(copy.index(), leaf.index());
    assert_eq!(copy.hash(), leaf.hash());
    assert_eq!(copy.get(&Key([4, 0, 0, 0, 0, 0, 1, 0])), Some(Value([4; 8])));
}

#[test]
fn merkle_path_folds_by_the_bits_of_the_index() {
    let a = Digest(SHA256_OF_NOTHING);
    let b = Digest(SHA256_OF_WORD_SEVEN);
    let c = Digest(PAIR_OF_ZEROS);
    let seed = Digest(PAIR_OF_NOTHING_AND_ZERO);
    let path = MerklePath::new(vec![a, b, c]);
    // index 5 = 0b101: right, left, right
    let step_1 = Impl::hash_pair(&a, &seed);
    let step_2 = Impl::hash_pair(&step_1, &b);
    let step_3 = Impl::hash_pair(&c, &step_2);
    assert_eq!(path.compute_root::<Impl>(5, &seed), step_3);
    // index 2 = 0b010: left, right, left
    let step_1 = Impl::hash_pair(&seed, &a);
    let step_2 = Impl::hash_pair(&b, &step_1);
    let step_3 = Impl::hash_pair(&step_2, &c);
    assert_eq!(path.compute_root::<Impl>(2, &seed), step_3);
    assert_eq!(MerklePath::new(Vec::new()).compute_root::<Impl>(2, &seed), seed);
}

#[test]
fn proof_root_starts_from_the_leaf_hash_or_zero() {
    let sibling = Digest(SHA256_OF_NOTHING);
    let empty: SmtProof<Impl> = SmtProof {
        path: MerklePath::new(vec![sibling]),
        leaf: SmtLeaf::new(LeafIndex { value: 1 }),
    };
    assert_eq!(empty.compute_root(), Impl::hash_pair(&sibling, &Digest::zero()));

    let key = Key([0, 0, 0, 0, 0, 0, 2, 0]);
    let leaf: SmtLeaf<Impl> = SmtLeaf::new_single(key, Value([1; 8]));
    let leaf_hash = leaf.hash().unwrap();
    let full: SmtProof<Impl> = SmtProof { path: MerklePath::new(vec![sibling]), leaf };
    let root = Impl::hash_pair(&leaf_hash, &sibling);
    assert_eq!(full.compute_root(), root);
    assert!(full.verify(&key, &Value([1; 8]), &root));
    assert!(!full.verify(&key, &Value([2; 8]), &root));
    assert!(!full.verify(&key, &Value([1; 8]), &sibling));
    // a key of the same bucket that the leaf does not hold has the empty value
    let absent = Key([1, 0, 0, 0, 0, 0, 2, 0]);
    assert!(full.verify(&absent, &Value::empty(), &root));
    // a key of another bucket is never shown
    let elsewhere = Key([0, 0, 0, 0, 0, 0, 3, 0]);
    assert!(!full.verify(&elsewhere, &Value::empty(), &root));
}

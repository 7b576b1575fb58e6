use imt::hasher::{Hashor, KeccakHasher, Sha256Hasher};
use imt::imt::Imt;
use imt::mutate::IMTMutate;
use imt::node::IMTNode;
use imt::root::{imt_root, u64_be_bytes};
use tiny_keccak::{Hasher, Keccak};

fn keccak256(chunks: &[&[u8]]) -> [u8; 32] {
    let mut k = Keccak::v256();
    for c in chunks {
        k.update(c);
    }
    let mut out = [0u8; 32];
    k.finalize(&mut out);
    out
}

fn node_with_key(tree: &Imt<KeccakHasher>, key: [u8; 32]) -> IMTNode {
    *tree.nodes.iter().find(|n| n.key == key).expect("key not in tree")
}

#[test]
fn test_verify_invalid_old_root() {
    // Instanciate an IMT with a few nodes.
    let mut imt = Imt::<KeccakHasher>::new();
    imt.insert_node([1; 32], [42; 32]);
    imt.insert_node([2; 32], [42; 32]);
    imt.insert_node([3; 32], [42; 32]);

    // Create an insert witness and call `.verify()` with a different `old_root`.
    if let IMTMutate::Insert(sut) = imt.insert_node([4; 32], [42; 32]) {
        let res = sut.verify::<KeccakHasher>([0xff; 32]);
        assert!(matches!(res, Err(e) if e.message() == "IMTMutate.old_root is stale"));
    } else {
        panic!("invalid result")
    }

    // Create an insert witness and call `.verify()` with a different `old_root`.
    let old_root = imt.root;
    if let IMTMutate::Insert(mut sut) = imt.insert_node([5; 32], [42; 32]) {
        sut.old_root = [0xff; 32];
        let res = sut.verify::<KeccakHasher>(old_root);
        assert!(matches!(res, Err(e) if e.message() == "IMTMutate.old_root is stale"));
    } else {
        panic!("invalid result")
    }
}

#[test]
fn test_verify_invalid_ln() {
    // Instanciate an IMT with a few nodes.
    let mut imt = Imt::<KeccakHasher>::new();
    imt.insert_node([1; 32], [42; 32]);
    imt.insert_node([5; 32], [42; 32]);
    imt.insert_node([10; 32], [42; 32]);

    // Use a `ln_node` with an invalid `key`.
    let ln_node = imt.low_nullifier(&[6; 32]);
    if let IMTMutate::Insert(mut sut) = imt.insert_node([4; 32], [42; 32]) {
        sut.ln_node = ln_node;
        let res = sut.verify::<KeccakHasher>(sut.old_root);
        assert!(matches!(res, Err(e) if e.message() == "IMTMutate.ln_node is invalid"));
    } else {
        panic!("invalid result")
    }

    // Use a `ln_node` with an invalid `next_key`.
    let ln_node = imt.low_nullifier(&[3; 32]);
    if let IMTMutate::Insert(mut sut) = imt.insert_node([6; 32], [42; 32]) {
        sut.ln_node = ln_node;
        let res = sut.verify::<KeccakHasher>(sut.old_root);
        assert!(matches!(res, Err(e) if e.message() == "IMTMutate.ln_node is invalid"));
    } else {
        panic!("invalid result")
    }

    // Use a `ln_node` that is not in the tree.
    let ln_node = IMTNode { index: 42, key: [7; 32], value: [42; 32], next_key: [15; 32] };
    if let IMTMutate::Insert(mut sut) = imt.insert_node([8; 32], [42; 32]) {
        sut.ln_node = ln_node;
        let res = sut.verify::<KeccakHasher>(sut.old_root);
        assert!(matches!(res, Err(e) if e.message() == "IMTMutate.ln_node is invalid"));
    } else {
        panic!("invalid result")
    }
}

#[test]
fn test_verify_invalid_updated_ln_siblings() {
    // Instanciate an IMT with a few nodes.
    let mut imt = Imt::<KeccakHasher>::new();
    imt.insert_node([1; 32], [42; 32]);
    imt.insert_node([2; 32], [42; 32]);
    imt.insert_node([3; 32], [42; 32]);

    // Create an insert witness, but update `updated_ln_siblings` to be
    // incorrect, resulting in an IMT root that differs from the one computed
    // from the inserted node.
    if let IMTMutate::Insert(mut sut) = imt.insert_node([4; 32], [42; 32]) {
        sut.updated_ln_siblings[0] = Some([0xff; 32]);
        let res = sut.verify::<KeccakHasher>(sut.old_root);
        println!("{res:?}");
        assert!(
            matches!(res, Err(e) if e.message() == "IMTMutate.updated_ln_siblings is invalid")
        );
    } else {
        panic!("invalid result")
    }
}

#[test]
fn test_verify() {
    let mut imt = Imt::<KeccakHasher>::new();
    let keys = vec![
        [1; 32], [2; 32], [3; 32], [4; 32], [5; 32], [10; 32], [15; 32], [11; 32], [20; 32],
        [16; 32], [25; 32],
    ];

    // Insert all the keys in the IMT and ensure verifying the returned insert
    // witness succeeds.
    keys.into_iter().for_each(|node_key| {
        if let IMTMutate::Insert(sut) = imt.insert_node(node_key, [42; 32]) {
            let res = sut.verify::<KeccakHasher>(sut.old_root);
            assert!(res.is_ok())
        } else {
            panic!("invalid result")
        }
    });
}

#[test]
fn test_hash() {
    let key = [1; 32];
    let value = [2; 32];
    let next_key = [3; 32];

    let node = IMTNode { index: 0, key, value, next_key };

    let hash = node.hash(KeccakHasher::fresh());

    // Manually hash the fields to get the expected result
    let mut hasher = Keccak::v256();
    hasher.update(&key);
    hasher.update(&value);
    hasher.update(&next_key);
    let mut expected_hash = [0u8; 32];
    hasher.finalize(&mut expected_hash);

    assert_eq!(hash, expected_hash, "hashes do not match");
}

#[test]
fn test_is_ln_of() {
    let mut ln_node = IMTNode { index: 0, key: [0; 32], value: [0; 32], next_key: [0; 32] };

    // Should true because ln_node.key < node_key && ln_node.next_key == 0
    let node_key = [5; 32];
    assert!(ln_node.is_ln_of(&node_key), "node should be ln of node_key");

    // Should return true because ln_node.key < node_key < ln_node.next_key
    ln_node.next_key = [10; 32];
    let node_key = [2; 32];
    assert!(ln_node.is_ln_of(&node_key), "node should be ln of node_key");

    // Should return false because ln_node.next_key < node_key
    let node_key = [11; 32];
    assert!(!ln_node.is_ln_of(&node_key), "node should not be ln of node_key");

    // Should return false because ln_node.key > node_key
    ln_node.key = [12; 32];
    let node_key = [3; 32];
    assert!(!ln_node.is_ln_of(&node_key), "node should not be ln of node_key");
}

#[test]
fn test_fresh_tree_root() {
    // The fresh tree commits to the zero node's leaf hash bound with size 1.
    let tree = Imt::<KeccakHasher>::new();
    assert_eq!(tree.size, 1);
    assert_eq!(tree.depth, 0);

    let leaf = keccak256(&[&[0u8; 96]]);
    let expected = keccak256(&[&leaf, &1u64.to_be_bytes()]);
    assert_eq!(tree.root, expected);
}

#[test]
fn test_first_insert_witness() {
    let mut tree = Imt::<KeccakHasher>::new();
    let pre_root = tree.root;
    let m = tree.insert_node([0x01; 32], [0x2a; 32]);
    assert_eq!(tree.depth, 1);
    assert_eq!(tree.size, 2);
    if let IMTMutate::Insert(w) = &m {
        assert_eq!(w.ln_node.key, [0x00; 32]);
        assert_eq!(w.ln_node.next_key, [0x00; 32]);
        assert_eq!(w.node.index, 1);
        assert_eq!(w.node.next_key, [0x00; 32]);
        assert_eq!(w.old_root, pre_root);
        assert_eq!(w.old_size, 1);
    } else {
        panic!("invalid result")
    }
    let res = m.verify::<KeccakHasher>(pre_root);
    assert_eq!(res, Ok(tree.root));
}

#[test]
fn test_linked_list_order() {
    // Insert keys out of order; the list must chain by key, not by insertion.
    let mut tree = Imt::<KeccakHasher>::new();
    tree.insert_node([0x01; 32], [42; 32]);
    tree.insert_node([0x02; 32], [42; 32]);
    tree.insert_node([0x03; 32], [42; 32]);
    tree.insert_node([0x05; 32], [42; 32]);

    // Before inserting 0x04, its low nullifier is the 0x03 node.
    let ln = tree.low_nullifier(&[0x04; 32]);
    assert_eq!(ln.key, [0x03; 32]);
    assert_eq!(ln.next_key, [0x05; 32]);

    tree.insert_node([0x04; 32], [42; 32]);
    assert_eq!(node_with_key(&tree, [0x03; 32]).next_key, [0x04; 32]);
    assert_eq!(node_with_key(&tree, [0x04; 32]).next_key, [0x05; 32]);

    // Traversal from the zero key visits the keys in ascending order and
    // wraps to the zero key.
    let mut key = [0x00; 32];
    let mut seen = Vec::new();
    loop {
        let node = node_with_key(&tree, key);
        key = node.next_key;
        if key == [0x00; 32] {
            break;
        }
        seen.push(key[0]);
    }
    assert_eq!(seen, vec![1, 2, 3, 4, 5]);
}

#[test]
fn test_update_witness_roundtrip() {
    let mut tree = Imt::<KeccakHasher>::new();
    tree.insert_node([0x01; 32], [42; 32]);
    tree.insert_node([0x02; 32], [42; 32]);
    tree.insert_node([0x03; 32], [42; 32]);

    let pre_root = tree.root;
    let m = tree.update_node([0x03; 32], [0xff; 32]);
    if let IMTMutate::Update(w) = &m {
        // the witness carries the pre-update node
        assert_eq!(w.node.key, [0x03; 32]);
        assert_eq!(w.node.value, [42; 32]);
        assert_eq!(w.new_value, [0xff; 32]);
    } else {
        panic!("invalid result")
    }
    let res = m.verify::<KeccakHasher>(pre_root);
    assert_eq!(res, Ok(tree.root));
    assert_ne!(tree.root, pre_root);

    // Re-updating to the original value restores the original root.
    let mid_root = tree.root;
    let m2 = tree.update_node([0x03; 32], [42; 32]);
    assert_eq!(m2.verify::<KeccakHasher>(mid_root), Ok(tree.root));
    assert_eq!(tree.root, pre_root);
}

#[test]
fn test_update_node_not_in_tree() {
    let mut tree = Imt::<KeccakHasher>::new();
    tree.insert_node([0x01; 32], [42; 32]);
    let pre_root = tree.root;
    if let IMTMutate::Update(mut w) = tree.update_node([0x01; 32], [0x07; 32]) {
        // a tampered pre-update node no longer reconstructs the old root
        w.node.value = [0x09; 32];
        let res = w.apply::<KeccakHasher>(pre_root);
        assert!(matches!(res, Err(e) if e.message() == "IMTMutate.node is not in the IMT"));
    } else {
        panic!("invalid result")
    }
}

#[test]
fn test_contains_node() {
    let mut tree = Imt::<KeccakHasher>::new();
    assert!(tree.contains_node(&[0x00; 32]));
    assert!(!tree.contains_node(&[0x01; 32]));
    tree.insert_node([0x01; 32], [42; 32]);
    assert!(tree.contains_node(&[0x01; 32]));
    assert!(!tree.contains_node(&[0x02; 32]));
}

#[test]
fn test_determinism() {
    // Identical mutation sequences and hasher families give identical roots.
    let mut t1 = Imt::<KeccakHasher>::new();
    let mut t2 = Imt::<KeccakHasher>::new();
    assert_eq!(t1.root, t2.root);
    let keys: [[u8; 32]; 4] = [[9; 32], [4; 32], [7; 32], [1; 32]];
    for k in keys {
        t1.insert_node(k, [3; 32]);
        t2.insert_node(k, [3; 32]);
        assert_eq!(t1.root, t2.root);
    }
    t1.update_node([7; 32], [8; 32]);
    t2.update_node([7; 32], [8; 32]);
    assert_eq!(t1.root, t2.root);
}

#[test]
fn test_depth_growth() {
    // Depth is the ceiling of log2(size): it grows by exactly one when the
    // size reaches one past a power of two.
    let mut tree = Imt::<KeccakHasher>::new();
    let expected_depths: [u8; 9] = [1, 2, 2, 3, 3, 3, 3, 4, 4];
    for i in 0..9u8 {
        tree.insert_node([i + 1; 32], [42; 32]);
        assert_eq!(tree.size, i as u64 + 2);
        assert_eq!(tree.depth, expected_depths[i as usize]);
    }
}

#[test]
fn test_siblings_reconstruct_root() {
    let mut tree = Imt::<KeccakHasher>::new();
    for i in 1..6u8 {
        tree.insert_node([i; 32], [42; 32]);
    }
    // every node, with its sibling path, recomputes the committed root
    let keys: Vec<[u8; 32]> = tree.nodes.iter().map(|n| n.key).collect();
    for key in keys {
        let node = node_with_key(&tree, key);
        let sibs = tree.siblings(&key);
        assert_eq!(sibs.len(), tree.depth as usize);
        let computed = imt_root::<KeccakHasher>(tree.size, &node, &sibs);
        assert_eq!(computed, tree.root);
    }
}

#[test]
fn test_index_not_in_leaf_hash() {
    // Nodes that differ only in their slot hash to the same leaf digest.
    let a = IMTNode { index: 3, key: [1; 32], value: [2; 32], next_key: [5; 32] };
    let b = IMTNode { index: 9, key: [1; 32], value: [2; 32], next_key: [5; 32] };
    assert_eq!(a.hash(KeccakHasher::fresh()), b.hash(KeccakHasher::fresh()));
    assert_eq!(a.hash(Sha256Hasher::fresh()), b.hash(Sha256Hasher::fresh()));
}

#[test]
fn test_sha256_hasher() {
    // The SHA-256 instantiation matches the sha2 crate called directly, and
    // yields a different commitment scheme than Keccak-256.
    let node = IMTNode { index: 0, key: [1; 32], value: [2; 32], next_key: [3; 32] };
    let hash = node.hash(Sha256Hasher::fresh());

    let mut hasher: sha2::Sha256 = sha2::Digest::new();
    sha2::Digest::update(&mut hasher, [1u8; 32]);
    sha2::Digest::update(&mut hasher, [2u8; 32]);
    sha2::Digest::update(&mut hasher, [3u8; 32]);
    let expected = sha2::Digest::finalize(hasher);
    assert_eq!(&hash[..], expected.as_slice(), "hashes do not match");

    assert_ne!(hash, node.hash(KeccakHasher::fresh()));

    let keccak_tree = Imt::<KeccakHasher>::new();
    let sha_tree = Imt::<Sha256Hasher>::new();
    assert_ne!(keccak_tree.root, sha_tree.root);
}

#[test]
fn test_be_bytes() {
    assert_eq!(u64_be_bytes(0x0102030405060708), [1, 2, 3, 4, 5, 6, 7, 8]);
    assert_eq!(u64_be_bytes(1), 1u64.to_be_bytes());
    assert_eq!(u64_be_bytes(u64::MAX), [0xff; 8]);
}

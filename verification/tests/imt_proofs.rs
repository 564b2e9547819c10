use keyspace_imt::node::IMTNode;
use keyspace_imt::storage::btree_imt_storage::BTreeImtStorage;
use keyspace_imt::tree::Imt;
use tiny_keccak::{Hasher, Keccak};

#[test]
fn test_hash() {
    let key = [1; 32];
    let value = [2; 32];
    let next_key = [3; 32];

    let node = IMTNode {
        index: 0,
        key,
        value,
        next_key,
    };

    let hash = node.hash();

    // Manually hash the fields to get the expected result
    let mut hasher = Keccak::v256();
    hasher.update(&key);
    hasher.update(&value);
    hasher.update(&next_key);
    let mut expected_hash = [0u8; 32];
    hasher.finalize(&mut expected_hash);

    assert_eq!(hash, expected_hash, "hashes do not match");
}

#[test]
fn test_is_ln_of() {
    let mut ln_node = IMTNode {
        index: 0,
        key: [0; 32],
        value: [0; 32],
        next_key: [0; 32],
    };

    // Should true because ln_node.key < node_key && ln_node.next_key == 0
    let node_key = [5; 32];
    assert!(ln_node.is_ln_of(&node_key), "node should be ln of node_key");

    // Should return true because ln_node.key < node_key < ln_node.next_key
    ln_node.next_key = [10; 32];
    let node_key = [2; 32];
    assert!(ln_node.is_ln_of(&node_key), "node should be ln of node_key");

    // Should return false because ln_node.next_key < node_key
    let node_key = [11; 32];
    assert!(
        !ln_node.is_ln_of(&node_key),
        "node should not be ln of node_key"
    );

    // Should return false because ln_node.key > node_key
    ln_node.key = [12; 32];
    let node_key = [3; 32];
    assert!(
        !ln_node.is_ln_of(&node_key),
        "node should not be ln of node_key"
    );
}

#[test]
fn insert_test_verify_invalid_old_root() {
    // Instanciate an imt with a few nodes.
    let storage = BTreeImtStorage::default();
    let mut imt = Imt::writer(storage);
    imt.insert_node([1; 32], [42; 32]).expect("insert [1] failed");
    imt.insert_node([2; 32], [42; 32]).expect("insert [2] failed");
    imt.insert_node([3; 32], [42; 32]).expect("insert [3] failed");

    // Create an InsertProof and call `.verify()` with a different `old_root`.
    let sut = imt.insert_node([4; 32], [42; 32]).expect("insert [4] failed");
    let res = sut.verify([0xff; 32]);
    assert!(matches!(res, Err(e) if e.message() == "ImtMutate.old_root is stale"));

    // Create an InsertProof and call `.verify()` with a different `old_root`.
    let old_root = imt.root();
    let mut sut = imt.insert_node([5; 32], [42; 32]).expect("insert [5] failed");
    sut.old_root = [0xff; 32];
    let res = sut.verify(old_root);
    assert!(matches!(res, Err(e) if e.message() == "ImtMutate.old_root is stale"));
}

#[test]
fn insert_test_verify_invalid_ln() {
    // Instanciate an imt with a few nodes.
    let storage = BTreeImtStorage::default();
    let mut imt = Imt::writer(storage);

    let insert_1 = imt.insert_node([1; 32], [42; 32]).expect("insert [1] failed");
    let insert_5 = imt.insert_node([5; 32], [42; 32]).expect("insert [5] failed");

    // Use a `ln_node` with an invalid `key`.
    let ln_node = insert_5.node;
    let mut sut = imt.insert_node([4; 32], [42; 32]).expect("insert [4] failed");
    sut.ln_node = ln_node;
    let res = sut.verify(sut.old_root);
    assert!(matches!(res, Err(e) if e.message() == "ImtMutate.ln_node is invalid"));

    // Use a `ln_node` with an invalid `next_key`.
    let ln_node = insert_1.node;
    let mut sut = imt.insert_node([6; 32], [42; 32]).expect("insert [6] failed");
    sut.ln_node = ln_node;
    let res = sut.verify(sut.old_root);
    assert!(matches!(res, Err(e) if e.message() == "ImtMutate.ln_node is invalid"));

    // Use a `ln_node` that is not in the tree.
    let ln_node = IMTNode {
        index: 42,
        key: [7; 32],
        value: [42; 32],
        next_key: [15; 32],
    };
    let mut sut = imt.insert_node([8; 32], [42; 32]).expect("insert [8] failed");
    sut.ln_node = ln_node;
    let res = sut.verify(sut.old_root);
    assert!(matches!(res, Err(e) if e.message() == "ImtMutate.ln_node is invalid"));
}

#[test]
fn insert_test_verify_invalid_updated_ln_siblings() {
    // Instanciate an imt with a few nodes.
    let storage = BTreeImtStorage::default();
    let mut imt = Imt::writer(storage);
    imt.insert_node([1; 32], [42; 32]).expect("insert [1] failed");
    imt.insert_node([2; 32], [42; 32]).expect("insert [2] failed");
    imt.insert_node([3; 32], [42; 32]).expect("insert [3] failed");

    // Create an InsertProof, but update `updated_ln_siblings` to be incorrect,
    // resulting in a tree root that differs from the one computed from the
    // inserted node.
    let mut sut = imt.insert_node([4; 32], [42; 32]).expect("insert [4] failed");
    sut.updated_ln_siblings[0] = Some([0xff; 32]);
    let res = sut.verify(sut.old_root);
    assert!(matches!(res, Err(e) if e.message() == "ImtMutate.updated_ln_siblings is invalid"));
}

#[test]
fn insert_test_verify() {
    let storage = BTreeImtStorage::default();
    let mut imt = Imt::writer(storage);
    let keys = vec![
        [1; 32], [2; 32], [3; 32], [4; 32], [5; 32], [10; 32], [15; 32], [11; 32], [20; 32],
        [16; 32], [25; 32],
    ];

    // Insert all the keys in the imt and ensure verifying the returned
    // InsertProof succeeds.
    for node_key in keys {
        let sut = imt.insert_node(node_key, [42; 32]).expect("insert [42] failed");
        let res = sut.verify(sut.old_root);
        assert!(res.is_ok())
    }
}

#[test]
fn update_test_verify_invalid_old_root() {
    // Instanciate an imt with a few nodes.
    let storage = BTreeImtStorage::default();
    let mut imt = Imt::writer(storage);
    imt.insert_node([1; 32], [42; 32]).expect("insert [1] failed");
    imt.insert_node([2; 32], [42; 32]).expect("insert [2] failed");
    imt.insert_node([3; 32], [42; 32]).expect("insert [3] failed");

    // Create an UpdateProof and call `.verify()` with a different `old_root`.
    let sut = imt.update_node([2; 32], [43; 32]).expect("update [2] failed");
    let res = sut.verify([0xff; 32]);
    assert!(matches!(res, Err(e) if e.message() == "ImtMutate.old_root is stale"));
}

#[test]
fn update_test_verify_node_does_not_exist() {
    // Instanciate an imt with a few nodes.
    let storage = BTreeImtStorage::default();
    let mut imt = Imt::writer(storage);
    imt.insert_node([1; 32], [42; 32]).expect("insert [1] failed");
    imt.insert_node([2; 32], [42; 32]).expect("insert [2] failed");
    imt.insert_node([3; 32], [42; 32]).expect("insert [3] failed");

    // Create an UpdateProof whose node is not part of the tree.
    let mut sut = imt.update_node([2; 32], [43; 32]).expect("update [2] failed");
    sut.node.key = [4; 32];
    let res = sut.verify(sut.old_root);
    assert!(matches!(res, Err(e) if e.message() == "ImtMutate.node is not in the imt"));
}

#[test]
fn update_test_verify() {
    // Instanciate an imt with a few nodes.
    let storage = BTreeImtStorage::default();
    let mut imt = Imt::writer(storage);
    imt.insert_node([1; 32], [42; 32]).expect("insert [1] failed");
    imt.insert_node([2; 32], [42; 32]).expect("insert [2] failed");
    imt.insert_node([3; 32], [42; 32]).expect("insert [3] failed");

    let keys = vec![[1; 32], [2; 32], [3; 32]];

    // Update all the keys in the imt and ensure verifying the returned
    // UpdateProof succeeds.
    for node_key in keys {
        for i in 0..=255 {
            let sut = imt
                .update_node(node_key, [i; 32])
                .unwrap_or_else(|_| panic!("update [{}] failed", i));
            let res = sut.verify(sut.old_root);
            assert!(res.is_ok())
        }
    }
}

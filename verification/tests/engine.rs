use keyspace_imt::node::IMTNode;
use keyspace_imt::proofs::mutate::MutateProof;
use keyspace_imt::proofs::node::NodeProof;
use keyspace_imt::storage::btree_imt_storage::BTreeImtStorage;
use keyspace_imt::tree::{depth, Imt, ImtError};
use tiny_keccak::{Hasher, Keccak};

fn keccak(parts: &[&[u8]]) -> [u8; 32] {
    let mut hasher = Keccak::v256();
    for part in parts {
        hasher.update(part);
    }
    let mut out = [0u8; 32];
    hasher.finalize(&mut out);
    out
}

#[test]
fn construct_empty_tree_root() {
    let imt = Imt::writer(BTreeImtStorage::default());
    assert_eq!(imt.size(), 1);
    assert_eq!(imt.depth(), 0);

    // root = H(leaf_hash(sentinel) || size_be_64) with
    // sentinel = (0, [0; 32], [0; 32], [0; 32]) and size = 1.
    let sentinel_leaf = keccak(&[&[0u8; 32], &[0u8; 32], &[0u8; 32]]);
    let expected_root = keccak(&[&sentinel_leaf, &1u64.to_be_bytes()]);
    assert_eq!(imt.root(), expected_root);
}

#[test]
fn single_insert_proof_chains_roots() {
    let mut imt = Imt::writer(BTreeImtStorage::default());
    let old_root = imt.root();

    let proof = imt.insert_node([1; 32], [42; 32]).expect("insert failed");
    let new_root = proof.verify(old_root).expect("proof does not verify");
    assert_eq!(new_root, imt.root());
    assert_eq!(imt.size(), 2);
}

#[test]
fn multi_insert_proofs_chain_roots() {
    let mut imt = Imt::writer(BTreeImtStorage::default());
    let keys: Vec<[u8; 32]> = vec![
        [1; 32], [2; 32], [3; 32], [4; 32], [5; 32], [10; 32], [15; 32], [11; 32], [20; 32],
        [16; 32], [25; 32],
    ];

    for key in keys {
        let old_root = imt.root();
        let proof = imt.insert_node(key, [42; 32]).expect("insert failed");
        let new_root = proof.verify(old_root).expect("proof does not verify");
        assert_eq!(new_root, imt.root());
    }
}

#[test]
fn update_proofs_chain_roots() {
    let mut imt = Imt::writer(BTreeImtStorage::default());
    imt.insert_node([1; 32], [42; 32]).expect("insert failed");
    imt.insert_node([2; 32], [42; 32]).expect("insert failed");

    for i in 0..=255u8 {
        let old_root = imt.root();
        let proof = imt.update_node([2; 32], [i; 32]).expect("update failed");
        let new_root = proof.verify(old_root).expect("proof does not verify");
        assert_eq!(new_root, imt.root());
    }
}

#[test]
fn replay_produces_identical_roots() {
    let ops: Vec<(bool, [u8; 32], [u8; 32])> = vec![
        (true, [3; 32], [1; 32]),
        (true, [1; 32], [2; 32]),
        (false, [3; 32], [7; 32]),
        (true, [9; 32], [4; 32]),
        (false, [1; 32], [8; 32]),
    ];

    let mut roots_a: Vec<[u8; 32]> = Vec::new();
    let mut imt_a = Imt::writer(BTreeImtStorage::default());
    for (is_insert, key, value) in &ops {
        if *is_insert {
            imt_a.insert_node(*key, *value).expect("insert failed");
        } else {
            imt_a.update_node(*key, *value).expect("update failed");
        }
        roots_a.push(imt_a.root());
    }

    let mut roots_b: Vec<[u8; 32]> = Vec::new();
    let mut imt_b = Imt::writer(BTreeImtStorage::default());
    for (is_insert, key, value) in &ops {
        if *is_insert {
            imt_b.insert_node(*key, *value).expect("insert failed");
        } else {
            imt_b.update_node(*key, *value).expect("update failed");
        }
        roots_b.push(imt_b.root());
    }

    assert_eq!(roots_a, roots_b);
}

#[test]
fn inclusion_proof_verifies_against_root() {
    let mut imt = Imt::writer(BTreeImtStorage::default());
    imt.insert_node([1; 32], [42; 32]).expect("insert failed");
    imt.insert_node([2; 32], [43; 32]).expect("insert failed");

    let proof = imt.inclusion_proof([2; 32]).expect("inclusion proof failed");
    assert_eq!(proof.root, imt.root());
    assert_eq!(proof.node.value, [43; 32]);
    assert!(proof.verify().is_ok());

    let missing = imt.inclusion_proof([9; 32]);
    assert!(matches!(missing, Err(ImtError::NodeDoesNotExist(k)) if k == [9; 32]));
}

#[test]
fn exclusion_proof_invalidated_by_insertion() {
    let mut imt = Imt::writer(BTreeImtStorage::default());
    for key in [
        [1u8; 32], [2; 32], [3; 32], [4; 32], [5; 32], [10; 32], [15; 32], [11; 32], [20; 32],
        [16; 32], [25; 32],
    ] {
        imt.insert_node(key, [42; 32]).expect("insert failed");
    }

    // The exclusion proof for the absent key [7; 32] verifies.
    let proof = imt.exclusion_proof([7; 32]).expect("exclusion proof failed");
    assert_eq!(proof.root, imt.root());
    assert!(proof.verify().is_ok());

    // Inserting [7; 32] invalidates the earlier proof against the new root.
    imt.insert_node([7; 32], [42; 32]).expect("insert failed");
    let mut stale = proof.clone();
    stale.root = imt.root();
    assert!(stale.verify().is_err());

    // A fresh exclusion proof for the now-present key cannot verify either.
    let fresh = imt.exclusion_proof([7; 32]).expect("exclusion lookup failed");
    assert!(fresh.verify().is_err());
}

#[test]
fn node_proof_dispatches_on_presence() {
    let mut imt = Imt::writer(BTreeImtStorage::default());
    imt.insert_node([1; 32], [42; 32]).expect("insert failed");

    match imt.node_proof([1; 32]).expect("node proof failed") {
        NodeProof::Inclusion(p) => assert!(p.verify().is_ok()),
        NodeProof::Exclusion(_) => panic!("expected an inclusion proof"),
    }
    match imt.node_proof([2; 32]).expect("node proof failed") {
        NodeProof::Exclusion(p) => assert!(p.verify().is_ok()),
        NodeProof::Inclusion(_) => panic!("expected an exclusion proof"),
    }
}

#[test]
fn depth_grows_at_power_of_two_boundary() {
    let mut imt = Imt::writer(BTreeImtStorage::default());
    imt.insert_node([1; 32], [42; 32]).expect("insert failed");
    imt.insert_node([2; 32], [42; 32]).expect("insert failed");
    imt.insert_node([3; 32], [42; 32]).expect("insert failed");
    assert_eq!(imt.size(), 4);
    assert_eq!(imt.depth(), 2);

    // The next insertion crosses the power-of-two boundary: the sibling
    // vectors grow by one level and the proof still verifies.
    let old_root = imt.root();
    let proof = imt.insert_node([4; 32], [42; 32]).expect("insert failed");
    assert_eq!(imt.size(), 5);
    assert_eq!(imt.depth(), 3);
    assert_eq!(proof.ln_siblings.len(), 2);
    assert_eq!(proof.node_siblings.len(), 3);
    assert_eq!(proof.updated_ln_siblings.len(), 3);
    let new_root = proof.verify(old_root).expect("proof does not verify");
    assert_eq!(new_root, imt.root());
}

#[test]
fn update_of_sentinel_value_is_permitted() {
    let mut imt = Imt::writer(BTreeImtStorage::default());
    imt.insert_node([1; 32], [42; 32]).expect("insert failed");

    let old_root = imt.root();
    let proof = imt.update_node([0; 32], [9; 32]).expect("sentinel update failed");
    let new_root = proof.verify(old_root).expect("proof does not verify");
    assert_eq!(new_root, imt.root());

    // The linked-list relationships are unaffected: absent keys still have
    // valid exclusion proofs.
    let exclusion = imt.exclusion_proof([5; 32]).expect("exclusion proof failed");
    assert!(exclusion.verify().is_ok());
}

#[test]
fn insert_of_existing_key_is_rejected() {
    let mut imt = Imt::writer(BTreeImtStorage::default());
    imt.insert_node([1; 32], [42; 32]).expect("insert failed");
    let root = imt.root();
    let size = imt.size();

    let res = imt.insert_node([1; 32], [43; 32]);
    assert!(matches!(res, Err(ImtError::NodeAlreadyExist(k)) if k == [1; 32]));

    // The tree is unchanged.
    assert_eq!(imt.root(), root);
    assert_eq!(imt.size(), size);
}

#[test]
fn set_node_inserts_then_updates() {
    let mut imt = Imt::writer(BTreeImtStorage::default());

    let old_root = imt.root();
    match imt.set_node([1; 32], [42; 32]).expect("set failed") {
        MutateProof::Insert(p) => {
            let new_root = p.verify(old_root).expect("proof does not verify");
            assert_eq!(new_root, imt.root());
        }
        MutateProof::Update(_) => panic!("expected an insertion"),
    }

    let old_root = imt.root();
    match imt.set_node([1; 32], [43; 32]).expect("set failed") {
        MutateProof::Update(p) => {
            let new_root = p.verify(old_root).expect("proof does not verify");
            assert_eq!(new_root, imt.root());
        }
        MutateProof::Insert(_) => panic!("expected an update"),
    }
}

#[test]
fn reader_generates_proofs() {
    let mut imt = Imt::writer(BTreeImtStorage::default());
    imt.insert_node([1; 32], [42; 32]).expect("insert failed");

    let node = IMTNode {
        index: 1,
        key: [1; 32],
        value: [42; 32],
        next_key: [0; 32],
    };
    let proof = imt.inclusion_proof([1; 32]).expect("inclusion proof failed");
    assert_eq!(proof.node.index, node.index);
    assert_eq!(proof.node.key, node.key);
    assert_eq!(proof.node.value, node.value);
    assert_eq!(proof.node.next_key, node.next_key);
}

#[test]
fn depth_is_ceil_log2() {
    assert_eq!(depth(1), 0);
    assert_eq!(depth(2), 1);
    assert_eq!(depth(3), 2);
    assert_eq!(depth(4), 2);
    assert_eq!(depth(5), 3);
    assert_eq!(depth(8), 3);
    assert_eq!(depth(9), 4);
    assert_eq!(depth(u64::MAX), 64);
}

#[test]
fn error_messages_are_stable() {
    let mut imt = Imt::writer(BTreeImtStorage::default());
    imt.insert_node([1; 32], [42; 32]).expect("insert failed");

    let res = imt.insert_node([1; 32], [42; 32]);
    assert!(matches!(res, Err(e) if e.message() == "node already exists"));

    let res = imt.update_node([2; 32], [42; 32]);
    assert!(matches!(res, Err(e) if e.message() == "node does not exist"));
}

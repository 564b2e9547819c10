use keyspace_imt::keyspace::{
    authorization_key, bytes_to_words_be, keyspace_value, recover_keyspace_value, SP1Proof,
};
use keyspace_imt::store::btree::{BTreeStorage, BTreeTransaction};
use keyspace_imt::store::keys::{
    hash_storage_key, node_storage_key, root_storage_key, size_storage_key, vk_storage_key,
};
use keyspace_imt::storage::btree_imt_storage::BTreeImtStorage;
use keyspace_imt::store::{StorageReader, StorageWriter};
use keyspace_imt::tree::Imt;
use tiny_keccak::{Hasher, Keccak};

fn keccak(parts: &[&[u8]]) -> [u8; 32] {
    let mut hasher = Keccak::v256();
    for part in parts {
        hasher.update(part);
    }
    let mut out = [0u8; 32];
    hasher.finalize(&mut out);
    out
}

#[test]
fn storage_keys_are_prefixed_and_ordered() {
    let node_key = node_storage_key(&[7u8; 32]);
    assert_eq!(node_key.len(), 33);
    assert_eq!(node_key[0], 0);
    assert_eq!(&node_key[1..], &[7u8; 32]);

    let hash_key = hash_storage_key(3, 258);
    assert_eq!(hash_key, vec![1u8, 3, 0, 0, 0, 0, 0, 0, 1, 2]);

    assert_eq!(size_storage_key(), vec![2u8]);
    assert_eq!(root_storage_key(), vec![3u8]);

    let vk_key = vk_storage_key(&[9u8; 32]);
    assert_eq!(vk_key[0], 4);
    assert_eq!(&vk_key[1..], &[9u8; 32]);

    // The node prefix sorts below every other prefix, so a predecessor
    // lookup below a node key can only land on another node entry.
    assert!(node_key < hash_key);
    assert!(hash_key < size_storage_key());
    assert!(size_storage_key() < root_storage_key());
    assert!(root_storage_key() < vk_key);
}

#[test]
fn btree_storage_get_and_get_lt() {
    let mut storage = BTreeStorage::new();
    storage.set(vec![0, 5], vec![50]);
    storage.set(vec![0, 1], vec![10]);
    storage.set(vec![0, 3], vec![30]);

    assert_eq!(storage.get(&vec![0, 3]), Some(vec![30]));
    assert_eq!(storage.get(&vec![0, 2]), None);

    // Overwriting a key keeps the ordering and replaces the value.
    storage.set(vec![0, 3], vec![31]);
    assert_eq!(storage.get(&vec![0, 3]), Some(vec![31]));

    // `get_lt` returns the entry strictly below the probe.
    assert_eq!(storage.get_lt(&vec![0, 3]), Some((vec![0, 1], vec![10])));
    assert_eq!(storage.get_lt(&vec![0, 4]), Some((vec![0, 3], vec![31])));
    assert_eq!(storage.get_lt(&vec![0, 1]), None);
    assert_eq!(storage.get_lt(&vec![1]), Some((vec![0, 5], vec![50])));

    // A strict prefix sorts below its extensions.
    assert_eq!(storage.get_lt(&vec![0, 1, 0]), Some((vec![0, 1], vec![10])));
}

#[test]
fn transaction_reads_through_and_commits() {
    let mut storage = BTreeStorage::new();
    storage.set(vec![1], vec![10]);
    storage.set(vec![3], vec![30]);

    let mut tx = BTreeTransaction::new(storage);

    // Unwritten keys read through to the underlying store.
    assert_eq!(tx.get(&vec![1]), Some(vec![10]));

    // Writes become visible inside the transaction only.
    tx.set(vec![2], vec![20]);
    tx.set(vec![1], vec![11]);
    assert_eq!(tx.get(&vec![2]), Some(vec![20]));
    assert_eq!(tx.get(&vec![1]), Some(vec![11]));

    // The buffered write wins a predecessor lookup on equal keys.
    assert_eq!(tx.get_lt(&vec![2]), Some((vec![1], vec![11])));
    assert_eq!(tx.get_lt(&vec![3]), Some((vec![2], vec![20])));

    // Committing applies the buffer to the store.
    let storage = tx.commit();
    assert_eq!(storage.get(&vec![1]), Some(vec![11]));
    assert_eq!(storage.get(&vec![2]), Some(vec![20]));
    assert_eq!(storage.get(&vec![3]), Some(vec![30]));
}

#[test]
fn transaction_discard_leaves_store_untouched() {
    let mut storage = BTreeStorage::new();
    storage.set(vec![1], vec![10]);

    let mut tx = BTreeTransaction::new(storage);
    tx.set(vec![1], vec![99]);
    tx.set(vec![2], vec![20]);

    let storage = tx.discard();
    assert_eq!(storage.get(&vec![1]), Some(vec![10]));
    assert_eq!(storage.get(&vec![2]), None);
}

#[test]
fn keyspace_value_recovery_matches_manual_hashing() {
    let authorization_key_hash = [5u8; 32];
    let authorization_data = [7u8; 40];
    let sidecar_hash = [9u8; 32];

    let recovered =
        recover_keyspace_value(&authorization_key_hash, &authorization_data, &sidecar_hash);

    let authorization_hash = keccak(&[&authorization_data]);
    let storage_hash = keccak(&[&authorization_hash, &sidecar_hash]);
    let expected = keccak(&[&authorization_key_hash, &storage_hash]);
    assert_eq!(recovered, expected);
}

#[test]
fn authorization_key_folds_forced_vk() {
    let record = [1u8; 32];
    let forced = [2u8; 32];

    assert_eq!(authorization_key(&record, None), record);
    assert_eq!(
        authorization_key(&record, Some(&forced)),
        keccak(&[&record, &forced])
    );
}

#[test]
fn sp1_proof_expected_value_matches_recovery() {
    let record_vk_hash = [1u8; 32];
    let forced_vk_hash = [2u8; 32];
    let storage_hash = [3u8; 32];

    let proof = SP1Proof::new(record_vk_hash, forced_vk_hash, storage_hash);
    let ak = authorization_key(&record_vk_hash, Some(&forced_vk_hash));
    assert_eq!(
        proof.expected_current_value(),
        keyspace_value(&ak, &storage_hash)
    );
}

#[test]
fn bytes_to_words_be_reads_big_endian() {
    let bytes = [0u8, 0, 1, 2, 0xde, 0xad, 0xbe, 0xef, 1];
    let words = bytes_to_words_be(&bytes);
    assert_eq!(words, vec![258u32, 0xdeadbeef]);

    assert_eq!(bytes_to_words_be(&[]), Vec::<u32>::new());
}

#[test]
fn byte_store_backed_tree_matches_in_memory_tree() {
    // The same mutations over the byte-keyed store and over the in-memory
    // storage produce identical roots at every step.
    let mut over_bytes = Imt::writer(BTreeStorage::new());
    let mut in_memory = Imt::writer(BTreeImtStorage::default());
    assert_eq!(over_bytes.root(), in_memory.root());

    for key in [[1u8; 32], [2; 32], [5; 32], [3; 32]] {
        let old_root = over_bytes.root();
        let a = over_bytes.insert_node(key, [42; 32]).expect("insert failed");
        let b = in_memory.insert_node(key, [42; 32]).expect("insert failed");
        assert_eq!(over_bytes.root(), in_memory.root());
        assert_eq!(a.verify(old_root).expect("proof does not verify"), over_bytes.root());
        assert_eq!(b.verify(old_root).expect("proof does not verify"), over_bytes.root());
    }

    let old_root = over_bytes.root();
    let proof = over_bytes.update_node([2; 32], [7; 32]).expect("update failed");
    in_memory.update_node([2; 32], [7; 32]).expect("update failed");
    assert_eq!(over_bytes.root(), in_memory.root());
    assert_eq!(proof.verify(old_root).expect("proof does not verify"), over_bytes.root());
}

#[test]
fn transactional_tree_mutation_commits_atomically() {
    let mut storage = BTreeStorage::new();
    let imt = Imt::writer(BTreeStorage::new());
    let expected_initial_root = imt.root();

    // Initialize the tree inside a transaction, mutate it, then discard:
    // the underlying store is left untouched.
    let tx = BTreeTransaction::new(storage);
    let mut imt = Imt::writer(tx);
    imt.insert_node([1; 32], [42; 32]).expect("insert failed");
    let expected_root = imt.root();
    storage = imt.into_storage().discard();
    assert_eq!(storage.get(&vec![2u8]), None, "discard must leave the store untouched");

    // The same mutations, committed, persist; attaching a fresh engine to
    // the committed store reads the same root back.
    let tx = BTreeTransaction::new(storage);
    let mut imt = Imt::writer(tx);
    imt.insert_node([1; 32], [42; 32]).expect("insert failed");
    assert_eq!(imt.root(), expected_root);
    storage = imt.into_storage().commit();

    let imt = Imt::reader(storage);
    assert_eq!(imt.root(), expected_root);
    assert_ne!(expected_root, expected_initial_root);
}

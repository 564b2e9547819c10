//! The keyspace-value recovery rules: how a record's authorization data
//! and storage commitment fold into the 32-byte value kept in the tree.

use vstd::prelude::*;

verus! {

use crate::Hash256;
use crate::bytes::{push_bytes, push_bytes32};
use crate::hash::{keccak256, keccak256_hash};

/// Computes the authorization hash.
pub fn authorization_hash(authorization_data: &[u8]) -> (r: Hash256)
    ensures
        r@ == keccak256(authorization_data@),
{
    let mut data: Vec<u8> = Vec::new();
    push_bytes(&mut data, authorization_data);
    proof {
        assert(data@ =~= authorization_data@);
    }
    keccak256_hash(&data)
}

/// Computes the storage hash.
pub fn storage_hash(authorization_hash: &Hash256, sidecar_hash: &Hash256) -> (r: Hash256)
    ensures
        r@ == keccak256(authorization_hash@ + sidecar_hash@),
{
    let mut data: Vec<u8> = Vec::new();
    push_bytes32(&mut data, authorization_hash);
    push_bytes32(&mut data, sidecar_hash);
    keccak256_hash(&data)
}

/// Computes the authorization key: the record verifying-key hash alone, or
/// folded with the forced verifying-key hash when one is given.
pub fn authorization_key(record_vk_hash: &Hash256, forced_vk_hash: Option<&Hash256>) -> (r:
    Hash256)
    ensures
        (match forced_vk_hash {
            Some(f) => r@ == keccak256(record_vk_hash@ + f@),
            None => r == *record_vk_hash,
        }),
{
    match forced_vk_hash {
        Some(forced_vk_hash) => {
            let mut data: Vec<u8> = Vec::new();
            push_bytes32(&mut data, record_vk_hash);
            push_bytes32(&mut data, forced_vk_hash);
            keccak256_hash(&data)
        },
        None => *record_vk_hash,
    }
}

/// Computes the keyspace value.
pub fn keyspace_value(authorization_key: &Hash256, storage_hash: &Hash256) -> (r: Hash256)
    ensures
        r@ == keccak256(authorization_key@ + storage_hash@),
{
    let mut data: Vec<u8> = Vec::new();
    push_bytes32(&mut data, authorization_key);
    push_bytes32(&mut data, storage_hash);
    keccak256_hash(&data)
}

/// Performs a full keyspace value recovery.
pub fn recover_keyspace_value(
    authorization_key: &Hash256,
    authorization_data: &[u8],
    sidecar_hash: &Hash256,
) -> (r: Hash256)
    ensures
        r@ == keccak256(
            authorization_key@ + keccak256(keccak256(authorization_data@) + sidecar_hash@),
        ),
{
    let authorization_hash = authorization_hash(authorization_data);
    let storage_hash = storage_hash(&authorization_hash, sidecar_hash);

    keyspace_value(authorization_key, &storage_hash)
}

/// The 32-bit word read big-endian at word position `j`.
pub open spec fn word_be_at(bytes: Seq<u8>, j: int) -> u32 {
    (bytes[4 * j] * 0x1000000 + bytes[4 * j + 1] * 0x10000 + bytes[4 * j + 2] * 0x100 + bytes[4 * j
        + 3]) as u32
}

/// Converts a byte string to its 32-bit words, read big-endian; trailing
/// bytes that do not fill a word are dropped.
pub fn bytes_to_words_be(bytes: &[u8]) -> (r: Vec<u32>)
    ensures
        r@.len() == bytes@.len() as int / 4,
        forall|j: int| 0 <= j < r@.len() ==> r@[j] == word_be_at(bytes@, j),
{
    let mut words: Vec<u32> = Vec::new();
    let mut i: usize = 0;
    while bytes.len() - i >= 4
        invariant
            0 <= i <= bytes@.len(),
            i % 4 == 0,
            words@.len() == i as int / 4,
            forall|j: int| 0 <= j < words@.len() ==> words@[j] == word_be_at(bytes@, j),
        decreases bytes@.len() - i,
    {
        let word = (bytes[i] as u32) * 0x1000000 + (bytes[i + 1] as u32) * 0x10000 + (bytes[i + 2]
            as u32) * 0x100 + (bytes[i + 3] as u32);
        words.push(word);
        proof {
            assert(4 * ((i as int + 4) / 4 - 1) == i as int);
        }
        i = i + 4;
    }
    proof {
        assert(bytes@.len() as int / 4 == i as int / 4);
    }
    words
}

/// The claim a record proof makes: which verifying keys authorized a value
/// transition, and over which storage hash.
#[derive(Debug, Clone, Copy)]
pub struct SP1Proof {
    /// The record program verifying-key hash.
    record_vk_hash: Hash256,
    /// The record program verifying-key hash to use for forced inclusion.
    forced_vk_hash: Hash256,
    /// The record storage hash.
    storage_hash: Hash256,
}

impl SP1Proof {
    /// Creates a new [`SP1Proof`].
    pub fn new(record_vk_hash: Hash256, forced_vk_hash: Hash256, storage_hash: Hash256) -> (r:
        Self)
        ensures
            r.record_vk_hash() == record_vk_hash,
            r.forced_vk_hash() == forced_vk_hash,
            r.storage_hash() == storage_hash,
    {
        SP1Proof {
            record_vk_hash: record_vk_hash,
            forced_vk_hash: forced_vk_hash,
            storage_hash: storage_hash,
        }
    }

    /// The record program verifying-key hash.
    pub closed spec fn record_vk_hash(self) -> Hash256 {
        self.record_vk_hash
    }

    /// The forced-inclusion verifying-key hash.
    pub closed spec fn forced_vk_hash(self) -> Hash256 {
        self.forced_vk_hash
    }

    /// The record storage hash.
    pub closed spec fn storage_hash(self) -> Hash256 {
        self.storage_hash
    }

    /// The keyspace value this proof authorizes a transition from:
    /// recovered from the folded verifying keys and the storage hash.
    pub fn expected_current_value(&self) -> (r: Hash256)
        ensures
            r@ == keccak256(
                keccak256(self.record_vk_hash()@ + self.forced_vk_hash()@) + self.storage_hash()@,
            ),
    {
        let ak = authorization_key(&self.record_vk_hash, Some(&self.forced_vk_hash));
        keyspace_value(&ak, &self.storage_hash)
    }
}

} // verus!

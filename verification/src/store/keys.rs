//! The storage key encoding.
//!
//! Keys are prefixed so that they sort correctly in the store: node
//! entries carry the numerically smallest prefix, so that a predecessor
//! lookup below a node key can only ever land on another node entry. That
//! ordering is what makes the low-nullifier lookup sound.

use vstd::prelude::*;

verus! {

use crate::bytes::{push_bytes, push_u64_be, u64_be};

/// The prefix of node entries; it must sort below every other prefix.
pub const NODE_STORAGE_PREFIX: u8 = 0;

/// The prefix of cached hash entries.
pub const HASH_STORAGE_PREFIX: u8 = 1;

/// The prefix of the size entry.
pub const SIZE_STORAGE_PREFIX: u8 = 2;

/// The prefix of the root entry.
pub const ROOT_STORAGE_PREFIX: u8 = 3;

/// The prefix of verifying-key entries, kept by a collaborator in the
/// same key space.
pub const VK_STORAGE_PREFIX: u8 = 4;

/// The storage key of a node entry: the node prefix followed by the
/// node's key bytes.
pub open spec fn node_storage_key_spec(key: Seq<u8>) -> Seq<u8> {
    seq![NODE_STORAGE_PREFIX] + key
}

/// The storage key of a cached hash entry: the hash prefix, the level,
/// then the index in big-endian so same-level entries sort by index.
pub open spec fn hash_storage_key_spec(level: u8, index: u64) -> Seq<u8> {
    seq![HASH_STORAGE_PREFIX, level] + u64_be(index)
}

/// The storage key of the size entry.
pub open spec fn size_storage_key_spec() -> Seq<u8> {
    seq![SIZE_STORAGE_PREFIX]
}

/// The storage key of the root entry.
pub open spec fn root_storage_key_spec() -> Seq<u8> {
    seq![ROOT_STORAGE_PREFIX]
}

/// The storage key of a verifying-key entry.
pub open spec fn vk_storage_key_spec(vk_hash: Seq<u8>) -> Seq<u8> {
    seq![VK_STORAGE_PREFIX] + vk_hash
}

/// Returns the node storage key to use for persistence.
pub fn node_storage_key(key: &[u8]) -> (r: Vec<u8>)
    ensures
        r@ == node_storage_key_spec(key@),
{
    let mut v: Vec<u8> = Vec::new();
    v.push(NODE_STORAGE_PREFIX);
    push_bytes(&mut v, key);
    proof {
        assert(v@ =~= node_storage_key_spec(key@));
    }
    v
}

/// Returns the hash storage key to use for persistence.
pub fn hash_storage_key(level: u8, index: u64) -> (r: Vec<u8>)
    ensures
        r@ == hash_storage_key_spec(level, index),
{
    let mut v: Vec<u8> = Vec::new();
    v.push(HASH_STORAGE_PREFIX);
    v.push(level);
    push_u64_be(&mut v, index);
    proof {
        assert(v@ =~= hash_storage_key_spec(level, index));
    }
    v
}

/// Returns the size storage key to use for persistence.
pub fn size_storage_key() -> (r: Vec<u8>)
    ensures
        r@ == size_storage_key_spec(),
{
    let mut v: Vec<u8> = Vec::new();
    v.push(SIZE_STORAGE_PREFIX);
    proof {
        assert(v@ =~= size_storage_key_spec());
    }
    v
}

/// Returns the root storage key to use for persistence.
pub fn root_storage_key() -> (r: Vec<u8>)
    ensures
        r@ == root_storage_key_spec(),
{
    let mut v: Vec<u8> = Vec::new();
    v.push(ROOT_STORAGE_PREFIX);
    proof {
        assert(v@ =~= root_storage_key_spec());
    }
    v
}

/// Returns the verifying-key storage key to use for persistence.
pub fn vk_storage_key(vk_hash: &[u8]) -> (r: Vec<u8>)
    ensures
        r@ == vk_storage_key_spec(vk_hash@),
{
    let mut v: Vec<u8> = Vec::new();
    v.push(VK_STORAGE_PREFIX);
    push_bytes(&mut v, vk_hash);
    proof {
        assert(v@ =~= vk_storage_key_spec(vk_hash@));
    }
    v
}

} // verus!

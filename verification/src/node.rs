//! The tree's node record and its leaf hash.

use vstd::prelude::*;

verus! {

use crate::Hash256;
use crate::bytes::{bytes32_is_zero, bytes32_lt, lex_lt, push_bytes32, zero32};
use crate::hash::{keccak256, keccak256_hash};

/// A node of the indexed Merkle tree.
///
/// Besides its `(key, value)` pair, a node carries the slot `index` it was
/// inserted at and `next_key`, the smallest key strictly greater than its own
/// (or the all-zero sentinel key if no such node exists). The `next_key`
/// links make the leaves a sorted linked list, which is what lets the tree
/// prove that an absent key is absent.
#[derive(Debug, Clone, Copy)]
pub struct IMTNode {
    pub index: u64,
    pub key: Hash256,
    pub value: Hash256,
    pub next_key: Hash256,
}

/// The preimage of a node's leaf hash: `key || value || next_key`.
///
/// The `index` is deliberately left out of the hash.
pub open spec fn leaf_bytes(node: IMTNode) -> Seq<u8> {
    node.key@ + node.value@ + node.next_key@
}

/// A node's leaf hash.
pub open spec fn leaf_hash(node: IMTNode) -> Seq<u8> {
    keccak256(leaf_bytes(node))
}

/// The low-nullifier predicate: `node` is the witness that `key` is absent,
/// because `key` falls strictly between `node.key` and `node.next_key`
/// (where a zero `next_key` means "past the largest key").
pub open spec fn is_ln_of_spec(node: IMTNode, key: Seq<u8>) -> bool {
    &&& lex_lt(node.key@, key)
    &&& (lex_lt(key, node.next_key@) || node.next_key@ == zero32())
}

impl IMTNode {
    /// Computes the leaf hash of this node.
    pub fn hash(&self) -> (r: Hash256)
        ensures
            r@ == leaf_hash(*self),
    {
        let mut data: Vec<u8> = Vec::new();
        push_bytes32(&mut data, &self.key);
        push_bytes32(&mut data, &self.value);
        push_bytes32(&mut data, &self.next_key);
        keccak256_hash(&data)
    }

    /// Returns `true` if this node is the low nullifier for `node_key`.
    pub fn is_ln_of(&self, node_key: &Hash256) -> (r: bool)
        ensures
            r == is_ln_of_spec(*self, node_key@),
    {
        bytes32_lt(&self.key, node_key) && (bytes32_lt(node_key, &self.next_key)
            || bytes32_is_zero(&self.next_key))
    }
}

} // verus!

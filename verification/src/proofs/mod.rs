//! Proof objects and their self-contained verifiers.
//!
//! Each proof object carries a node, its sibling hashes and the claimed tree
//! size, and can be re-verified against a 32-byte root without consulting
//! any storage.

use vstd::prelude::*;

pub mod exclusion;
pub mod inclusion;
pub mod insert;
pub mod mutate;
pub mod node;
pub mod update;

verus! {

use crate::Hash256;
use crate::bytes::{push_bytes32, push_u64_be, u64_be};
use crate::hash::{keccak256, keccak256_hash};
use crate::node::{IMTNode, leaf_hash};

/// An error raised by a mutation-proof verifier.
#[derive(Debug, Clone, Copy, PartialEq, Eq, Structural)]
pub enum MutateError {
    /// The `old_root` carried by the proof differs from the claimed one.
    StaleRoot,
    /// The low-nullifier witness is not valid for the inserted key.
    InvalidLnNode,
    /// The siblings of the retargeted low nullifier yield a different root.
    InvalidUpdatedLnSiblings,
    /// The node whose value is updated is not committed to in the old root.
    NodeNotInImt,
    /// The insertion would grow the tree past `u64::MAX` nodes.
    SizeOverflow,
}

impl MutateError {
    /// A stable textual tag for this error.
    pub fn message(&self) -> (r: &'static str)
        ensures
            r@ == self.message_spec(),
    {
        match self {
            MutateError::StaleRoot => "ImtMutate.old_root is stale",
            MutateError::InvalidLnNode => "ImtMutate.ln_node is invalid",
            MutateError::InvalidUpdatedLnSiblings => "ImtMutate.updated_ln_siblings is invalid",
            MutateError::NodeNotInImt => "ImtMutate.node is not in the imt",
            MutateError::SizeOverflow => "imt size overflow",
        }
    }

    /// The characters of this error's textual tag.
    pub open spec fn message_spec(self) -> Seq<char> {
        match self {
            MutateError::StaleRoot => "ImtMutate.old_root is stale"@,
            MutateError::InvalidLnNode => "ImtMutate.ln_node is invalid"@,
            MutateError::InvalidUpdatedLnSiblings => "ImtMutate.updated_ln_siblings is invalid"@,
            MutateError::NodeNotInImt => "ImtMutate.node is not in the imt"@,
            MutateError::SizeOverflow => "imt size overflow"@,
        }
    }
}

/// An error raised by a membership-proof verifier.
#[derive(Debug, Clone, Copy, PartialEq, Eq, Structural)]
pub enum NodeProofError {
    /// The node is not committed to in the claimed root.
    NodeNotInTree,
    /// The low-nullifier witness is not committed to in the claimed root.
    LnNodeNotInTree,
    /// The low-nullifier witness does not cover the claimed absent key.
    LnNodeInvalid,
}

impl NodeProofError {
    /// A stable textual tag for this error.
    pub fn message(&self) -> (r: &'static str)
        ensures
            r@ == self.message_spec(),
    {
        match self {
            NodeProofError::NodeNotInTree => "node does not exist",
            NodeProofError::LnNodeNotInTree => "ln node does not exist",
            NodeProofError::LnNodeInvalid => "ln node is invalid for the given key",
        }
    }

    /// The characters of this error's textual tag.
    pub open spec fn message_spec(self) -> Seq<char> {
        match self {
            NodeProofError::NodeNotInTree => "node does not exist"@,
            NodeProofError::LnNodeNotInTree => "ln node does not exist"@,
            NodeProofError::LnNodeInvalid => "ln node is invalid for the given key"@,
        }
    }
}

/// The mathematical view of a sibling vector: each entry is either a digest
/// or absent.
pub open spec fn view_siblings(s: Seq<Option<Hash256>>) -> Seq<Option<Seq<u8>>> {
    Seq::new(
        s.len(),
        |i: int|
            match s[i] {
                Some(h) => Some(h@),
                None => None,
            },
    )
}

/// One step of the Merkle climb. A node at an even position is a left child,
/// at an odd position a right child; an absent sibling contributes nothing,
/// and the hash of the one present side is taken alone.
pub open spec fn combine(h: Seq<u8>, idx: int, sibling: Option<Seq<u8>>) -> Seq<u8> {
    match sibling {
        None => keccak256(h),
        Some(s) => if idx % 2 == 0 {
            keccak256(h + s)
        } else {
            keccak256(s + h)
        },
    }
}

/// The position of a leaf's ancestor at tree level `l`.
pub open spec fn idx_at(index: u64, l: int) -> int
    decreases l,
{
    if l <= 0 {
        index as int
    } else {
        idx_at(index, l - 1) / 2
    }
}

/// The running hash of the Merkle climb after folding in `l` sibling levels.
pub open spec fn hash_at_level(node: IMTNode, siblings: Seq<Option<Seq<u8>>>, l: int) -> Seq<u8>
    decreases l,
{
    if l <= 0 {
        leaf_hash(node)
    } else {
        combine(hash_at_level(node, siblings, l - 1), idx_at(node.index, l - 1), siblings[l - 1])
    }
}

/// The size-bound root recomputed from a node and its sibling vector: the
/// full Merkle climb, then `H(climbed || size_be_64)`.
pub open spec fn root_from_node_spec(
    size: u64,
    node: IMTNode,
    siblings: Seq<Option<Seq<u8>>>,
) -> Seq<u8> {
    keccak256(hash_at_level(node, siblings, siblings.len() as int) + u64_be(size))
}

/// A node is committed to in `root` if recomputing the size-bound root from
/// it and its siblings yields exactly `root`.
pub open spec fn node_exists_spec(
    root: Seq<u8>,
    size: u64,
    node: IMTNode,
    siblings: Seq<Option<Seq<u8>>>,
) -> bool {
    root == root_from_node_spec(size, node, siblings)
}

/// Computes the tree root from the given node and its siblings.
pub(crate) fn imt_root_from_node(
    size: u64,
    node: &IMTNode,
    siblings: &Vec<Option<Hash256>>,
) -> (r: Hash256)
    ensures
        r@ == root_from_node_spec(size, *node, view_siblings(siblings@)),
{
    let ghost sibs = view_siblings(siblings@);
    let mut hash = node.hash();
    let mut index = node.index;

    let mut l: usize = 0;
    while l < siblings.len()
        invariant
            0 <= l <= siblings.len(),
            sibs == view_siblings(siblings@),
            hash@ == hash_at_level(*node, sibs, l as int),
            index as int == idx_at(node.index, l as int),
        decreases siblings.len() - l,
    {
        let mut data: Vec<u8> = Vec::new();
        match &siblings[l] {
            None => {
                push_bytes32(&mut data, &hash);
            },
            Some(sibling) => {
                if index % 2 == 0 {
                    push_bytes32(&mut data, &hash);
                    push_bytes32(&mut data, sibling);
                } else {
                    push_bytes32(&mut data, sibling);
                    push_bytes32(&mut data, &hash);
                }
            },
        }
        hash = keccak256_hash(&data);
        index = index / 2;
        l = l + 1;
    }

    let mut data: Vec<u8> = Vec::new();
    push_bytes32(&mut data, &hash);
    push_u64_be(&mut data, size);
    keccak256_hash(&data)
}

/// Returns `true` if the given node is part of the tree committed to in
/// `root`.
pub(crate) fn node_exists(
    root: &Hash256,
    size: u64,
    node: &IMTNode,
    siblings: &Vec<Option<Hash256>>,
) -> (r: bool)
    ensures
        r == node_exists_spec(root@, size, *node, view_siblings(siblings@)),
{
    let computed = imt_root_from_node(size, node, siblings);
    crate::bytes::bytes32_eq(root, &computed)
}

} // verus!

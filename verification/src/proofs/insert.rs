//! Insertion proof: a key-value pair was appended and its low nullifier
//! retargeted, moving the tree from one root to the next.

use vstd::prelude::*;

verus! {

use crate::Hash256;
use crate::bytes::bytes32_eq;
use crate::node::{IMTNode, is_ln_of_spec};
use crate::proofs::{
    MutateError,
    imt_root_from_node,
    node_exists,
    node_exists_spec,
    root_from_node_spec,
    view_siblings,
};

/// Insertion proof that can be verified for correctness.
#[derive(Debug, Clone)]
pub struct InsertProof {
    pub old_root: Hash256,
    pub old_size: u64,
    pub ln_node: IMTNode,
    pub ln_siblings: Vec<Option<Hash256>>,
    pub node: IMTNode,
    pub node_siblings: Vec<Option<Hash256>>,
    pub updated_ln_siblings: Vec<Option<Hash256>>,
}

impl InsertProof {
    /// The carried low nullifier is valid: it covers the inserted key and is
    /// committed to in the old root at the old size.
    pub open spec fn is_valid_ln_spec(self) -> bool {
        &&& is_ln_of_spec(self.ln_node, self.node.key@)
        &&& node_exists_spec(
            self.old_root@,
            self.old_size,
            self.ln_node,
            view_siblings(self.ln_siblings@),
        )
    }

    /// The low nullifier as it stands after the insertion, its `next_key`
    /// retargeted to the inserted key.
    pub open spec fn updated_ln_spec(self) -> IMTNode {
        IMTNode { next_key: self.node.key, ..self.ln_node }
    }

    /// The root this proof steps to: recomputed from the inserted node and
    /// its siblings at the grown size.
    pub open spec fn new_root_spec(self) -> Seq<u8> {
        root_from_node_spec(
            (self.old_size + 1) as u64,
            self.node,
            view_siblings(self.node_siblings@),
        )
    }

    /// The inserted node and the retargeted low nullifier agree on the new
    /// root.
    pub open spec fn roots_consistent_spec(self) -> bool {
        self.new_root_spec() == root_from_node_spec(
            (self.old_size + 1) as u64,
            self.updated_ln_spec(),
            view_siblings(self.updated_ln_siblings@),
        )
    }

    /// Verifies the [`InsertProof`] and returns the new root.
    ///
    /// The proof is checked against the caller's `old_root`; a mismatch on
    /// any of the carried witnesses is reported as the first failing check.
    pub fn verify(&self, old_root: Hash256) -> (r: Result<Hash256, MutateError>)
        ensures
            r is Ok <==> {
                &&& old_root@ == self.old_root@
                &&& self.is_valid_ln_spec()
                &&& self.old_size < u64::MAX
                &&& self.roots_consistent_spec()
            },
            r matches Ok(h) ==> h@ == self.new_root_spec(),
            old_root@ != self.old_root@ ==> r == Err::<Hash256, MutateError>(
                MutateError::StaleRoot,
            ),
            old_root@ == self.old_root@ && !self.is_valid_ln_spec() ==> r == Err::<
                Hash256,
                MutateError,
            >(MutateError::InvalidLnNode),
            old_root@ == self.old_root@ && self.is_valid_ln_spec() && self.old_size == u64::MAX
                ==> r == Err::<Hash256, MutateError>(MutateError::SizeOverflow),
            old_root@ == self.old_root@ && self.is_valid_ln_spec() && self.old_size < u64::MAX
                && !self.roots_consistent_spec() ==> r == Err::<Hash256, MutateError>(
                MutateError::InvalidUpdatedLnSiblings,
            ),
    {
        // Make sure the proof's old_root matches the expected old_root.
        if !bytes32_eq(&old_root, &self.old_root) {
            return Err(MutateError::StaleRoot);
        }

        // Verify that the provided ln node is valid.
        if !self.is_valid_ln() {
            return Err(MutateError::InvalidLnNode);
        }

        if self.old_size == u64::MAX {
            return Err(MutateError::SizeOverflow);
        }
        let new_size = self.old_size + 1;

        // Compute the updated root from the node and the updated ln node.
        let updated_ln = IMTNode { next_key: self.node.key, ..self.ln_node };

        let root_from_node = imt_root_from_node(new_size, &self.node, &self.node_siblings);
        let root_from_updated_ln = imt_root_from_node(
            new_size,
            &updated_ln,
            &self.updated_ln_siblings,
        );

        // Make sure both roots are equal.
        if !bytes32_eq(&root_from_node, &root_from_updated_ln) {
            return Err(MutateError::InvalidUpdatedLnSiblings);
        }

        Ok(root_from_node)
    }

    /// Returns `true` if `self.ln_node` is a valid ln node for `self.node`.
    fn is_valid_ln(&self) -> (r: bool)
        ensures
            r == self.is_valid_ln_spec(),
    {
        self.ln_node.is_ln_of(&self.node.key) && node_exists(
            &self.old_root,
            self.old_size,
            &self.ln_node,
            &self.ln_siblings,
        )
    }
}

} // verus!

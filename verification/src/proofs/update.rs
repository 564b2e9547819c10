//! Update proof: a committed node's value was rewritten in place, moving the
//! tree from one root to the next.

use vstd::prelude::*;

verus! {

use crate::Hash256;
use crate::bytes::bytes32_eq;
use crate::node::IMTNode;
use crate::proofs::{
    MutateError,
    imt_root_from_node,
    node_exists,
    node_exists_spec,
    root_from_node_spec,
    view_siblings,
};

/// Update proof that can be verified for correctness.
#[derive(Debug, Clone)]
pub struct UpdateProof {
    pub old_root: Hash256,
    pub size: u64,
    pub node: IMTNode,
    pub node_siblings: Vec<Option<Hash256>>,
    pub new_value: Hash256,
}

impl UpdateProof {
    /// The node as it stands after the update, its value rewritten.
    pub open spec fn updated_node_spec(self) -> IMTNode {
        IMTNode { value: self.new_value, ..self.node }
    }

    /// The carried node is committed to in the old root at the carried size.
    pub open spec fn node_in_tree_spec(self) -> bool {
        node_exists_spec(self.old_root@, self.size, self.node, view_siblings(self.node_siblings@))
    }

    /// The root this proof steps to: recomputed from the updated node along
    /// the unchanged sibling path.
    pub open spec fn new_root_spec(self) -> Seq<u8> {
        root_from_node_spec(self.size, self.updated_node_spec(), view_siblings(self.node_siblings@))
    }

    /// Verifies the [`UpdateProof`] and returns the new root.
    pub fn verify(&self, old_root: Hash256) -> (r: Result<Hash256, MutateError>)
        ensures
            r is Ok <==> old_root@ == self.old_root@ && self.node_in_tree_spec(),
            r matches Ok(h) ==> h@ == self.new_root_spec(),
            old_root@ != self.old_root@ ==> r == Err::<Hash256, MutateError>(
                MutateError::StaleRoot,
            ),
            old_root@ == self.old_root@ && !self.node_in_tree_spec() ==> r == Err::<
                Hash256,
                MutateError,
            >(MutateError::NodeNotInImt),
    {
        // Make sure the proof's old_root matches the expected old_root.
        if !bytes32_eq(&old_root, &self.old_root) {
            return Err(MutateError::StaleRoot);
        }

        // Verify that the node to update is already in the imt.
        if !node_exists(&self.old_root, self.size, &self.node, &self.node_siblings) {
            return Err(MutateError::NodeNotInImt);
        }

        // Compute the new root from the updated node.
        let updated_node = IMTNode { value: self.new_value, ..self.node };

        Ok(imt_root_from_node(self.size, &updated_node, &self.node_siblings))
    }
}

} // verus!

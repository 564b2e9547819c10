//! Non-membership proof: a key is covered by a low nullifier that is itself
//! committed to in a root.

use vstd::prelude::*;

verus! {

use crate::Hash256;
use crate::node::{IMTNode, is_ln_of_spec};
use crate::proofs::{NodeProofError, node_exists, node_exists_spec, view_siblings};

/// Exclusion proof that can be verified for correctness.
#[derive(Debug, Clone)]
pub struct ExclusionProof {
    pub root: Hash256,
    pub size: u64,
    pub ln_node: IMTNode,
    pub ln_siblings: Vec<Option<Hash256>>,
    pub node_key: Hash256,
}

impl ExclusionProof {
    /// Verifies the [`ExclusionProof`]: the low nullifier must be committed
    /// to in the carried root, and `node_key` must fall strictly inside the
    /// gap it witnesses.
    pub fn verify(&self) -> (r: Result<(), NodeProofError>)
        ensures
            r is Ok <==> (node_exists_spec(
                self.root@,
                self.size,
                self.ln_node,
                view_siblings(self.ln_siblings@),
            ) && is_ln_of_spec(self.ln_node, self.node_key@)),
            !node_exists_spec(
                self.root@,
                self.size,
                self.ln_node,
                view_siblings(self.ln_siblings@),
            ) ==> r == Err::<(), NodeProofError>(NodeProofError::LnNodeNotInTree),
            (node_exists_spec(
                self.root@,
                self.size,
                self.ln_node,
                view_siblings(self.ln_siblings@),
            ) && !is_ln_of_spec(self.ln_node, self.node_key@)) ==> r == Err::<
                (),
                NodeProofError,
            >(NodeProofError::LnNodeInvalid),
    {
        if !node_exists(&self.root, self.size, &self.ln_node, &self.ln_siblings) {
            return Err(NodeProofError::LnNodeNotInTree);
        }
        if !self.ln_node.is_ln_of(&self.node_key) {
            return Err(NodeProofError::LnNodeInvalid);
        }
        Ok(())
    }
}

} // verus!

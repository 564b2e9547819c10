//! Membership proof: a key-value pair is committed to in a root.

use vstd::prelude::*;

verus! {

use crate::Hash256;
use crate::node::IMTNode;
use crate::proofs::{NodeProofError, node_exists, node_exists_spec, view_siblings};

/// Inclusion proof that can be verified for correctness.
#[derive(Debug, Clone)]
pub struct InclusionProof {
    pub root: Hash256,
    pub size: u64,
    pub node: IMTNode,
    pub siblings: Vec<Option<Hash256>>,
}

impl InclusionProof {
    /// Verifies the [`InclusionProof`]: the carried node and siblings must
    /// recompute exactly the carried root.
    pub fn verify(&self) -> (r: Result<(), NodeProofError>)
        ensures
            r is Ok <==> node_exists_spec(
                self.root@,
                self.size,
                self.node,
                view_siblings(self.siblings@),
            ),
            r is Err ==> r == Err::<(), NodeProofError>(NodeProofError::NodeNotInTree),
    {
        if node_exists(&self.root, self.size, &self.node, &self.siblings) {
            Ok(())
        } else {
            Err(NodeProofError::NodeNotInTree)
        }
    }
}

} // verus!

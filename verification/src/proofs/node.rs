//! The sum of the two membership proofs.

use vstd::prelude::*;

verus! {

use crate::proofs::exclusion::ExclusionProof;
use crate::proofs::inclusion::InclusionProof;

/// A node proof that is either an inclusion or an exclusion proof.
#[derive(Debug, Clone)]
pub enum NodeProof {
    /// An [`InclusionProof`].
    Inclusion(InclusionProof),
    /// An [`ExclusionProof`].
    Exclusion(ExclusionProof),
}

} // verus!

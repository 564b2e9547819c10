//! The sum of the two mutation proofs.

use vstd::prelude::*;

verus! {

use crate::Hash256;
use crate::proofs::MutateError;
use crate::proofs::insert::InsertProof;
use crate::proofs::update::UpdateProof;

/// A tree mutation that is either an insertion or an update.
#[derive(Debug, Clone)]
pub enum MutateProof {
    /// An [`InsertProof`].
    Insert(InsertProof),
    /// An [`UpdateProof`].
    Update(UpdateProof),
}

impl MutateProof {
    /// Verifies the mutation proof against `old_root` and returns the new
    /// root, dispatching to the verifier of the carried variant.
    pub fn verify(&self, old_root: Hash256) -> (r: Result<Hash256, MutateError>)
        ensures
            self matches MutateProof::Insert(insert) ==> {
                &&& (r is Ok <==> {
                    &&& old_root@ == insert.old_root@
                    &&& insert.is_valid_ln_spec()
                    &&& insert.old_size < u64::MAX
                    &&& insert.roots_consistent_spec()
                })
                &&& (r matches Ok(h) ==> h@ == insert.new_root_spec())
            },
            self matches MutateProof::Update(update) ==> {
                &&& (r is Ok <==> old_root@ == update.old_root@ && update.node_in_tree_spec())
                &&& (r matches Ok(h) ==> h@ == update.new_root_spec())
            },
    {
        match self {
            MutateProof::Insert(insert) => insert.verify(old_root),
            MutateProof::Update(update) => update.verify(old_root),
        }
    }
}

} // verus!

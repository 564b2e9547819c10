//! An indexed Merkle tree: an authenticated key-value store whose leaves form
//! a sorted linked list, so that both membership and non-membership of a key
//! can be proved against a single 32-byte, size-bound root commitment.

use vstd::prelude::*;

pub mod bytes;
pub mod coherence;
pub mod hash;
pub mod keyspace;
pub mod laws;
pub mod node;
pub mod proofs;
pub mod storage;
pub mod store;
pub mod tree;

verus! {

/// A 32-byte digest.
pub type Hash256 = [u8; 32];

} // verus!

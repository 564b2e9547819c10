//! Keccak-256 hashing, behind a single trusted wrapper.
//!
//! The digest itself is left uninterpreted: every contract of this crate
//! speaks of `keccak256(bytes)`, the name given to what tiny_keccak computes
//! for those bytes.

use vstd::prelude::*;

verus! {

use crate::Hash256;

/// The Keccak-256 digest of a byte sequence, as computed by tiny_keccak.
pub uninterp spec fn keccak256(data: Seq<u8>) -> Seq<u8>;

/// Relies on tiny_keccak's Keccak-256 sponge (`Keccak::v256` + `update` +
/// `finalize`): the 32-byte digest is a function of the absorbed bytes alone.
#[verifier::external_body]
pub(crate) fn keccak256_hash(data: &Vec<u8>) -> (r: Hash256)
    ensures
        r@ == keccak256(data@),
{
    let mut hasher = tiny_keccak::Keccak::v256();
    tiny_keccak::Hasher::update(&mut hasher, data.as_slice());
    let mut out = [0u8; 32];
    tiny_keccak::Hasher::finalize(hasher, &mut out);
    out
}

} // verus!

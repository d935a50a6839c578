//! The Keccak-256 hash.

use vstd::prelude::*;

verus! {

/// The Keccak-256 digest of a byte string.
pub uninterp spec fn keccak256_digest(data: Seq<u8>) -> Seq<u8>;

/// `alloy_primitives::keccak256`: the 32 bytes of the Keccak-256 digest of the argument.
#[verifier::external_body]
pub(crate) fn keccak256_bytes(data: &[u8]) -> (r: [u8; 32])
    ensures
        r@ == keccak256_digest(data@),
{
    alloy_primitives::keccak256(data).0
}

} // verus!

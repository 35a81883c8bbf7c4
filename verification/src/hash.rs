//! Content digests.
use vstd::prelude::*;
use crate::primitives::Digest;

verus! {

/// The Keccak-256 digest of a byte string.
pub uninterp spec fn keccak256_digest(data: Seq<u8>) -> Seq<u8>;

/// Calls `alloy_primitives::keccak256`.  The contract names the digest that the
/// call computes from the bytes of `data`; nothing else is claimed of it.
#[verifier::external_body]
pub(crate) fn keccak256(data: &[u8]) -> (digest: Digest)
    ensures
        digest@ == keccak256_digest(data@),
{
    alloy_primitives::keccak256(data).0
}

} // verus!

//! The 256-bit hash that binds a solution to the block it was accepted into.
//! The algorithm is a capability: the ledger works with any hasher.

use vstd::prelude::*;

verus! {

/// A deterministic 256-bit hash of a byte string.
pub trait ContentHasher {
    /// The digest of `data`: the same bytes always have the same digest.
    spec fn digest(&self, data: Seq<u8>) -> Seq<u8>;

    /// Computes the digest of `data`.
    fn hash(&self, data: &[u8]) -> (digest: [u8; 32])
        ensures
            digest@ == self.digest(data@),
    ;
}

/// The Blake2b digest of 256 bits, as `sp-runtime` computes it.
pub uninterp spec fn blake2_256(data: Seq<u8>) -> Seq<u8>;

/// Calls `BlakeTwo256::hash` of `sp-runtime` and hands out the 32 bytes of the
/// hash it returns. Claimed: the result depends on the bytes of `data` alone.
#[verifier::external_body]
fn blake_two_256(data: &[u8]) -> (digest: [u8; 32])
    ensures
        digest@ == blake2_256(data@),
{
    <sp_runtime::traits::BlakeTwo256 as sp_runtime::traits::Hash>::hash(data).0
}

/// Blake2b with a digest of 256 bits.
#[derive(Clone, Copy, Debug)]
pub struct BlakeTwo256;

impl ContentHasher for BlakeTwo256 {
    open spec fn digest(&self, data: Seq<u8>) -> Seq<u8> {
        blake2_256(data)
    }

    fn hash(&self, data: &[u8]) -> (digest: [u8; 32]) {
        blake_two_256(data)
    }
}

} // verus!

//! The hashing of raw keys.

use vstd::prelude::*;
use crate::primitives::B256;

verus! {

/// A pure function from the bytes of a raw key to its 256-bit digest.
///
/// The digest depends on the bytes alone, so hashing one key twice, in any
/// order and on any thread, gives one digest.
pub trait KeyHasher {
    /// The digest of `bytes`.
    spec fn digest(bytes: Seq<u8>) -> Seq<u8>;

    /// Hashes the bytes of a raw key.
    fn hash_key(bytes: &[u8]) -> (d: B256)
        ensures
            d@ == Self::digest(bytes@),
    ;
}

/// The Keccak-256 digest of `bytes`.
pub uninterp spec fn keccak256_digest(bytes: Seq<u8>) -> Seq<u8>;

/// `alloy_primitives::keccak256`: the 32 bytes that it returns for `bytes` are
/// their Keccak-256 digest, which is not computed here but named.
#[verifier::external_body]
fn keccak256(bytes: &[u8]) -> (d: B256)
    ensures
        d@ == keccak256_digest(bytes@),
{
    alloy_primitives::keccak256(bytes).0
}

/// The hasher of the state trie: Keccak-256.
#[derive(Clone, Copy, Debug, Default)]
pub struct KeccakKeyHasher;

impl KeyHasher for KeccakKeyHasher {
    open spec fn digest(bytes: Seq<u8>) -> Seq<u8> {
        keccak256_digest(bytes)
    }

    fn hash_key(bytes: &[u8]) -> (d: B256) {
        keccak256(bytes)
    }
}

} // verus!

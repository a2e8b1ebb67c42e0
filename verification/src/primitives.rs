//! Raw keys and digests.

use vstd::prelude::*;
use crate::sorted::ByteKey;

verus! {

/// The number of a block.
pub type BlockNumber = u64;

/// The raw identifier of an account.
pub type Address = [u8; 20];

/// A 256-bit value: a raw storage slot key, or the digest of a raw key.
pub type B256 = [u8; 32];

impl ByteKey for B256 {
    open spec fn key(&self) -> Seq<u8> {
        self@
    }

    fn key_bytes(&self) -> (r: &[u8]) {
        self.as_slice()
    }
}

} // verus!

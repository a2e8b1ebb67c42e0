//! Prefix sets of the trie paths that changed over a range of blocks.
//!
//! The change log of a state history names, block by block, the accounts and
//! the storage slots that were written. Hashing every such key and unpacking
//! the digest into nibbles gives the paths of a Merkle-Patricia trie that have
//! to be revisited when the trie is hashed again; every other subtree can be
//! reused. This crate computes those paths for an inclusive range of blocks.

pub mod bytes;
pub mod sorted;
pub mod primitives;
pub mod nibbles;
pub mod hasher;
pub mod digest_stage;
pub mod prefix_set;
pub mod digest_set;
pub mod digest_map;
pub mod change_log;
pub mod trie_prefix_sets;
pub mod loader;
pub mod laws;

//! The digest stage: every collected raw key is hashed, on many threads.
//!
//! Each digest depends on its own entry alone, so the entries are handed out
//! to worker threads; the digests come back as a list in the order of the
//! entries.

use vstd::prelude::*;
use rayon::iter::{IntoParallelRefIterator, ParallelIterator};
use crate::hasher::KeyHasher;
use crate::primitives::{Address, B256};

verus! {

/// The digests of `addresses`, one for each, in their order.
pub open spec fn address_digests<KH: KeyHasher>(addresses: Seq<Address>) -> Seq<Seq<u8>> {
    Seq::new(addresses.len(), |i: int| KH::digest(addresses[i]@))
}

/// The digests of the account and of the slot of each entry, in the order of
/// the entries.
pub open spec fn storage_digests<KH: KeyHasher>(entries: Seq<(Address, B256)>) -> Seq<
    (Seq<u8>, Seq<u8>),
> {
    Seq::new(entries.len(), |i: int| (KH::digest(entries[i].0@), KH::digest(entries[i].1@)))
}

/// The views of a list of digests.
pub open spec fn digest_views(hashed: Seq<B256>) -> Seq<Seq<u8>> {
    Seq::new(hashed.len(), |i: int| hashed[i]@)
}

/// The views of a list of pairs of digests.
pub open spec fn digest_pair_views(hashed: Seq<(B256, B256)>) -> Seq<(Seq<u8>, Seq<u8>)> {
    Seq::new(hashed.len(), |i: int| (hashed[i].0@, hashed[i].1@))
}

/// Hashes the address of one account.
pub fn hash_address<KH: KeyHasher>(address: &Address) -> (d: B256)
    ensures
        d@ == KH::digest(address@),
{
    KH::hash_key(address.as_slice())
}

/// Hashes the account and the slot of one storage entry.
pub fn hash_storage_entry<KH: KeyHasher>(entry: &(Address, B256)) -> (d: (B256, B256))
    ensures
        d.0@ == KH::digest(entry.0@),
        d.1@ == KH::digest(entry.1@),
{
    (KH::hash_key(entry.0.as_slice()), KH::hash_key(entry.1.as_slice()))
}

/// rayon's `par_iter`, `map` and `collect` into a `Vec`: `f` is applied to
/// every item, on the threads of the pool, and the list that comes back holds
/// for each item, in the order of the items, what `f` returned for it.
#[verifier::external_body]
fn par_map<A: Sync, B: Send, F: Fn(&A) -> B + Sync + Send>(items: &Vec<A>, f: F) -> (out: Vec<B>)
    requires
        forall|i: int| 0 <= i < items@.len() ==> call_requires(f, (&#[trigger] items@[i],)),
    ensures
        out@.len() == items@.len(),
        forall|i: int|
            0 <= i < items@.len() ==> call_ensures(f, (&items@[i],), #[trigger] out@[i]),
{
    items.par_iter().map(f).collect()
}

/// Hashes the addresses of the changed accounts: one digest for each address,
/// in the order of the addresses, however the work was split.
pub fn hash_addresses<KH: KeyHasher>(addresses: &Vec<Address>) -> (hashed: Vec<B256>)
    ensures
        digest_views(hashed@) == address_digests::<KH>(addresses@),
        hashed@.len() == addresses@.len(),
        forall|i: int|
            0 <= i < hashed@.len() ==> (#[trigger] hashed@[i])@ == KH::digest(addresses@[i]@),
{
    let hashed = par_map(addresses, hash_address::<KH>);
    proof {
        assert forall|i: int| 0 <= i < hashed@.len() implies (#[trigger] hashed@[i])@
            == KH::digest(addresses@[i]@) by {
            assert(call_ensures(hash_address::<KH>, (&addresses@[i],), hashed@[i]));
        }
        assert(digest_views(hashed@) =~= address_digests::<KH>(addresses@));
    }
    hashed
}

/// Hashes the changed storage entries: for each entry the digest of its
/// account and the digest of its slot, in the order of the entries, however
/// the work was split.
pub fn hash_storage_entries<KH: KeyHasher>(entries: &Vec<(Address, B256)>) -> (hashed: Vec<
    (B256, B256),
>)
    ensures
        digest_pair_views(hashed@) == storage_digests::<KH>(entries@),
        hashed@.len() == entries@.len(),
        forall|i: int|
            0 <= i < hashed@.len() ==> (#[trigger] hashed@[i]).0@ == KH::digest(entries@[i].0@)
                && hashed@[i].1@ == KH::digest(entries@[i].1@),
{
    let hashed = par_map(entries, hash_storage_entry::<KH>);
    proof {
        assert forall|i: int| 0 <= i < hashed@.len() implies (#[trigger] hashed@[i]).0@
            == KH::digest(entries@[i].0@) && hashed@[i].1@ == KH::digest(entries@[i].1@) by {
            assert(call_ensures(hash_storage_entry::<KH>, (&entries@[i],), hashed@[i]));
        }
        assert(digest_pair_views(hashed@) =~= storage_digests::<KH>(entries@));
    }
    hashed
}

} // verus!

//! The loader: from the change log of a range of blocks to its prefix sets.

use vstd::prelude::*;
use core::marker::PhantomData;
use core::ops::RangeInclusive;
use crate::change_log::{account_in_range, in_range, storage_in_range, ChangeStore};
use crate::digest_stage::{
    address_digests, digest_pair_views, digest_views, hash_addresses, hash_storage_entries,
    storage_digests,
};
use crate::hasher::KeyHasher;
use crate::nibbles::unpack_spec;
use crate::primitives::{BlockNumber, B256};
use crate::trie_prefix_sets::{
    account_paths, build_prefix_sets, destroyed, slot_paths, storage_paths, TriePrefixSets,
};

verus! {

/// The paths of the accounts that changed in `range`: the unpacked digest of
/// the address of every account change and of every storage change whose
/// block lies in the range.
pub open spec fn changed_account_paths<KH: KeyHasher>(
    store: &ChangeStore,
    range: RangeInclusive<BlockNumber>,
) -> Set<Seq<u8>> {
    Set::new(
        |p: Seq<u8>|
            (exists|i: int|
                0 <= i < store.account_change_sets@.len() && in_range(
                    range,
                    (#[trigger] store.account_change_sets@[i]).block_number,
                ) && unpack_spec(KH::digest(store.account_change_sets@[i].address@)) == p)
                || (exists|j: int|
                0 <= j < store.storage_change_sets@.len() && in_range(
                    range,
                    (#[trigger] store.storage_change_sets@[j]).block_number,
                ) && unpack_spec(KH::digest(store.storage_change_sets@[j].address@)) == p),
    )
}

/// The paths of the slots that changed in `range` under the account with the
/// digest `account`.
pub open spec fn changed_slot_paths<KH: KeyHasher>(
    store: &ChangeStore,
    range: RangeInclusive<BlockNumber>,
    account: Seq<u8>,
) -> Set<Seq<u8>> {
    Set::new(
        |p: Seq<u8>|
            exists|j: int|
                0 <= j < store.storage_change_sets@.len() && in_range(
                    range,
                    (#[trigger] store.storage_change_sets@[j]).block_number,
                ) && KH::digest(store.storage_change_sets@[j].address@) == account && unpack_spec(
                    KH::digest(store.storage_change_sets@[j].key@),
                ) == p,
    )
}

/// The paths of the slots that changed in `range`, by the digest of their
/// account. An account without a storage change in the range is not mapped.
pub open spec fn changed_storage_paths<KH: KeyHasher>(
    store: &ChangeStore,
    range: RangeInclusive<BlockNumber>,
) -> Map<Seq<u8>, Set<Seq<u8>>> {
    Map::new(
        |a: Seq<u8>|
            exists|j: int|
                0 <= j < store.storage_change_sets@.len() && in_range(
                    range,
                    (#[trigger] store.storage_change_sets@[j]).block_number,
                ) && KH::digest(store.storage_change_sets@[j].address@) == a,
        |a: Seq<u8>| changed_slot_paths::<KH>(store, range, a),
    )
}

/// The digests of the accounts that were destroyed: those with an account
/// change in `range` whose digest is not among the current accounts.
pub open spec fn destroyed_accounts<KH: KeyHasher>(
    store: &ChangeStore,
    range: RangeInclusive<BlockNumber>,
) -> Set<Seq<u8>> {
    Set::new(
        |d: Seq<u8>|
            exists|i: int|
                0 <= i < store.account_change_sets@.len() && in_range(
                    range,
                    (#[trigger] store.account_change_sets@[i]).block_number,
                ) && KH::digest(store.account_change_sets@[i].address@) == d
                    && !store.hashed_accounts@.contains(d),
    )
}

/// Each member of `s.filter_map(f)` comes from a member of `s`.
proof fn lemma_filter_map_source<A, B>(s: Seq<A>, f: spec_fn(A) -> Option<B>, k: int) -> (i:
    int)
    requires
        0 <= k < s.filter_map(f).len(),
    ensures
        0 <= i < s.len(),
        f(s[i]) == Some(s.filter_map(f)[k]),
    decreases s.len(),
{
    if s.len() == 0 {
        0
    } else {
        let rest = s.drop_last();
        if f(s.last()) is Some && k == rest.filter_map(f).len() {
            s.len() - 1
        } else {
            lemma_filter_map_source(rest, f, k)
        }
    }
}

/// Each member of `s` that `f` keeps has its place in `s.filter_map(f)`.
proof fn lemma_filter_map_target<A, B>(s: Seq<A>, f: spec_fn(A) -> Option<B>, i: int) -> (k:
    int)
    requires
        0 <= i < s.len(),
        f(s[i]) is Some,
    ensures
        0 <= k < s.filter_map(f).len(),
        f(s[i]) == Some(s.filter_map(f)[k]),
    decreases s.len(),
{
    let rest = s.drop_last();
    if i == s.len() - 1 {
        rest.filter_map(f).len() as int
    } else {
        let k = lemma_filter_map_target(rest, f, i);
        k
    }
}

/// Loads the prefix sets of a range of blocks from a store.
#[derive(Debug)]
pub struct PrefixSetLoader<'a, KH> {
    store: &'a ChangeStore,
    hasher: PhantomData<KH>,
}

impl<'a, KH> PrefixSetLoader<'a, KH> {
    /// The store that the loader reads.
    pub closed spec fn store(&self) -> &'a ChangeStore {
        self.store
    }

    /// Create a new loader.
    pub fn new(store: &'a ChangeStore) -> (loader: Self)
        ensures
            loader.store() == store,
    {
        PrefixSetLoader { store, hasher: PhantomData }
    }
}

impl<'a, KH> core::ops::Deref for PrefixSetLoader<'a, KH> {
    type Target = ChangeStore;

    fn deref(&self) -> (store: &ChangeStore)
        ensures
            store == self.store(),
    {
        self.store
    }
}

impl<KH: KeyHasher> PrefixSetLoader<'_, KH> {
    /// Load all account and storage changes for the given block range.
    ///
    /// The loader is used up by the call. What comes back is fixed by the
    /// records of the range and by the current accounts: neither the order of
    /// the records nor the way the hashing was split among threads shows in
    /// it.
    pub fn load(self, range: RangeInclusive<BlockNumber>) -> (sets: TriePrefixSets)
        requires
            self.store().wf(),
        ensures
            sets.wf(),
            sets.account_prefix_set@ == changed_account_paths::<KH>(self.store(), range),
            sets.storage_prefix_sets@ == changed_storage_paths::<KH>(self.store(), range),
            sets.destroyed_accounts@ == destroyed_accounts::<KH>(self.store(), range),
    {
        let store = self.store;
        let addresses = store.changed_accounts(&range);
        let hashed_accounts = hash_addresses::<KH>(&addresses);
        let present = store.find_accounts(&hashed_accounts);
        let entries = store.changed_storage(&range);
        let hashed_storage = hash_storage_entries::<KH>(&entries);
        let sets = build_prefix_sets(&hashed_accounts, &present, &hashed_storage);
        proof {
            lemma_loaded::<KH>(store, range, hashed_accounts@, present@, hashed_storage@);
        }
        sets
    }
}

/// What is built from the digests of the records of `range` is what the
/// records of `range` call for.
proof fn lemma_loaded<KH: KeyHasher>(
    store: &ChangeStore,
    range: RangeInclusive<BlockNumber>,
    hashed_accounts: Seq<B256>,
    present: Seq<bool>,
    hashed_storage: Seq<(B256, B256)>,
)
    requires
        digest_views(hashed_accounts) == address_digests::<KH>(
            store.account_change_sets@.filter_map(account_in_range(range)),
        ),
        digest_pair_views(hashed_storage) == storage_digests::<KH>(
            store.storage_change_sets@.filter_map(storage_in_range(range)),
        ),
        present.len() == hashed_accounts.len(),
        forall|i: int|
            0 <= i < present.len() ==> present[i] == store.hashed_accounts@.contains(
                #[trigger] hashed_accounts[i]@,
            ),
    ensures
        account_paths(digest_views(hashed_accounts), digest_pair_views(hashed_storage))
            == changed_account_paths::<KH>(store, range),
        storage_paths(digest_pair_views(hashed_storage)) == changed_storage_paths::<KH>(
            store,
            range,
        ),
        destroyed(digest_views(hashed_accounts), present) == destroyed_accounts::<KH>(
            store,
            range,
        ),
{
    let log_a = store.account_change_sets@;
    let log_s = store.storage_change_sets@;
    let fa = account_in_range(range);
    let fs = storage_in_range(range);
    let addresses = log_a.filter_map(fa);
    let entries = log_s.filter_map(fs);
    let accounts = digest_views(hashed_accounts);
    let storage = digest_pair_views(hashed_storage);
    assert(accounts.len() == addresses.len());
    assert(storage.len() == entries.len());
    assert forall|k: int| 0 <= k < accounts.len() implies #[trigger] accounts[k] == KH::digest(
        addresses[k]@,
    ) by {
        assert(accounts[k] == address_digests::<KH>(addresses)[k]);
    }
    assert forall|k: int| 0 <= k < storage.len() implies #[trigger] storage[k] == (
        KH::digest(entries[k].0@),
        KH::digest(entries[k].1@),
    ) by {
        assert(storage[k] == storage_digests::<KH>(entries)[k]);
    }

    // the paths of the accounts
    let built = account_paths(accounts, storage);
    let wanted = changed_account_paths::<KH>(store, range);
    assert forall|p: Seq<u8>| built.contains(p) == wanted.contains(p) by {
        if exists|k: int| 0 <= k < accounts.len() && unpack_spec(#[trigger] accounts[k]) == p {
            let k = choose|k: int| 0 <= k < accounts.len() && unpack_spec(#[trigger] accounts[k]) == p;
            let i = lemma_filter_map_source(log_a, fa, k);
            assert(in_range(range, log_a[i].block_number));
            assert(unpack_spec(KH::digest(log_a[i].address@)) == p);
        }
        if exists|k: int| 0 <= k < storage.len() && unpack_spec((#[trigger] storage[k]).0) == p {
            let k = choose|k: int|
                0 <= k < storage.len() && unpack_spec((#[trigger] storage[k]).0) == p;
            let j = lemma_filter_map_source(log_s, fs, k);
            assert(in_range(range, log_s[j].block_number));
            assert(unpack_spec(KH::digest(log_s[j].address@)) == p);
        }
        if exists|i: int|
            0 <= i < log_a.len() && in_range(range, (#[trigger] log_a[i]).block_number)
                && unpack_spec(KH::digest(log_a[i].address@)) == p {
            let i = choose|i: int|
                0 <= i < log_a.len() && in_range(range, (#[trigger] log_a[i]).block_number)
                    && unpack_spec(KH::digest(log_a[i].address@)) == p;
            let k = lemma_filter_map_target(log_a, fa, i);
            assert(unpack_spec(accounts[k]) == p);
        }
        if exists|j: int|
            0 <= j < log_s.len() && in_range(range, (#[trigger] log_s[j]).block_number)
                && unpack_spec(KH::digest(log_s[j].address@)) == p {
            let j = choose|j: int|
                0 <= j < log_s.len() && in_range(range, (#[trigger] log_s[j]).block_number)
                    && unpack_spec(KH::digest(log_s[j].address@)) == p;
            let k = lemma_filter_map_target(log_s, fs, j);
            assert(unpack_spec(storage[k].0) == p);
        }
    }
    assert(built =~= wanted);

    // the destroyed accounts
    let gone = destroyed(accounts, present);
    let lost = destroyed_accounts::<KH>(store, range);
    assert forall|d: Seq<u8>| gone.contains(d) == lost.contains(d) by {
        if gone.contains(d) {
            let k = choose|k: int| 0 <= k < accounts.len() && #[trigger] accounts[k] == d && !present[k];
            let i = lemma_filter_map_source(log_a, fa, k);
            assert(accounts[k] == hashed_accounts[k]@);
            assert(in_range(range, log_a[i].block_number));
        }
        if lost.contains(d) {
            let i = choose|i: int|
                0 <= i < log_a.len() && in_range(range, (#[trigger] log_a[i]).block_number)
                    && KH::digest(log_a[i].address@) == d && !store.hashed_accounts@.contains(d);
            let k = lemma_filter_map_target(log_a, fa, i);
            assert(accounts[k] == hashed_accounts[k]@);
            assert(accounts[k] == d && !present[k]);
        }
    }
    assert(gone =~= lost);

    // the paths of the slots
    let slots = storage_paths(storage);
    let goal = changed_storage_paths::<KH>(store, range);
    assert forall|a: Seq<u8>| slots.contains_key(a) == goal.contains_key(a) by {
        if slots.contains_key(a) {
            let k = choose|k: int| 0 <= k < storage.len() && (#[trigger] storage[k]).0 == a;
            let j = lemma_filter_map_source(log_s, fs, k);
            assert(in_range(range, log_s[j].block_number));
        }
        if goal.contains_key(a) {
            let j = choose|j: int|
                0 <= j < log_s.len() && in_range(range, (#[trigger] log_s[j]).block_number)
                    && KH::digest(log_s[j].address@) == a;
            let k = lemma_filter_map_target(log_s, fs, j);
            assert(storage[k].0 == a);
        }
    }
    assert forall|a: Seq<u8>| #[trigger] slots.contains_key(a) implies slots[a] == goal[a] by {
        let l = slot_paths(storage, a);
        let r = changed_slot_paths::<KH>(store, range, a);
        assert forall|p: Seq<u8>| l.contains(p) == r.contains(p) by {
            if l.contains(p) {
                let k = choose|k: int|
                    0 <= k < storage.len() && (#[trigger] storage[k]).0 == a && unpack_spec(
                        storage[k].1,
                    ) == p;
                let j = lemma_filter_map_source(log_s, fs, k);
                assert(in_range(range, log_s[j].block_number));
            }
            if r.contains(p) {
                let j = choose|j: int|
                    0 <= j < log_s.len() && in_range(range, (#[trigger] log_s[j]).block_number)
                        && KH::digest(log_s[j].address@) == a && unpack_spec(
                        KH::digest(log_s[j].key@),
                    ) == p;
                let k = lemma_filter_map_target(log_s, fs, j);
                assert(storage[k].0 == a && unpack_spec(storage[k].1) == p);
            }
        }
        assert(l =~= r);
    }
    assert(slots =~= goal);
}

} // verus!

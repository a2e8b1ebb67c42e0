//! The prefix sets of a load, and how they are built from digests.

use vstd::prelude::*;
use crate::digest_map::{storage_sets_wf, B256Map};
use crate::digest_set::B256Set;
use crate::digest_stage::{digest_pair_views, digest_views};
use crate::nibbles::{unpack_spec, Nibbles};
use crate::prefix_set::{PrefixSet, PrefixSetMut};
use crate::primitives::B256;

verus! {

/// The paths of the changed accounts: the unpacked digest of every account
/// that was changed itself, and of every account of which a slot was changed.
pub open spec fn account_paths(
    accounts: Seq<Seq<u8>>,
    storage: Seq<(Seq<u8>, Seq<u8>)>,
) -> Set<Seq<u8>> {
    Set::new(
        |p: Seq<u8>|
            (exists|i: int| 0 <= i < accounts.len() && unpack_spec(#[trigger] accounts[i]) == p)
                || (exists|j: int|
                0 <= j < storage.len() && unpack_spec((#[trigger] storage[j]).0) == p),
    )
}

/// The paths of the changed slots of one account: the unpacked digest of
/// every slot that was changed under the digest `account`.
pub open spec fn slot_paths(storage: Seq<(Seq<u8>, Seq<u8>)>, account: Seq<u8>) -> Set<Seq<u8>> {
    Set::new(
        |p: Seq<u8>|
            exists|j: int|
                0 <= j < storage.len() && (#[trigger] storage[j]).0 == account && unpack_spec(
                    storage[j].1,
                ) == p,
    )
}

/// The paths of the changed slots, account by account. Only an account of
/// which a slot was changed is mapped.
pub open spec fn storage_paths(storage: Seq<(Seq<u8>, Seq<u8>)>) -> Map<Seq<u8>, Set<Seq<u8>>> {
    Map::new(
        |a: Seq<u8>| exists|j: int| 0 <= j < storage.len() && (#[trigger] storage[j]).0 == a,
        |a: Seq<u8>| slot_paths(storage, a),
    )
}

/// The digests of the destroyed accounts: every changed account whose digest
/// was looked up among the current accounts and not found.
pub open spec fn destroyed(accounts: Seq<Seq<u8>>, present: Seq<bool>) -> Set<Seq<u8>> {
    Set::new(
        |d: Seq<u8>|
            exists|i: int| 0 <= i < accounts.len() && #[trigger] accounts[i] == d && !present[i],
    )
}

/// One more changed account adds its path and no other.
proof fn lemma_account_paths_push_account(
    accounts: Seq<Seq<u8>>,
    storage: Seq<(Seq<u8>, Seq<u8>)>,
    x: Seq<u8>,
)
    ensures
        account_paths(accounts.push(x), storage) == account_paths(accounts, storage).insert(
            unpack_spec(x),
        ),
{
    let more = accounts.push(x);
    let lhs = account_paths(more, storage);
    let rhs = account_paths(accounts, storage).insert(unpack_spec(x));
    assert forall|p: Seq<u8>| lhs.contains(p) == rhs.contains(p) by {
        if lhs.contains(p) {
            if exists|i: int| 0 <= i < more.len() && unpack_spec(#[trigger] more[i]) == p {
                let i = choose|i: int| 0 <= i < more.len() && unpack_spec(#[trigger] more[i]) == p;
                if i < accounts.len() {
                    assert(unpack_spec(accounts[i]) == p);
                }
            }
        }
        if rhs.contains(p) {
            if p == unpack_spec(x) {
                assert(unpack_spec(more[accounts.len() as int]) == p);
            } else if exists|i: int|
                0 <= i < accounts.len() && unpack_spec(#[trigger] accounts[i]) == p {
                let i = choose|i: int|
                    0 <= i < accounts.len() && unpack_spec(#[trigger] accounts[i]) == p;
                assert(unpack_spec(more[i]) == p);
            }
        }
    }
    assert(lhs =~= rhs);
}

/// One more changed slot adds the path of its account, and no other, to the
/// paths of the accounts.
proof fn lemma_account_paths_push_storage(
    accounts: Seq<Seq<u8>>,
    storage: Seq<(Seq<u8>, Seq<u8>)>,
    e: (Seq<u8>, Seq<u8>),
)
    ensures
        account_paths(accounts, storage.push(e)) == account_paths(accounts, storage).insert(
            unpack_spec(e.0),
        ),
{
    let more = storage.push(e);
    let lhs = account_paths(accounts, more);
    let rhs = account_paths(accounts, storage).insert(unpack_spec(e.0));
    assert forall|p: Seq<u8>| lhs.contains(p) == rhs.contains(p) by {
        if lhs.contains(p) {
            if exists|j: int| 0 <= j < more.len() && unpack_spec((#[trigger] more[j]).0) == p {
                let j = choose|j: int|
                    0 <= j < more.len() && unpack_spec((#[trigger] more[j]).0) == p;
                if j < storage.len() {
                    assert(unpack_spec(storage[j].0) == p);
                }
            }
        }
        if rhs.contains(p) {
            if p == unpack_spec(e.0) {
                assert(unpack_spec(more[storage.len() as int].0) == p);
            } else if exists|j: int|
                0 <= j < storage.len() && unpack_spec((#[trigger] storage[j]).0) == p {
                let j = choose|j: int|
                    0 <= j < storage.len() && unpack_spec((#[trigger] storage[j]).0) == p;
                assert(unpack_spec(more[j].0) == p);
            }
        }
    }
    assert(lhs =~= rhs);
}

/// One more looked-up account adds its digest to the destroyed ones if it was
/// not found, and changes nothing if it was.
proof fn lemma_destroyed_push(accounts: Seq<Seq<u8>>, present: Seq<bool>, x: Seq<u8>, found: bool)
    requires
        present.len() == accounts.len(),
    ensures
        destroyed(accounts.push(x), present.push(found)) == if found {
            destroyed(accounts, present)
        } else {
            destroyed(accounts, present).insert(x)
        },
{
    let more = accounts.push(x);
    let flags = present.push(found);
    let lhs = destroyed(more, flags);
    let rhs = if found {
        destroyed(accounts, present)
    } else {
        destroyed(accounts, present).insert(x)
    };
    assert forall|d: Seq<u8>| lhs.contains(d) == rhs.contains(d) by {
        if lhs.contains(d) {
            let i = choose|i: int| 0 <= i < more.len() && #[trigger] more[i] == d && !flags[i];
            if i < accounts.len() {
                assert(accounts[i] == d && !present[i]);
            }
        }
        if destroyed(accounts, present).contains(d) {
            let i = choose|i: int|
                0 <= i < accounts.len() && #[trigger] accounts[i] == d && !present[i];
            assert(more[i] == d && !flags[i]);
        }
        if !found && d == x {
            assert(more[accounts.len() as int] == d && !flags[accounts.len() as int]);
        }
    }
    assert(lhs =~= rhs);
}

/// One more changed slot adds its path to the set of its account, which is
/// mapped from then on, and touches no other account.
proof fn lemma_storage_paths_push(storage: Seq<(Seq<u8>, Seq<u8>)>, e: (Seq<u8>, Seq<u8>))
    ensures
        storage_paths(storage.push(e)) == storage_paths(storage).insert(
            e.0,
            (if storage_paths(storage).contains_key(e.0) {
                storage_paths(storage)[e.0]
            } else {
                Set::<Seq<u8>>::empty()
            }).insert(unpack_spec(e.1)),
        ),
{
    let more = storage.push(e);
    let old_map = storage_paths(storage);
    let prior = if old_map.contains_key(e.0) {
        old_map[e.0]
    } else {
        Set::<Seq<u8>>::empty()
    };
    let lhs = storage_paths(more);
    let rhs = old_map.insert(e.0, prior.insert(unpack_spec(e.1)));
    assert forall|a: Seq<u8>| lhs.contains_key(a) == rhs.contains_key(a) by {
        if lhs.contains_key(a) {
            let j = choose|j: int| 0 <= j < more.len() && (#[trigger] more[j]).0 == a;
            if j < storage.len() {
                assert(storage[j].0 == a);
            }
        }
        if old_map.contains_key(a) {
            let j = choose|j: int| 0 <= j < storage.len() && (#[trigger] storage[j]).0 == a;
            assert(more[j].0 == a);
        }
        if a == e.0 {
            assert(more[storage.len() as int].0 == a);
        }
    }
    assert forall|a: Seq<u8>| #[trigger] lhs.contains_key(a) implies lhs[a] == rhs[a] by {
        let l = slot_paths(more, a);
        let r = rhs[a];
        if !old_map.contains_key(e.0) {
            assert forall|p: Seq<u8>| !slot_paths(storage, e.0).contains(p) by {
                if slot_paths(storage, e.0).contains(p) {
                    let j = choose|j: int|
                        0 <= j < storage.len() && (#[trigger] storage[j]).0 == e.0 && unpack_spec(
                            storage[j].1,
                        ) == p;
                    assert(storage[j].0 == e.0);
                }
            }
        }
        assert forall|p: Seq<u8>| l.contains(p) == r.contains(p) by {
            if l.contains(p) {
                let j = choose|j: int|
                    0 <= j < more.len() && (#[trigger] more[j]).0 == a && unpack_spec(more[j].1)
                        == p;
                if j < storage.len() {
                    assert(storage[j].0 == a && unpack_spec(storage[j].1) == p);
                    assert(slot_paths(storage, a).contains(p));
                }
            }
            if slot_paths(storage, a).contains(p) {
                let j = choose|j: int|
                    0 <= j < storage.len() && (#[trigger] storage[j]).0 == a && unpack_spec(
                        storage[j].1,
                    ) == p;
                assert(more[j].0 == a && unpack_spec(more[j].1) == p);
            }
            if a == e.0 && p == unpack_spec(e.1) {
                assert(more[storage.len() as int].0 == a && unpack_spec(
                    more[storage.len() as int].1,
                ) == p);
            }
        }
        assert(l =~= r);
    }
    assert(lhs =~= rhs);
}

/// What a load returns: the paths of the trie that changed over a range of
/// blocks.
#[derive(Debug)]
pub struct TriePrefixSets {
    /// The paths of the changed accounts.
    pub account_prefix_set: PrefixSet,
    /// For the digest of each account of which a slot changed, the paths of
    /// its changed slots.
    pub storage_prefix_sets: B256Map<PrefixSet>,
    /// The digests of the changed accounts that the current state lacks.
    pub destroyed_accounts: B256Set,
}

impl TriePrefixSets {
    /// Every set is frozen, an account with changed slots is itself among the
    /// changed accounts, and so is every destroyed account.
    pub open spec fn wf(&self) -> bool {
        &&& self.account_prefix_set.wf()
        &&& self.storage_prefix_sets.wf()
        &&& storage_sets_wf(&self.storage_prefix_sets)
        &&& self.destroyed_accounts.wf()
        &&& forall|a: Seq<u8>| #[trigger]
            self.storage_prefix_sets@.contains_key(a) ==> self.account_prefix_set@.contains(
                unpack_spec(a),
            )
        &&& forall|d: Seq<u8>| #[trigger]
            self.destroyed_accounts@.contains(d) ==> self.account_prefix_set@.contains(
                unpack_spec(d),
            )
    }
}

/// Builds the prefix sets from the digests of a load.
///
/// `hashed_accounts` holds the digest of the address of each account change,
/// `present` says of each of them whether the lookup among the current
/// accounts found it, and `hashed_storage` holds of each storage change the
/// digest of its address and the digest of its slot. The order of the lists
/// and the repeats in them do not show in what is built.
pub fn build_prefix_sets(
    hashed_accounts: &Vec<B256>,
    present: &Vec<bool>,
    hashed_storage: &Vec<(B256, B256)>,
) -> (sets: TriePrefixSets)
    requires
        present@.len() == hashed_accounts@.len(),
    ensures
        sets.wf(),
        sets.account_prefix_set@ == account_paths(
            digest_views(hashed_accounts@),
            digest_pair_views(hashed_storage@),
        ),
        sets.storage_prefix_sets@ == storage_paths(digest_pair_views(hashed_storage@)),
        sets.destroyed_accounts@ == destroyed(digest_views(hashed_accounts@), present@),
{
    let ghost accounts = digest_views(hashed_accounts@);
    let ghost storage = digest_pair_views(hashed_storage@);
    let ghost none = Seq::<(Seq<u8>, Seq<u8>)>::empty();
    let mut account_prefix_set = PrefixSetMut::new();
    let mut storage_prefix_sets: B256Map<PrefixSetMut> = B256Map::new();
    let mut destroyed_accounts = B256Set::new();

    proof {
        assert(account_paths(accounts.take(0), none) =~= Set::<Seq<u8>>::empty());
        assert(destroyed(accounts.take(0), present@.take(0)) =~= Set::<Seq<u8>>::empty());
    }
    let mut i: usize = 0;
    while i < hashed_accounts.len()
        invariant
            i <= hashed_accounts@.len(),
            present@.len() == hashed_accounts@.len(),
            accounts == digest_views(hashed_accounts@),
            none == Seq::<(Seq<u8>, Seq<u8>)>::empty(),
            destroyed_accounts.wf(),
            account_prefix_set@ == account_paths(accounts.take(i as int), none),
            destroyed_accounts@ == destroyed(accounts.take(i as int), present@.take(i as int)),
        decreases hashed_accounts@.len() - i,
    {
        let hashed_address: B256 = hashed_accounts[i];
        proof {
            assert(accounts.take(i + 1) =~= accounts.take(i as int).push(hashed_address@));
            assert(present@.take(i + 1) =~= present@.take(i as int).push(present@[i as int]));
            lemma_account_paths_push_account(accounts.take(i as int), none, hashed_address@);
            lemma_destroyed_push(
                accounts.take(i as int),
                present@.take(i as int),
                hashed_address@,
                present@[i as int],
            );
        }
        account_prefix_set.insert(Nibbles::unpack(hashed_address.as_slice()));
        if !present[i] {
            destroyed_accounts.insert(hashed_address);
        }
        i += 1;
    }
    proof {
        assert(accounts.take(i as int) =~= accounts);
        assert(present@.take(i as int) =~= present@);
        assert(storage.take(0) =~= none);
        assert(storage_paths(none) =~= Map::<Seq<u8>, Set<Seq<u8>>>::empty());
        storage_prefix_sets.lemma_empty_is_filled();
    }

    let mut j: usize = 0;
    while j < hashed_storage.len()
        invariant
            j <= hashed_storage@.len(),
            storage == digest_pair_views(hashed_storage@),
            storage_prefix_sets.wf(),
            storage_prefix_sets.sets_filled(),
            account_prefix_set@ == account_paths(accounts, storage.take(j as int)),
            storage_prefix_sets@ == storage_paths(storage.take(j as int)),
        decreases hashed_storage@.len() - j,
    {
        let hashed_address: B256 = hashed_storage[j].0;
        let hashed_key: B256 = hashed_storage[j].1;
        proof {
            let e = (hashed_address@, hashed_key@);
            assert(storage.take(j + 1) =~= storage.take(j as int).push(e));
            lemma_account_paths_push_storage(accounts, storage.take(j as int), e);
            lemma_storage_paths_push(storage.take(j as int), e);
        }
        account_prefix_set.insert(Nibbles::unpack(hashed_address.as_slice()));
        storage_prefix_sets.insert_path(hashed_address, Nibbles::unpack(hashed_key.as_slice()));
        j += 1;
    }
    proof {
        assert(storage.take(j as int) =~= storage);
    }

    let sets = TriePrefixSets {
        account_prefix_set: account_prefix_set.freeze(),
        storage_prefix_sets: storage_prefix_sets.freeze(),
        destroyed_accounts,
    };
    proof {
        assert forall|a: Seq<u8>| #[trigger]
            sets.storage_prefix_sets@.contains_key(a) implies sets.account_prefix_set@.contains(
            unpack_spec(a),
        ) by {
            let k = choose|k: int| 0 <= k < storage.len() && (#[trigger] storage[k]).0 == a;
            assert(unpack_spec(storage[k].0) == unpack_spec(a));
        }
        assert forall|d: Seq<u8>| #[trigger]
            sets.destroyed_accounts@.contains(d) implies sets.account_prefix_set@.contains(
            unpack_spec(d),
        ) by {
            let k = choose|k: int|
                0 <= k < accounts.len() && #[trigger] accounts[k] == d && !present@[k];
            assert(unpack_spec(accounts[k]) == unpack_spec(d));
        }
    }
    sets
}

} // verus!

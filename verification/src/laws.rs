//! What holds of every load.

use vstd::prelude::*;
use core::ops::RangeInclusive;
use crate::change_log::{in_range, ChangeStore};
use crate::hasher::KeyHasher;
use crate::loader::{
    changed_account_paths, changed_slot_paths, changed_storage_paths, destroyed_accounts,
};
use crate::nibbles::unpack_spec;
use crate::primitives::BlockNumber;
use crate::sorted::{lemma_sorted_determined_by_set, lemma_sorted_no_duplicates, set_of};
use crate::trie_prefix_sets::{
    account_paths, destroyed, slot_paths, storage_paths, TriePrefixSets,
};

verus! {

/// `sets` is what a load of `range` from `store` returns.
pub open spec fn loaded<KH: KeyHasher>(
    store: &ChangeStore,
    range: RangeInclusive<BlockNumber>,
    sets: &TriePrefixSets,
) -> bool {
    &&& sets.wf()
    &&& sets.account_prefix_set@ == changed_account_paths::<KH>(store, range)
    &&& sets.storage_prefix_sets@ == changed_storage_paths::<KH>(store, range)
    &&& sets.destroyed_accounts@ == destroyed_accounts::<KH>(store, range)
}

/// The account changes of `range` in `x` are, as a set of addresses, among
/// those in `y`, and so are the storage changes as a set of entries.
pub open spec fn records_among(
    x: &ChangeStore,
    y: &ChangeStore,
    range: RangeInclusive<BlockNumber>,
) -> bool {
    &&& forall|i: int|
        0 <= i < x.account_change_sets@.len() && in_range(
            range,
            (#[trigger] x.account_change_sets@[i]).block_number,
        ) ==> exists|k: int|
            0 <= k < y.account_change_sets@.len() && in_range(
                range,
                (#[trigger] y.account_change_sets@[k]).block_number,
            ) && y.account_change_sets@[k].address == x.account_change_sets@[i].address
    &&& forall|j: int|
        0 <= j < x.storage_change_sets@.len() && in_range(
            range,
            (#[trigger] x.storage_change_sets@[j]).block_number,
        ) ==> exists|k: int|
            0 <= k < y.storage_change_sets@.len() && in_range(
                range,
                (#[trigger] y.storage_change_sets@[k]).block_number,
            ) && y.storage_change_sets@[k].address == x.storage_change_sets@[j].address
                && y.storage_change_sets@[k].key == x.storage_change_sets@[j].key
}

/// Two results are stored alike: the same paths and digests at the same
/// places, set by set.
pub open spec fn stored_alike(x: &TriePrefixSets, y: &TriePrefixSets) -> bool {
    &&& x.account_prefix_set.paths() == y.account_prefix_set.paths()
    &&& x.storage_prefix_sets.digests() == y.storage_prefix_sets.digests()
    &&& forall|i: int|
        0 <= i < x.storage_prefix_sets.digests().len() ==> (
        #[trigger] x.storage_prefix_sets.value_at(i)).paths() == y.storage_prefix_sets.value_at(
            i,
        ).paths()
    &&& x.destroyed_accounts.digests() == y.destroyed_accounts.digests()
}

/// Two well-formed results that hold the same sets are stored alike: a frozen
/// result keeps no trace of the order in which it was filled.
pub proof fn lemma_frozen_form_is_canonical(x: &TriePrefixSets, y: &TriePrefixSets)
    requires
        x.wf(),
        y.wf(),
        x.account_prefix_set@ == y.account_prefix_set@,
        x.storage_prefix_sets@ == y.storage_prefix_sets@,
        x.destroyed_accounts@ == y.destroyed_accounts@,
    ensures
        stored_alike(x, y),
{
    lemma_sorted_determined_by_set(x.account_prefix_set.paths(), y.account_prefix_set.paths());
    lemma_sorted_determined_by_set(x.destroyed_accounts.digests(), y.destroyed_accounts.digests());
    x.storage_prefix_sets.lemma_digests_sorted();
    y.storage_prefix_sets.lemma_digests_sorted();
    let dx = x.storage_prefix_sets.digests();
    let dy = y.storage_prefix_sets.digests();
    assert forall|k: Seq<u8>|
        set_of(dx).contains(k) == set_of(dy).contains(k) by {
        assert(x.storage_prefix_sets@.contains_key(k) == set_of(dx).contains(k));
        assert(y.storage_prefix_sets@.contains_key(k) == set_of(dy).contains(k));
    }
    assert(set_of(dx) =~= set_of(dy));
    lemma_sorted_determined_by_set(dx, dy);
    assert forall|i: int| 0 <= i < dx.len() implies (#[trigger] x.storage_prefix_sets.value_at(
        i,
    )).paths() == y.storage_prefix_sets.value_at(i).paths() by {
        x.storage_prefix_sets.lemma_entry(i);
        y.storage_prefix_sets.lemma_entry(i);
        assert(y.storage_prefix_sets.value_at(i).wf());
        lemma_sorted_determined_by_set(
            x.storage_prefix_sets.value_at(i).paths(),
            y.storage_prefix_sets.value_at(i).paths(),
        );
    }
}

/// Determinism under reordering: where two stores hold the same records for
/// the range, in whatever order and however often, and the same current
/// accounts, a load from the one and a load from the other return results
/// that are stored alike.
pub proof fn lemma_load_ignores_order<KH: KeyHasher>(
    x: &ChangeStore,
    y: &ChangeStore,
    range: RangeInclusive<BlockNumber>,
    from_x: &TriePrefixSets,
    from_y: &TriePrefixSets,
)
    requires
        records_among(x, y, range),
        records_among(y, x, range),
        x.hashed_accounts@ == y.hashed_accounts@,
        loaded::<KH>(x, range, from_x),
        loaded::<KH>(y, range, from_y),
    ensures
        from_x.account_prefix_set@ == from_y.account_prefix_set@,
        from_x.storage_prefix_sets@ == from_y.storage_prefix_sets@,
        from_x.destroyed_accounts@ == from_y.destroyed_accounts@,
        stored_alike(from_x, from_y),
{
    lemma_same_records_same_sets::<KH>(x, y, range);
    lemma_same_records_same_sets::<KH>(y, x, range);
    assert(changed_account_paths::<KH>(x, range) =~= changed_account_paths::<KH>(y, range));
    assert(destroyed_accounts::<KH>(x, range) =~= destroyed_accounts::<KH>(y, range));
    let mx = changed_storage_paths::<KH>(x, range);
    let my = changed_storage_paths::<KH>(y, range);
    assert forall|a: Seq<u8>| #[trigger] mx.contains_key(a) implies mx[a] == my[a] by {
        assert(changed_slot_paths::<KH>(x, range, a) =~= changed_slot_paths::<KH>(y, range, a));
    }
    assert(mx =~= my);
    lemma_frozen_form_is_canonical(from_x, from_y);
}

/// What the records of `x` call for, the records of `y` call for too, if the
/// records of `x` are among those of `y`.
proof fn lemma_same_records_same_sets<KH: KeyHasher>(
    x: &ChangeStore,
    y: &ChangeStore,
    range: RangeInclusive<BlockNumber>,
)
    requires
        records_among(x, y, range),
        x.hashed_accounts@ == y.hashed_accounts@,
    ensures
        changed_account_paths::<KH>(x, range).subset_of(changed_account_paths::<KH>(y, range)),
        destroyed_accounts::<KH>(x, range).subset_of(destroyed_accounts::<KH>(y, range)),
        changed_storage_paths::<KH>(x, range).dom().subset_of(
            changed_storage_paths::<KH>(y, range).dom(),
        ),
        forall|a: Seq<u8>|
            (#[trigger] changed_slot_paths::<KH>(x, range, a)).subset_of(
                changed_slot_paths::<KH>(y, range, a),
            ),
{
    let xa = x.account_change_sets@;
    let xs = x.storage_change_sets@;
    let ya = y.account_change_sets@;
    let ys = y.storage_change_sets@;
    assert forall|p: Seq<u8>| changed_account_paths::<KH>(x, range).contains(
        p,
    ) implies changed_account_paths::<KH>(y, range).contains(p) by {
        if exists|i: int|
            0 <= i < xa.len() && in_range(range, (#[trigger] xa[i]).block_number) && unpack_spec(
                KH::digest(xa[i].address@),
            ) == p {
            let i = choose|i: int|
                0 <= i < xa.len() && in_range(range, (#[trigger] xa[i]).block_number)
                    && unpack_spec(KH::digest(xa[i].address@)) == p;
            let k = choose|k: int|
                0 <= k < ya.len() && in_range(range, (#[trigger] ya[k]).block_number)
                    && ya[k].address == xa[i].address;
            assert(unpack_spec(KH::digest(ya[k].address@)) == p);
        } else {
            let j = choose|j: int|
                0 <= j < xs.len() && in_range(range, (#[trigger] xs[j]).block_number)
                    && unpack_spec(KH::digest(xs[j].address@)) == p;
            let k = choose|k: int|
                0 <= k < ys.len() && in_range(range, (#[trigger] ys[k]).block_number)
                    && ys[k].address == xs[j].address && ys[k].key == xs[j].key;
            assert(unpack_spec(KH::digest(ys[k].address@)) == p);
        }
    }
    assert forall|d: Seq<u8>| destroyed_accounts::<KH>(x, range).contains(
        d,
    ) implies destroyed_accounts::<KH>(y, range).contains(d) by {
        let i = choose|i: int|
            0 <= i < xa.len() && in_range(range, (#[trigger] xa[i]).block_number) && KH::digest(
                xa[i].address@,
            ) == d && !x.hashed_accounts@.contains(d);
        let k = choose|k: int|
            0 <= k < ya.len() && in_range(range, (#[trigger] ya[k]).block_number) && ya[k].address
                == xa[i].address;
        assert(KH::digest(ya[k].address@) == d);
    }
    assert forall|a: Seq<u8>| changed_storage_paths::<KH>(x, range).dom().contains(
        a,
    ) implies changed_storage_paths::<KH>(y, range).dom().contains(a) by {
        let j = choose|j: int|
            0 <= j < xs.len() && in_range(range, (#[trigger] xs[j]).block_number) && KH::digest(
                xs[j].address@,
            ) == a;
        let k = choose|k: int|
            0 <= k < ys.len() && in_range(range, (#[trigger] ys[k]).block_number) && ys[k].address
                == xs[j].address && ys[k].key == xs[j].key;
        assert(KH::digest(ys[k].address@) == a);
    }
    assert forall|a: Seq<u8>|
        (#[trigger] changed_slot_paths::<KH>(x, range, a)).subset_of(
            changed_slot_paths::<KH>(y, range, a),
        ) by {
        assert forall|p: Seq<u8>| changed_slot_paths::<KH>(x, range, a).contains(
            p,
        ) implies changed_slot_paths::<KH>(y, range, a).contains(p) by {
            let j = choose|j: int|
                0 <= j < xs.len() && in_range(range, (#[trigger] xs[j]).block_number)
                    && KH::digest(xs[j].address@) == a && unpack_spec(KH::digest(xs[j].key@)) == p;
            let k = choose|k: int|
                0 <= k < ys.len() && in_range(range, (#[trigger] ys[k]).block_number)
                    && ys[k].address == xs[j].address && ys[k].key == xs[j].key;
            assert(KH::digest(ys[k].address@) == a && unpack_spec(KH::digest(ys[k].key@)) == p);
        }
    }
}

/// Idempotent insertion: an account that was changed in two different blocks
/// of the range has its path at exactly one place of the frozen set of
/// account paths.
pub proof fn lemma_account_changed_twice_is_held_once<KH: KeyHasher>(
    store: &ChangeStore,
    range: RangeInclusive<BlockNumber>,
    sets: &TriePrefixSets,
    i: int,
    j: int,
) -> (k: int)
    requires
        loaded::<KH>(store, range, sets),
        0 <= i < store.account_change_sets@.len(),
        0 <= j < store.account_change_sets@.len(),
        in_range(range, store.account_change_sets@[i].block_number),
        in_range(range, store.account_change_sets@[j].block_number),
        store.account_change_sets@[i].block_number != store.account_change_sets@[j].block_number,
        store.account_change_sets@[i].address == store.account_change_sets@[j].address,
    ensures
        0 <= k < sets.account_prefix_set.paths().len(),
        forall|m: int|
            0 <= m < sets.account_prefix_set.paths().len() ==> ((
            #[trigger] sets.account_prefix_set.paths()[m]) == unpack_spec(
                KH::digest(store.account_change_sets@[i].address@),
            ) <==> m == k),
{
    let p = unpack_spec(KH::digest(store.account_change_sets@[i].address@));
    let paths = sets.account_prefix_set.paths();
    assert(changed_account_paths::<KH>(store, range).contains(p));
    assert(sets.account_prefix_set@.contains(p));
    let k = choose|k: int| 0 <= k < paths.len() && #[trigger] paths[k] == p;
    lemma_sorted_no_duplicates(paths);
    k
}

/// Empty range, empty result: where no account change and no storage change
/// lies in the range, the load returns three empty sets.
pub proof fn lemma_nothing_changed_nothing_loaded<KH: KeyHasher>(
    store: &ChangeStore,
    range: RangeInclusive<BlockNumber>,
    sets: &TriePrefixSets,
)
    requires
        loaded::<KH>(store, range, sets),
        forall|i: int|
            0 <= i < store.account_change_sets@.len() ==> !in_range(
                range,
                (#[trigger] store.account_change_sets@[i]).block_number,
            ),
        forall|j: int|
            0 <= j < store.storage_change_sets@.len() ==> !in_range(
                range,
                (#[trigger] store.storage_change_sets@[j]).block_number,
            ),
    ensures
        sets.account_prefix_set@ == Set::<Seq<u8>>::empty(),
        sets.account_prefix_set.paths().len() == 0,
        sets.storage_prefix_sets@ == Map::<Seq<u8>, Set<Seq<u8>>>::empty(),
        sets.storage_prefix_sets.digests().len() == 0,
        sets.destroyed_accounts@ == Set::<Seq<u8>>::empty(),
        sets.destroyed_accounts.digests().len() == 0,
{
    assert(sets.account_prefix_set@ =~= Set::<Seq<u8>>::empty());
    assert(sets.storage_prefix_sets@ =~= Map::<Seq<u8>, Set<Seq<u8>>>::empty());
    assert(sets.destroyed_accounts@ =~= Set::<Seq<u8>>::empty());
    let paths = sets.account_prefix_set.paths();
    if paths.len() > 0 {
        assert(paths[0] == paths[0]);
        assert(sets.account_prefix_set@.contains(paths[0]));
    }
    let digests = sets.storage_prefix_sets.digests();
    if digests.len() > 0 {
        assert(digests[0] == digests[0]);
        assert(sets.storage_prefix_sets@.contains_key(digests[0]));
    }
    let gone = sets.destroyed_accounts.digests();
    if gone.len() > 0 {
        assert(gone[0] == gone[0]);
        assert(sets.destroyed_accounts@.contains(gone[0]));
    }
}

/// Destroyed-account correctness: where the account changes of the range
/// touch the accounts `a` and `b` and no other, the digest of `a` is among
/// the current accounts and that of `b` is not, the destroyed accounts are
/// the digest of `b` and nothing else.
pub proof fn lemma_destroyed_is_the_missing_account<KH: KeyHasher>(
    store: &ChangeStore,
    range: RangeInclusive<BlockNumber>,
    sets: &TriePrefixSets,
    a: Seq<u8>,
    b: Seq<u8>,
)
    requires
        loaded::<KH>(store, range, sets),
        store.hashed_accounts@.contains(KH::digest(a)),
        !store.hashed_accounts@.contains(KH::digest(b)),
        exists|i: int|
            0 <= i < store.account_change_sets@.len() && in_range(
                range,
                (#[trigger] store.account_change_sets@[i]).block_number,
            ) && store.account_change_sets@[i].address@ == a,
        exists|i: int|
            0 <= i < store.account_change_sets@.len() && in_range(
                range,
                (#[trigger] store.account_change_sets@[i]).block_number,
            ) && store.account_change_sets@[i].address@ == b,
        forall|i: int|
            0 <= i < store.account_change_sets@.len() && in_range(
                range,
                (#[trigger] store.account_change_sets@[i]).block_number,
            ) ==> store.account_change_sets@[i].address@ == a
                || store.account_change_sets@[i].address@ == b,
    ensures
        sets.destroyed_accounts@ == Set::<Seq<u8>>::empty().insert(KH::digest(b)),
        sets.destroyed_accounts.digests() == Seq::<Seq<u8>>::empty().push(KH::digest(b)),
{
    let log = store.account_change_sets@;
    let only = Set::<Seq<u8>>::empty().insert(KH::digest(b));
    let i_b = choose|i: int|
        0 <= i < log.len() && in_range(range, (#[trigger] log[i]).block_number) && log[i].address@
            == b;
    assert forall|d: Seq<u8>| sets.destroyed_accounts@.contains(d) == only.contains(d) by {
        if d == KH::digest(b) {
            assert(in_range(range, log[i_b].block_number) && KH::digest(log[i_b].address@) == d);
            assert(destroyed_accounts::<KH>(store, range).contains(d));
        }
    }
    assert(sets.destroyed_accounts@ =~= only);
    let gone = sets.destroyed_accounts.digests();
    let one = Seq::<Seq<u8>>::empty().push(KH::digest(b));
    assert(one[0] == KH::digest(b));
    assert forall|d: Seq<u8>| set_of(gone).contains(d) == set_of(
        one,
    ).contains(d) by {
        if set_of(one).contains(d) {
            let k = choose|k: int| 0 <= k < one.len() && #[trigger] one[k] == d;
        }
    }
    assert(set_of(gone) =~= set_of(one));
    lemma_sorted_determined_by_set(gone, one);
}

/// Storage implies account: the account of every storage change of the range
/// has its path among the account paths, whether or not the account itself
/// has an account change there; and its digest is mapped to a set that holds
/// the path of the slot.
pub proof fn lemma_storage_change_marks_account<KH: KeyHasher>(
    store: &ChangeStore,
    range: RangeInclusive<BlockNumber>,
    sets: &TriePrefixSets,
    j: int,
)
    requires
        loaded::<KH>(store, range, sets),
        0 <= j < store.storage_change_sets@.len(),
        in_range(range, store.storage_change_sets@[j].block_number),
    ensures
        sets.account_prefix_set@.contains(
            unpack_spec(KH::digest(store.storage_change_sets@[j].address@)),
        ),
        sets.storage_prefix_sets@.contains_key(KH::digest(store.storage_change_sets@[j].address@)),
        sets.storage_prefix_sets@[KH::digest(store.storage_change_sets@[j].address@)].contains(
            unpack_spec(KH::digest(store.storage_change_sets@[j].key@)),
        ),
{
    let c = store.storage_change_sets@[j];
    assert(changed_account_paths::<KH>(store, range).contains(unpack_spec(KH::digest(c.address@))));
    assert(changed_storage_paths::<KH>(store, range).contains_key(KH::digest(c.address@)));
    assert(changed_slot_paths::<KH>(store, range, KH::digest(c.address@)).contains(
        unpack_spec(KH::digest(c.key@)),
    ));
}

/// Every looked-up account of the first list, with what its lookup found, and
/// every storage entry of the first list occurs in the second.
pub open spec fn digests_among(
    accounts: Seq<Seq<u8>>,
    present: Seq<bool>,
    storage: Seq<(Seq<u8>, Seq<u8>)>,
    other_accounts: Seq<Seq<u8>>,
    other_present: Seq<bool>,
    other_storage: Seq<(Seq<u8>, Seq<u8>)>,
) -> bool {
    &&& forall|i: int|
        0 <= i < accounts.len() ==> exists|k: int|
            0 <= k < other_accounts.len() && #[trigger] other_accounts[k] == #[trigger] accounts[i]
                && other_present[k] == present[i]
    &&& forall|j: int|
        0 <= j < storage.len() ==> exists|k: int|
            0 <= k < other_storage.len() && #[trigger] other_storage[k] == #[trigger] storage[j]
}

/// The digest stage may hand its digests over in any order: lists of digests
/// that hold the same entries, in whatever order and however often, call for
/// the same prefix sets.
pub proof fn lemma_build_ignores_order(
    accounts: Seq<Seq<u8>>,
    present: Seq<bool>,
    storage: Seq<(Seq<u8>, Seq<u8>)>,
    other_accounts: Seq<Seq<u8>>,
    other_present: Seq<bool>,
    other_storage: Seq<(Seq<u8>, Seq<u8>)>,
)
    requires
        digests_among(accounts, present, storage, other_accounts, other_present, other_storage),
        digests_among(other_accounts, other_present, other_storage, accounts, present, storage),
    ensures
        account_paths(accounts, storage) == account_paths(other_accounts, other_storage),
        storage_paths(storage) == storage_paths(other_storage),
        destroyed(accounts, present) == destroyed(other_accounts, other_present),
{
    lemma_digests_among_subsets(
        accounts,
        present,
        storage,
        other_accounts,
        other_present,
        other_storage,
    );
    lemma_digests_among_subsets(
        other_accounts,
        other_present,
        other_storage,
        accounts,
        present,
        storage,
    );
    assert(account_paths(accounts, storage) =~= account_paths(other_accounts, other_storage));
    assert(destroyed(accounts, present) =~= destroyed(other_accounts, other_present));
    let m = storage_paths(storage);
    let n = storage_paths(other_storage);
    assert forall|a: Seq<u8>| #[trigger] m.contains_key(a) implies m[a] == n[a] by {
        assert(slot_paths(storage, a) =~= slot_paths(other_storage, a));
    }
    assert(m =~= n);
}

/// What the first lists call for, the second lists call for too, if the
/// entries of the first are among those of the second.
proof fn lemma_digests_among_subsets(
    accounts: Seq<Seq<u8>>,
    present: Seq<bool>,
    storage: Seq<(Seq<u8>, Seq<u8>)>,
    other_accounts: Seq<Seq<u8>>,
    other_present: Seq<bool>,
    other_storage: Seq<(Seq<u8>, Seq<u8>)>,
)
    requires
        digests_among(accounts, present, storage, other_accounts, other_present, other_storage),
    ensures
        account_paths(accounts, storage).subset_of(account_paths(other_accounts, other_storage)),
        destroyed(accounts, present).subset_of(destroyed(other_accounts, other_present)),
        storage_paths(storage).dom().subset_of(storage_paths(other_storage).dom()),
        forall|a: Seq<u8>|
            (#[trigger] slot_paths(storage, a)).subset_of(slot_paths(other_storage, a)),
{
    assert forall|p: Seq<u8>| account_paths(accounts, storage).contains(p) implies account_paths(
        other_accounts,
        other_storage,
    ).contains(p) by {
        if exists|i: int| 0 <= i < accounts.len() && unpack_spec(#[trigger] accounts[i]) == p {
            let i = choose|i: int| 0 <= i < accounts.len() && unpack_spec(#[trigger] accounts[i]) == p;
            let k = choose|k: int|
                0 <= k < other_accounts.len() && #[trigger] other_accounts[k] == accounts[i]
                    && other_present[k] == present[i];
            assert(unpack_spec(other_accounts[k]) == p);
        } else {
            let j = choose|j: int|
                0 <= j < storage.len() && unpack_spec((#[trigger] storage[j]).0) == p;
            let k = choose|k: int|
                0 <= k < other_storage.len() && #[trigger] other_storage[k] == storage[j];
            assert(unpack_spec(other_storage[k].0) == p);
        }
    }
    assert forall|d: Seq<u8>| destroyed(accounts, present).contains(d) implies destroyed(
        other_accounts,
        other_present,
    ).contains(d) by {
        let i = choose|i: int| 0 <= i < accounts.len() && #[trigger] accounts[i] == d && !present[i];
        let k = choose|k: int|
            0 <= k < other_accounts.len() && #[trigger] other_accounts[k] == accounts[i]
                && other_present[k] == present[i];
        assert(other_accounts[k] == d && !other_present[k]);
    }
    assert forall|a: Seq<u8>| storage_paths(storage).dom().contains(a) implies storage_paths(
        other_storage,
    ).dom().contains(a) by {
        let j = choose|j: int| 0 <= j < storage.len() && (#[trigger] storage[j]).0 == a;
        let k = choose|k: int|
            0 <= k < other_storage.len() && #[trigger] other_storage[k] == storage[j];
        assert(other_storage[k].0 == a);
    }
    assert forall|a: Seq<u8>|
        (#[trigger] slot_paths(storage, a)).subset_of(slot_paths(other_storage, a)) by {
        assert forall|p: Seq<u8>| slot_paths(storage, a).contains(p) implies slot_paths(
            other_storage,
            a,
        ).contains(p) by {
            let j = choose|j: int|
                0 <= j < storage.len() && (#[trigger] storage[j]).0 == a && unpack_spec(
                    storage[j].1,
                ) == p;
            let k = choose|k: int|
                0 <= k < other_storage.len() && #[trigger] other_storage[k] == storage[j];
            assert(other_storage[k].0 == a && unpack_spec(other_storage[k].1) == p);
        }
    }
}

} // verus!

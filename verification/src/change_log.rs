//! The change log of a state history, and how a range of blocks is read
//! from it.

use vstd::prelude::*;
use core::ops::RangeInclusive;
use crate::digest_set::B256Set;
use crate::primitives::{Address, BlockNumber, B256};

verus! {

/// A record of the account change log: in block `block_number` the account at
/// `address` was written.
#[derive(Clone, Copy, Debug)]
pub struct AccountChange {
    pub block_number: BlockNumber,
    pub address: Address,
}

/// A record of the storage change log: in block `block_number` the slot `key`
/// of the account at `address` was written.
#[derive(Clone, Copy, Debug)]
pub struct StorageChange {
    pub block_number: BlockNumber,
    pub address: Address,
    pub key: B256,
}

/// What a load reads: the two change logs, and the digests of the accounts
/// that exist now.
#[derive(Debug)]
pub struct ChangeStore {
    /// The account change log.
    pub account_change_sets: Vec<AccountChange>,
    /// The storage change log.
    pub storage_change_sets: Vec<StorageChange>,
    /// The digests of the accounts of the current state.
    pub hashed_accounts: B256Set,
}

/// `block` lies in `range`.
pub open spec fn in_range(range: RangeInclusive<BlockNumber>, block: BlockNumber) -> bool {
    &&& range@.start <= block
    &&& if range@.exhausted {
        block < range@.end
    } else {
        block <= range@.end
    }
}

/// The address of an account change, if its block lies in `range`.
pub open spec fn account_in_range(range: RangeInclusive<BlockNumber>) -> spec_fn(
    AccountChange,
) -> Option<Address> {
    |c: AccountChange|
        if in_range(range, c.block_number) {
            Some(c.address)
        } else {
            None
        }
}

/// The address and the slot of a storage change, if its block lies in `range`.
pub open spec fn storage_in_range(range: RangeInclusive<BlockNumber>) -> spec_fn(
    StorageChange,
) -> Option<(Address, B256)> {
    |c: StorageChange|
        if in_range(range, c.block_number) {
            Some((c.address, c.key))
        } else {
            None
        }
}

/// Whether `block` lies in `range`.
pub fn block_in_range(range: &RangeInclusive<BlockNumber>, block: BlockNumber) -> (b: bool)
    ensures
        b == in_range(*range, block),
{
    range.contains(&block)
}

impl ChangeStore {
    /// The digests of the current accounts are a well-formed set.
    pub open spec fn wf(&self) -> bool {
        self.hashed_accounts.wf()
    }

    /// A store with empty logs and no account.
    pub fn new() -> (s: ChangeStore)
        ensures
            s.wf(),
            s.account_change_sets@.len() == 0,
            s.storage_change_sets@.len() == 0,
            s.hashed_accounts@ == Set::<Seq<u8>>::empty(),
    {
        ChangeStore {
            account_change_sets: Vec::new(),
            storage_change_sets: Vec::new(),
            hashed_accounts: B256Set::new(),
        }
    }

    /// The addresses of the account changes of the blocks in `range`: one for
    /// each record, in the order of the log, an address as often as it was
    /// changed.
    pub fn changed_accounts(&self, range: &RangeInclusive<BlockNumber>) -> (addresses: Vec<
        Address,
    >)
        ensures
            addresses@ == self.account_change_sets@.filter_map(account_in_range(*range)),
    {
        let mut addresses: Vec<Address> = Vec::new();
        let mut i: usize = 0;
        let ghost f = account_in_range(*range);
        while i < self.account_change_sets.len()
            invariant
                i <= self.account_change_sets@.len(),
                f == account_in_range(*range),
                addresses@ == self.account_change_sets@.take(i as int).filter_map(f),
            decreases self.account_change_sets@.len() - i,
        {
            let change = &self.account_change_sets[i];
            proof {
                let next = self.account_change_sets@.take(i + 1);
                assert(next.drop_last() =~= self.account_change_sets@.take(i as int));
                assert(next.last() == *change);
            }
            if block_in_range(range, change.block_number) {
                addresses.push(change.address);
            }
            i += 1;
        }
        assert(self.account_change_sets@.take(i as int) =~= self.account_change_sets@);
        addresses
    }

    /// Looks up each digest among the current accounts, and says of each, in
    /// their order, whether it was found.
    pub fn find_accounts(&self, hashed_accounts: &Vec<B256>) -> (present: Vec<bool>)
        requires
            self.wf(),
        ensures
            present@.len() == hashed_accounts@.len(),
            forall|i: int|
                0 <= i < present@.len() ==> present@[i] == self.hashed_accounts@.contains(
                    #[trigger] hashed_accounts@[i]@,
                ),
    {
        let mut present: Vec<bool> = Vec::new();
        let mut i: usize = 0;
        while i < hashed_accounts.len()
            invariant
                i <= hashed_accounts@.len(),
                self.wf(),
                present@.len() == i,
                forall|k: int|
                    0 <= k < i ==> present@[k] == self.hashed_accounts@.contains(
                        #[trigger] hashed_accounts@[k]@,
                    ),
            decreases hashed_accounts@.len() - i,
        {
            present.push(self.hashed_accounts.contains(&hashed_accounts[i]));
            i += 1;
        }
        present
    }

    /// The entries of the storage changes of the blocks in `range`: the
    /// address and the slot of each record, in the order of the log.
    pub fn changed_storage(&self, range: &RangeInclusive<BlockNumber>) -> (entries: Vec<
        (Address, B256),
    >)
        ensures
            entries@ == self.storage_change_sets@.filter_map(storage_in_range(*range)),
    {
        let mut entries: Vec<(Address, B256)> = Vec::new();
        let mut i: usize = 0;
        let ghost f = storage_in_range(*range);
        while i < self.storage_change_sets.len()
            invariant
                i <= self.storage_change_sets@.len(),
                f == storage_in_range(*range),
                entries@ == self.storage_change_sets@.take(i as int).filter_map(f),
            decreases self.storage_change_sets@.len() - i,
        {
            let change = &self.storage_change_sets[i];
            proof {
                let next = self.storage_change_sets@.take(i + 1);
                assert(next.drop_last() =~= self.storage_change_sets@.take(i as int));
                assert(next.last() == *change);
            }
            if block_in_range(range, change.block_number) {
                entries.push((change.address, change.key));
            }
            i += 1;
        }
        assert(self.storage_change_sets@.take(i as int) =~= self.storage_change_sets@);
        entries
    }
}

} // verus!

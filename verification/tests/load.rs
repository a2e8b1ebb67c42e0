use prefix_set_loader::change_log::{AccountChange, ChangeStore, StorageChange};
use prefix_set_loader::hasher::{KeccakKeyHasher, KeyHasher};
use prefix_set_loader::loader::PrefixSetLoader;
use prefix_set_loader::nibbles::Nibbles;
use prefix_set_loader::prefix_set::PrefixSet;
use prefix_set_loader::primitives::{Address, B256};

const A: Address = [0xaa; 20];
const B: Address = [0xbb; 20];
const C: Address = [0xcc; 20];
const K1: B256 = [0x01; 32];
const K2: B256 = [0x02; 32];

fn hash(bytes: &[u8]) -> B256 {
    alloy_primitives::keccak256(bytes).0
}

fn nibbles(digest: &B256) -> Vec<u8> {
    let mut out = Vec::new();
    for b in digest {
        out.push(b >> 4);
        out.push(b & 0x0f);
    }
    out
}

fn paths(set: &PrefixSet) -> Vec<Vec<u8>> {
    let mut out = Vec::new();
    for i in 0..set.len() {
        out.push(set.get(i).as_slice().to_vec());
    }
    out
}

fn sorted(mut v: Vec<Vec<u8>>) -> Vec<Vec<u8>> {
    v.sort();
    v.dedup();
    v
}

fn account(block_number: u64, address: Address) -> AccountChange {
    AccountChange { block_number, address }
}

fn storage(block_number: u64, address: Address, key: B256) -> StorageChange {
    StorageChange { block_number, address, key }
}

#[test]
fn accounts_touched_in_three_blocks() {
    let mut store = ChangeStore::new();
    store.account_change_sets.push(account(1, A));
    store.account_change_sets.push(account(2, A));
    store.account_change_sets.push(account(3, B));
    store.hashed_accounts.insert(hash(&A));

    let sets = PrefixSetLoader::<KeccakKeyHasher>::new(&store).load(1..=3);

    assert_eq!(
        paths(&sets.account_prefix_set),
        sorted(vec![nibbles(&hash(&A)), nibbles(&hash(&B))])
    );
    assert_eq!(sets.account_prefix_set.len(), 2);
    assert!(sets.storage_prefix_sets.is_empty());
    assert_eq!(sets.storage_prefix_sets.len(), 0);
    assert_eq!(sets.destroyed_accounts.len(), 1);
    assert_eq!(*sets.destroyed_accounts.get(0), hash(&B));
    assert!(sets.destroyed_accounts.contains(&hash(&B)));
    assert!(!sets.destroyed_accounts.contains(&hash(&A)));
}

#[test]
fn single_storage_change() {
    let mut store = ChangeStore::new();
    store.storage_change_sets.push(storage(5, C, K1));

    let sets = PrefixSetLoader::<KeccakKeyHasher>::new(&store).load(5..=5);

    assert_eq!(paths(&sets.account_prefix_set), vec![nibbles(&hash(&C))]);
    assert_eq!(sets.storage_prefix_sets.len(), 1);
    assert_eq!(*sets.storage_prefix_sets.key_at(0), hash(&C));
    let slots = sets.storage_prefix_sets.get(&hash(&C)).unwrap();
    assert_eq!(paths(slots), vec![nibbles(&hash(&K1))]);
    // no account change was read, so no account was looked up
    assert!(sets.destroyed_accounts.is_empty());
}

#[test]
fn single_storage_change_with_known_account() {
    let mut store = ChangeStore::new();
    store.storage_change_sets.push(storage(5, C, K1));
    store.hashed_accounts.insert(hash(&C));

    let sets = PrefixSetLoader::<KeccakKeyHasher>::new(&store).load(5..=5);

    assert_eq!(paths(&sets.account_prefix_set), vec![nibbles(&hash(&C))]);
    assert_eq!(sets.storage_prefix_sets.len(), 1);
    assert!(sets.destroyed_accounts.is_empty());
}

#[test]
fn empty_range_gives_empty_sets() {
    let mut store = ChangeStore::new();
    store.account_change_sets.push(account(1, A));
    store.storage_change_sets.push(storage(2, B, K1));

    let sets = PrefixSetLoader::<KeccakKeyHasher>::new(&store).load(10..=20);

    assert!(sets.account_prefix_set.is_empty());
    assert!(sets.storage_prefix_sets.is_empty());
    assert!(sets.destroyed_accounts.is_empty());
}

#[test]
fn empty_store_gives_empty_sets() {
    let store = ChangeStore::new();
    let sets = PrefixSetLoader::<KeccakKeyHasher>::new(&store).load(0..=u64::MAX);
    assert_eq!(sets.account_prefix_set.len(), 0);
    assert_eq!(sets.storage_prefix_sets.len(), 0);
    assert_eq!(sets.destroyed_accounts.len(), 0);
}

#[test]
fn inverted_range_reads_nothing() {
    let mut store = ChangeStore::new();
    store.account_change_sets.push(account(3, A));
    let sets = PrefixSetLoader::<KeccakKeyHasher>::new(&store).load(5..=2);
    assert!(sets.account_prefix_set.is_empty());
    assert!(sets.destroyed_accounts.is_empty());
}

#[test]
fn range_bounds_are_inclusive() {
    let mut store = ChangeStore::new();
    store.account_change_sets.push(account(0, A));
    store.account_change_sets.push(account(1, B));
    store.account_change_sets.push(account(3, C));
    store.account_change_sets.push(account(4, [0xdd; 20]));
    store.hashed_accounts.insert(hash(&B));
    store.hashed_accounts.insert(hash(&C));

    let sets = PrefixSetLoader::<KeccakKeyHasher>::new(&store).load(1..=3);

    assert_eq!(
        paths(&sets.account_prefix_set),
        sorted(vec![nibbles(&hash(&B)), nibbles(&hash(&C))])
    );
    assert!(sets.destroyed_accounts.is_empty());
}

#[test]
fn last_block_of_all_is_in_range() {
    let mut store = ChangeStore::new();
    store.account_change_sets.push(account(u64::MAX, A));
    store.storage_change_sets.push(storage(u64::MAX, B, K1));
    let sets = PrefixSetLoader::<KeccakKeyHasher>::new(&store).load(u64::MAX..=u64::MAX);
    assert_eq!(sets.account_prefix_set.len(), 2);
    assert_eq!(sets.storage_prefix_sets.len(), 1);
}

#[test]
fn repeated_account_is_held_once() {
    let mut store = ChangeStore::new();
    for block in 1..=50u64 {
        store.account_change_sets.push(account(block, A));
    }
    store.hashed_accounts.insert(hash(&A));
    let sets = PrefixSetLoader::<KeccakKeyHasher>::new(&store).load(1..=50);
    assert_eq!(paths(&sets.account_prefix_set), vec![nibbles(&hash(&A))]);
    assert!(sets.destroyed_accounts.is_empty());
}

#[test]
fn destroyed_account_is_the_one_missing_from_the_snapshot() {
    let mut store = ChangeStore::new();
    store.account_change_sets.push(account(7, B));
    store.account_change_sets.push(account(7, A));
    store.account_change_sets.push(account(8, B));
    store.hashed_accounts.insert(hash(&A));
    let sets = PrefixSetLoader::<KeccakKeyHasher>::new(&store).load(7..=8);
    assert_eq!(sets.destroyed_accounts.len(), 1);
    assert_eq!(*sets.destroyed_accounts.get(0), hash(&B));
}

#[test]
fn storage_change_implies_account_path() {
    let mut store = ChangeStore::new();
    store.account_change_sets.push(account(1, A));
    store.storage_change_sets.push(storage(1, B, K1));
    store.storage_change_sets.push(storage(2, B, K2));
    store.storage_change_sets.push(storage(2, C, K1));
    store.storage_change_sets.push(storage(2, B, K1));
    store.hashed_accounts.insert(hash(&A));

    let sets = PrefixSetLoader::<KeccakKeyHasher>::new(&store).load(1..=2);

    assert_eq!(
        paths(&sets.account_prefix_set),
        sorted(vec![nibbles(&hash(&A)), nibbles(&hash(&B)), nibbles(&hash(&C))])
    );
    assert_eq!(sets.storage_prefix_sets.len(), 2);
    for i in 0..sets.storage_prefix_sets.len() {
        let key = sets.storage_prefix_sets.key_at(i);
        let path = Nibbles::unpack(key);
        assert!(sets.account_prefix_set.contains_path(&path));
    }
    let of_b = sets.storage_prefix_sets.get(&hash(&B)).unwrap();
    assert_eq!(paths(of_b), sorted(vec![nibbles(&hash(&K1)), nibbles(&hash(&K2))]));
    let of_c = sets.storage_prefix_sets.get(&hash(&C)).unwrap();
    assert_eq!(paths(of_c), vec![nibbles(&hash(&K1))]);
    assert!(sets.storage_prefix_sets.get(&hash(&A)).is_none());
    // storage changes alone trigger no lookup
    assert!(sets.destroyed_accounts.is_empty());
}

#[test]
fn order_of_records_does_not_show() {
    let records = vec![
        (1u64, A, K1),
        (2, B, K2),
        (3, C, K1),
        (3, A, K2),
        (4, B, K1),
    ];
    let mut forward = ChangeStore::new();
    let mut backward = ChangeStore::new();
    for (block, address, key) in records.iter() {
        forward.account_change_sets.push(account(*block, *address));
        forward.storage_change_sets.push(storage(*block, *address, *key));
    }
    for (block, address, key) in records.iter().rev() {
        backward.account_change_sets.push(account(*block, *address));
        backward.storage_change_sets.push(storage(*block, *address, *key));
    }
    forward.hashed_accounts.insert(hash(&B));
    backward.hashed_accounts.insert(hash(&B));

    let x = PrefixSetLoader::<KeccakKeyHasher>::new(&forward).load(1..=4);
    let y = PrefixSetLoader::<KeccakKeyHasher>::new(&backward).load(1..=4);

    assert_eq!(paths(&x.account_prefix_set), paths(&y.account_prefix_set));
    assert_eq!(x.storage_prefix_sets.len(), y.storage_prefix_sets.len());
    for i in 0..x.storage_prefix_sets.len() {
        assert_eq!(x.storage_prefix_sets.key_at(i), y.storage_prefix_sets.key_at(i));
        assert_eq!(
            paths(x.storage_prefix_sets.value(i)),
            paths(y.storage_prefix_sets.value(i))
        );
    }
    assert_eq!(x.destroyed_accounts.len(), 2);
    assert_eq!(y.destroyed_accounts.len(), 2);
    for i in 0..2 {
        assert_eq!(x.destroyed_accounts.get(i), y.destroyed_accounts.get(i));
    }
}

#[test]
fn loading_twice_gives_the_same_sets() {
    let mut store = ChangeStore::new();
    for i in 0..200u64 {
        let mut address = [0u8; 20];
        address[0] = (i % 37) as u8;
        address[19] = (i % 5) as u8;
        let mut key = [0u8; 32];
        key[31] = (i % 11) as u8;
        store.account_change_sets.push(account(i, address));
        store.storage_change_sets.push(storage(i, address, key));
    }
    let first = PrefixSetLoader::<KeccakKeyHasher>::new(&store).load(0..=199);
    let second = PrefixSetLoader::<KeccakKeyHasher>::new(&store).load(0..=199);
    assert_eq!(paths(&first.account_prefix_set), paths(&second.account_prefix_set));
    assert_eq!(first.destroyed_accounts.len(), second.destroyed_accounts.len());
    assert_eq!(first.storage_prefix_sets.len(), second.storage_prefix_sets.len());
    let all = paths(&first.account_prefix_set);
    assert_eq!(sorted(all.clone()), all);
}

#[test]
fn keccak_hasher_hashes_the_empty_input() {
    let expected: B256 = [
        0xc5, 0xd2, 0x46, 0x01, 0x86, 0xf7, 0x23, 0x3c, 0x92, 0x7e, 0x7d, 0xb2, 0xdc, 0xc7, 0x03,
        0xc0, 0xe5, 0x00, 0xb6, 0x53, 0xca, 0x82, 0x27, 0x3b, 0x7b, 0xfa, 0xd8, 0x04, 0x5d, 0x85,
        0xa4, 0x70,
    ];
    assert_eq!(KeccakKeyHasher::hash_key(&[]), expected);
}

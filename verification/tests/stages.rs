use prefix_set_loader::change_log::{block_in_range, AccountChange, ChangeStore, StorageChange};
use prefix_set_loader::digest_stage::{
    hash_address, hash_addresses, hash_storage_entries, hash_storage_entry,
};
use prefix_set_loader::hasher::{KeccakKeyHasher, KeyHasher};
use prefix_set_loader::loader::PrefixSetLoader;
use prefix_set_loader::prefix_set::PrefixSet;
use prefix_set_loader::primitives::{Address, B256};
use prefix_set_loader::trie_prefix_sets::build_prefix_sets;

fn keccak(bytes: &[u8]) -> B256 {
    alloy_primitives::keccak256(bytes).0
}

fn unpacked(digest: &B256) -> Vec<u8> {
    digest.iter().flat_map(|b| [b / 16, b % 16]).collect()
}

fn all_paths(set: &PrefixSet) -> Vec<Vec<u8>> {
    (0..set.len()).map(|i| set.get(i).as_slice().to_vec()).collect()
}

fn ascending(mut v: Vec<Vec<u8>>) -> Vec<Vec<u8>> {
    v.sort();
    v.dedup();
    v
}

fn address(n: u32) -> Address {
    let mut a = [0u8; 20];
    a[16..].copy_from_slice(&n.to_be_bytes());
    a
}

fn slot(n: u32) -> B256 {
    let mut k = [0u8; 32];
    k[28..].copy_from_slice(&n.to_be_bytes());
    k
}

#[test]
fn keccak_hasher_agrees_with_known_digest() {
    // Keccak-256 of the three bytes "abc"
    let expected: B256 = [
        0x4e, 0x03, 0x65, 0x7a, 0xea, 0x45, 0xa9, 0x4f, 0xc7, 0xd4, 0x7b, 0xa8, 0x26, 0xc8, 0xd6,
        0x67, 0xc0, 0xd1, 0xe6, 0xe3, 0x3a, 0x64, 0xa0, 0x36, 0xec, 0x44, 0xf5, 0x8f, 0xa1, 0x2d,
        0x6c, 0x45,
    ];
    assert_eq!(KeccakKeyHasher::hash_key(b"abc"), expected);
    let padded = [0x61u8; 32];
    assert_ne!(KeccakKeyHasher::hash_key(&padded), padded);
}

#[test]
fn hash_address_hashes_the_twenty_bytes() {
    let a = address(7);
    assert_eq!(hash_address::<KeccakKeyHasher>(&a), keccak(&a));
    let e = (address(7), slot(9));
    assert_eq!(hash_storage_entry::<KeccakKeyHasher>(&e), (keccak(&e.0), keccak(&e.1)));
}

#[test]
fn digest_stage_keeps_the_order_of_the_addresses() {
    let addresses: Vec<Address> = (0..1000u32).map(|n| address(n % 300)).collect();
    let hashed = hash_addresses::<KeccakKeyHasher>(&addresses);
    assert_eq!(hashed.len(), addresses.len());
    for (a, h) in addresses.iter().zip(hashed.iter()) {
        assert_eq!(*h, keccak(a));
    }
    assert_eq!(hash_addresses::<KeccakKeyHasher>(&Vec::new()), Vec::<B256>::new());
}

#[test]
fn digest_stage_keeps_the_order_of_the_entries() {
    let entries: Vec<(Address, B256)> =
        (0..1000u32).map(|n| (address(n % 17), slot(n % 29))).collect();
    let hashed = hash_storage_entries::<KeccakKeyHasher>(&entries);
    assert_eq!(hashed.len(), entries.len());
    for (e, h) in entries.iter().zip(hashed.iter()) {
        assert_eq!(h.0, keccak(&e.0));
        assert_eq!(h.1, keccak(&e.1));
    }
}

#[test]
fn digest_stage_gives_the_same_on_one_thread_and_on_many() {
    let addresses: Vec<Address> = (0..500u32).map(address).collect();
    let single = rayon::ThreadPoolBuilder::new().num_threads(1).build().unwrap();
    let many = rayon::ThreadPoolBuilder::new().num_threads(4).build().unwrap();
    let one = single.install(|| hash_addresses::<KeccakKeyHasher>(&addresses));
    let four = many.install(|| hash_addresses::<KeccakKeyHasher>(&addresses));
    assert_eq!(one, four);
}

#[test]
fn load_gives_the_same_on_one_thread_and_on_many() {
    let mut store = ChangeStore::new();
    for n in 0..400u32 {
        store.account_change_sets.push(AccountChange {
            block_number: (n % 10) as u64,
            address: address(n % 90),
        });
        store.storage_change_sets.push(StorageChange {
            block_number: (n % 10) as u64,
            address: address(n % 40),
            key: slot(n % 7),
        });
        if n % 3 == 0 {
            store.hashed_accounts.insert(keccak(&address(n % 90)));
        }
    }
    let single = rayon::ThreadPoolBuilder::new().num_threads(1).build().unwrap();
    let many = rayon::ThreadPoolBuilder::new().num_threads(4).build().unwrap();
    let x = single.install(|| PrefixSetLoader::<KeccakKeyHasher>::new(&store).load(2..=8));
    let y = many.install(|| PrefixSetLoader::<KeccakKeyHasher>::new(&store).load(2..=8));

    assert_eq!(all_paths(&x.account_prefix_set), all_paths(&y.account_prefix_set));
    // the blocks 2 to 8 hold the addresses that end in 2 to 8
    assert_eq!(x.account_prefix_set.len(), 63);
    assert_eq!(x.storage_prefix_sets.len(), 28);
    assert_eq!(y.storage_prefix_sets.len(), 28);
    for i in 0..28 {
        assert_eq!(x.storage_prefix_sets.key_at(i), y.storage_prefix_sets.key_at(i));
        assert_eq!(
            all_paths(x.storage_prefix_sets.value(i)),
            all_paths(y.storage_prefix_sets.value(i))
        );
    }
    // of those 63, the 21 multiples of three are current accounts
    assert_eq!(x.destroyed_accounts.len(), 42);
    assert_eq!(y.destroyed_accounts.len(), 42);
    for i in 0..42 {
        assert_eq!(x.destroyed_accounts.get(i), y.destroyed_accounts.get(i));
    }
}

#[test]
fn build_takes_flags_as_they_come() {
    let a = keccak(&address(1));
    let b = keccak(&address(2));
    let c = keccak(&address(3));
    let k = keccak(&slot(1));
    let sets = build_prefix_sets(
        &vec![a, b, a, b],
        &vec![true, false, true, true],
        &vec![(c, k), (a, k)],
    );
    assert_eq!(
        all_paths(&sets.account_prefix_set),
        ascending(vec![unpacked(&a), unpacked(&b), unpacked(&c)])
    );
    // one lookup of b missed, so b counts as destroyed
    assert_eq!(sets.destroyed_accounts.len(), 1);
    assert!(sets.destroyed_accounts.contains(&b));
    assert_eq!(sets.storage_prefix_sets.len(), 2);
    assert_eq!(all_paths(sets.storage_prefix_sets.get(&c).unwrap()), vec![unpacked(&k)]);
    assert_eq!(all_paths(sets.storage_prefix_sets.get(&a).unwrap()), vec![unpacked(&k)]);
    assert!(sets.storage_prefix_sets.get(&b).is_none());
}

#[test]
fn build_of_nothing_is_empty() {
    let sets = build_prefix_sets(&Vec::new(), &Vec::new(), &Vec::new());
    assert!(sets.account_prefix_set.is_empty());
    assert!(sets.storage_prefix_sets.is_empty());
    assert!(sets.destroyed_accounts.is_empty());
}

#[test]
fn reader_keeps_order_and_repeats() {
    let mut store = ChangeStore::new();
    for (block, n) in [(1u64, 5u32), (2, 3), (2, 5), (3, 5), (4, 1), (2, 9)] {
        store.account_change_sets.push(AccountChange { block_number: block, address: address(n) });
        store.storage_change_sets.push(StorageChange {
            block_number: block,
            address: address(n),
            key: slot(n + 100),
        });
    }
    assert_eq!(store.changed_accounts(&(2..=3)), vec![address(3), address(5), address(5), address(9)]);
    assert_eq!(
        store.changed_storage(&(2..=3)),
        vec![
            (address(3), slot(103)),
            (address(5), slot(105)),
            (address(5), slot(105)),
            (address(9), slot(109))
        ]
    );
    assert_eq!(store.changed_accounts(&(5..=9)), Vec::<Address>::new());
    assert_eq!(store.changed_accounts(&(0..=u64::MAX)).len(), 6);
}

#[test]
fn reader_looks_accounts_up_one_by_one() {
    let mut store = ChangeStore::new();
    store.hashed_accounts.insert(keccak(&address(1)));
    store.hashed_accounts.insert(keccak(&address(2)));
    let asked = vec![keccak(&address(2)), keccak(&address(3)), keccak(&address(1)), keccak(&address(3))];
    assert_eq!(store.find_accounts(&asked), vec![true, false, true, false]);
    assert_eq!(store.find_accounts(&Vec::new()), Vec::<bool>::new());
}

#[test]
fn block_in_range_counts_both_ends() {
    assert!(block_in_range(&(3..=5), 3));
    assert!(block_in_range(&(3..=5), 4));
    assert!(block_in_range(&(3..=5), 5));
    assert!(!block_in_range(&(3..=5), 2));
    assert!(!block_in_range(&(3..=5), 6));
    assert!(!block_in_range(&(5..=3), 4));
    assert!(block_in_range(&(0..=u64::MAX), u64::MAX));
}

#[test]
fn a_range_that_was_run_through_holds_no_block() {
    let mut range = 3..=5u64;
    for _ in range.by_ref() {}
    assert!(!block_in_range(&range, 3));
    assert!(!block_in_range(&range, 5));
    let mut store = ChangeStore::new();
    store.account_change_sets.push(AccountChange { block_number: 5, address: address(1) });
    let sets = PrefixSetLoader::<KeccakKeyHasher>::new(&store).load(range);
    assert!(sets.account_prefix_set.is_empty());
}

#[test]
fn loader_hands_out_its_store() {
    let mut store = ChangeStore::new();
    store.account_change_sets.push(AccountChange { block_number: 1, address: address(1) });
    let loader = PrefixSetLoader::<KeccakKeyHasher>::new(&store);
    assert_eq!(loader.account_change_sets.len(), 1);
    assert!(loader.hashed_accounts.is_empty());
}

use prefix_set_loader::bytes::{compare_bytes, starts_with, ByteOrder};
use prefix_set_loader::digest_map::B256Map;
use prefix_set_loader::digest_set::B256Set;
use prefix_set_loader::nibbles::Nibbles;
use prefix_set_loader::prefix_set::{PrefixSet, PrefixSetMut};
use prefix_set_loader::primitives::B256;
use prefix_set_loader::sorted::{insert_unique, merge_unique, search, sort_unique};

fn path(nibbles: &[u8]) -> Nibbles {
    Nibbles::from_nibbles(nibbles.to_vec()).unwrap()
}

fn paths(set: &PrefixSet) -> Vec<Vec<u8>> {
    (0..set.len()).map(|i| set.get(i).as_slice().to_vec()).collect()
}

fn digest(first: u8, last: u8) -> B256 {
    let mut d = [0u8; 32];
    d[0] = first;
    d[31] = last;
    d
}

#[test]
fn compare_bytes_orders_lexicographically() {
    assert!(matches!(compare_bytes(&[1, 2, 3], &[1, 2, 4]), ByteOrder::Before));
    assert!(matches!(compare_bytes(&[1, 2, 4], &[1, 2, 3]), ByteOrder::After));
    assert!(matches!(compare_bytes(&[1, 2, 3], &[1, 2, 3]), ByteOrder::Same));
    assert!(matches!(compare_bytes(&[2], &[1, 9, 9]), ByteOrder::After));
    assert!(matches!(compare_bytes(&[0, 255], &[1, 0]), ByteOrder::Before));
}

#[test]
fn compare_bytes_puts_a_prefix_first() {
    assert!(matches!(compare_bytes(&[1, 2], &[1, 2, 0]), ByteOrder::Before));
    assert!(matches!(compare_bytes(&[1, 2, 0], &[1, 2]), ByteOrder::After));
    assert!(matches!(compare_bytes(&[], &[0]), ByteOrder::Before));
    assert!(matches!(compare_bytes(&[], &[]), ByteOrder::Same));
}

#[test]
fn starts_with_tells_prefixes() {
    assert!(starts_with(&[1, 2, 3], &[1, 2]));
    assert!(starts_with(&[1, 2, 3], &[1, 2, 3]));
    assert!(starts_with(&[1, 2, 3], &[]));
    assert!(!starts_with(&[1, 2, 3], &[1, 3]));
    assert!(!starts_with(&[1, 2], &[1, 2, 3]));
}

#[test]
fn search_finds_place_or_insertion_point() {
    let v: Vec<B256> = vec![digest(1, 0), digest(3, 0), digest(3, 7), digest(9, 0)];
    assert_eq!(search(&v, &digest(1, 0)), Ok(0));
    assert_eq!(search(&v, &digest(3, 7)), Ok(2));
    assert_eq!(search(&v, &digest(9, 0)), Ok(3));
    assert_eq!(search(&v, &digest(0, 0)), Err(0));
    assert_eq!(search(&v, &digest(2, 0)), Err(1));
    assert_eq!(search(&v, &digest(3, 1)), Err(2));
    assert_eq!(search(&v, &digest(10, 0)), Err(4));
    let empty: Vec<B256> = Vec::new();
    assert_eq!(search(&empty, &digest(1, 0)), Err(0));
}

#[test]
fn insert_unique_keeps_order_and_drops_repeats() {
    let mut v: Vec<B256> = Vec::new();
    assert!(insert_unique(&mut v, digest(5, 0)));
    assert!(insert_unique(&mut v, digest(1, 0)));
    assert!(insert_unique(&mut v, digest(9, 0)));
    assert!(!insert_unique(&mut v, digest(5, 0)));
    assert!(insert_unique(&mut v, digest(5, 1)));
    assert_eq!(v, vec![digest(1, 0), digest(5, 0), digest(5, 1), digest(9, 0)]);
}

#[test]
fn unpack_splits_each_byte_in_two() {
    assert_eq!(Nibbles::unpack(&[0xAB, 0xCD]).as_slice(), &[0x0A, 0x0B, 0x0C, 0x0D]);
    assert_eq!(Nibbles::unpack(&[0x00, 0xF0, 0x0F]).as_slice(), &[0, 0, 15, 0, 0, 15]);
    assert_eq!(Nibbles::unpack(&[]).len(), 0);
    let full = Nibbles::unpack(&[0x12; 32]);
    assert_eq!(full.len(), 64);
    assert_eq!(full.as_slice()[62..], [1, 2]);
}

#[test]
fn from_nibbles_refuses_what_is_no_nibble() {
    assert_eq!(Nibbles::from_nibbles(vec![1, 2, 15]).unwrap().as_slice(), &[1, 2, 15]);
    assert!(Nibbles::from_nibbles(vec![1, 16]).is_none());
    assert!(Nibbles::from_nibbles(vec![255]).is_none());
    assert_eq!(Nibbles::from_nibbles(vec![]).unwrap().len(), 0);
    assert_eq!(Nibbles::from_nibbles(vec![0xA, 0xB]).unwrap(), Nibbles::unpack(&[0xAB]));
}

#[test]
fn prefix_set_mut_counts_insertions() {
    let mut set = PrefixSetMut::new();
    assert!(set.is_empty());
    set.insert(path(&[1, 2]));
    set.insert(path(&[1, 2]));
    assert_eq!(set.len(), 2);
    assert!(!set.is_empty());
}

#[test]
fn freeze_sorts_and_drops_repeats() {
    let mut set = PrefixSetMut::new();
    for p in [&[3u8, 1][..], &[1, 2, 3], &[3, 1], &[1, 2], &[0xF], &[1, 2, 3], &[]] {
        set.insert(path(p));
    }
    let frozen = set.freeze();
    assert_eq!(
        paths(&frozen),
        vec![vec![], vec![1, 2], vec![1, 2, 3], vec![3, 1], vec![0xF]]
    );
    assert_eq!(frozen.len(), 5);
    assert!(!frozen.is_empty());
}

#[test]
fn freeze_of_nothing_is_empty() {
    let frozen = PrefixSetMut::new().freeze();
    assert!(frozen.is_empty());
    assert_eq!(frozen.len(), 0);
    assert!(!frozen.contains(&path(&[])));
    assert!(!frozen.contains_path(&path(&[])));
}

#[test]
fn frozen_set_answers_prefix_queries() {
    let mut set = PrefixSetMut::new();
    set.insert(path(&[1, 2, 3, 4]));
    set.insert(path(&[1, 5, 0]));
    set.insert(path(&[7, 7]));
    let frozen = set.freeze();
    assert!(frozen.contains(&path(&[])));
    assert!(frozen.contains(&path(&[1])));
    assert!(frozen.contains(&path(&[1, 2])));
    assert!(frozen.contains(&path(&[1, 2, 3, 4])));
    assert!(frozen.contains(&path(&[1, 5])));
    assert!(frozen.contains(&path(&[7])));
    assert!(frozen.contains(&path(&[7, 7])));
    assert!(!frozen.contains(&path(&[1, 2, 3, 4, 0])));
    assert!(!frozen.contains(&path(&[1, 3])));
    assert!(!frozen.contains(&path(&[1, 4])));
    assert!(!frozen.contains(&path(&[0])));
    assert!(!frozen.contains(&path(&[2])));
    assert!(!frozen.contains(&path(&[7, 7, 7])));
    assert!(!frozen.contains(&path(&[8])));
}

#[test]
fn frozen_set_answers_membership() {
    let mut set = PrefixSetMut::new();
    set.insert(path(&[1, 2, 3]));
    set.insert(path(&[4]));
    let frozen = set.freeze();
    assert!(frozen.contains_path(&path(&[1, 2, 3])));
    assert!(frozen.contains_path(&path(&[4])));
    assert!(!frozen.contains_path(&path(&[1, 2])));
    assert!(!frozen.contains_path(&path(&[1, 2, 3, 0])));
}

#[test]
fn digest_set_holds_each_digest_once() {
    let mut set = B256Set::new();
    assert!(set.is_empty());
    assert!(set.insert(digest(2, 0)));
    assert!(set.insert(digest(1, 0)));
    assert!(!set.insert(digest(2, 0)));
    assert_eq!(set.len(), 2);
    assert_eq!(*set.get(0), digest(1, 0));
    assert_eq!(*set.get(1), digest(2, 0));
    assert!(set.contains(&digest(1, 0)));
    assert!(!set.contains(&digest(1, 1)));
}

#[test]
fn digest_map_gathers_paths_by_account() {
    let mut map: B256Map<PrefixSetMut> = B256Map::new();
    assert!(map.is_empty());
    map.insert_path(digest(9, 0), path(&[1]));
    map.insert_path(digest(2, 0), path(&[5]));
    map.insert_path(digest(9, 0), path(&[0]));
    map.insert_path(digest(9, 0), path(&[1]));
    assert_eq!(map.len(), 2);
    assert_eq!(map.get(&digest(9, 0)).unwrap().len(), 3);

    let frozen = map.freeze();
    assert_eq!(frozen.len(), 2);
    assert_eq!(*frozen.key_at(0), digest(2, 0));
    assert_eq!(*frozen.key_at(1), digest(9, 0));
    assert_eq!(paths(frozen.value(0)), vec![vec![5]]);
    assert_eq!(paths(frozen.value(1)), vec![vec![0], vec![1]]);
    assert_eq!(paths(frozen.get(&digest(9, 0)).unwrap()), vec![vec![0], vec![1]]);
    assert!(frozen.get(&digest(3, 0)).is_none());
}

#[test]
fn merge_unique_joins_two_sorted_lists() {
    let a: Vec<B256> = vec![digest(1, 0), digest(4, 0), digest(6, 0)];
    let b: Vec<B256> = vec![digest(0, 9), digest(4, 0), digest(5, 0), digest(7, 0)];
    assert_eq!(
        merge_unique(a.clone(), b.clone()),
        vec![digest(0, 9), digest(1, 0), digest(4, 0), digest(5, 0), digest(6, 0), digest(7, 0)]
    );
    assert_eq!(merge_unique(a.clone(), Vec::new()), a);
    assert_eq!(merge_unique(Vec::new(), b.clone()), b);
    assert_eq!(merge_unique(Vec::<B256>::new(), Vec::new()), Vec::<B256>::new());
}

#[test]
fn sort_unique_sorts_and_drops_repeats() {
    let v: Vec<B256> = vec![
        digest(5, 0),
        digest(1, 0),
        digest(5, 0),
        digest(3, 2),
        digest(3, 1),
        digest(1, 0),
        digest(0, 0),
    ];
    assert_eq!(
        sort_unique(v),
        vec![digest(0, 0), digest(1, 0), digest(3, 1), digest(3, 2), digest(5, 0)]
    );
    assert_eq!(sort_unique(vec![digest(2, 2)]), vec![digest(2, 2)]);
    assert_eq!(sort_unique(Vec::<B256>::new()), Vec::<B256>::new());
}

#[test]
fn sort_unique_agrees_with_the_standard_sort() {
    let mut v: Vec<B256> = Vec::new();
    let mut x: u32 = 12345;
    for _ in 0..2000 {
        x = x.wrapping_mul(1664525).wrapping_add(1013904223);
        v.push(digest((x >> 24) as u8, (x >> 13) as u8 % 7));
    }
    let mut expected = v.clone();
    expected.sort();
    expected.dedup();
    assert_eq!(sort_unique(v), expected);
}

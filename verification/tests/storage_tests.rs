use kademlia::id::NodeId;
use kademlia::kademlia::{value_ttl, TTL_MS};
use kademlia::storage::{ExternalStorage, InternalStorage};
use kademlia::values::{add_value, add_values, bytes_equal, contains_value, copy_bytes, copy_values};

fn st_key(last: u8) -> NodeId {
    let mut bytes = [0u8; 20];
    bytes[19] = last;
    NodeId::new(bytes)
}

#[test]
fn internal_put_then_get() {
    let mut s = InternalStorage::new();
    assert!(s.get(&st_key(1)).is_empty());
    s.put(st_key(1), b"hello".to_vec());
    s.put(st_key(1), b"world".to_vec());
    s.put(st_key(2), b"other".to_vec());
    assert_eq!(s.get(&st_key(1)), vec![b"hello".to_vec(), b"world".to_vec()]);
    assert_eq!(s.get(&st_key(2)), vec![b"other".to_vec()]);
    assert!(s.get(&st_key(3)).is_empty());
}

#[test]
fn internal_duplicates_are_coalesced() {
    let mut s = InternalStorage::new();
    s.put(st_key(1), b"a".to_vec());
    s.put(st_key(1), b"a".to_vec());
    s.put(st_key(1), b"b".to_vec());
    s.put(st_key(1), b"a".to_vec());
    assert_eq!(s.get(&st_key(1)), vec![b"a".to_vec(), b"b".to_vec()]);
}

#[test]
fn internal_contains() {
    let mut s = InternalStorage::new();
    s.put(st_key(1), b"a".to_vec());
    assert!(s.contains(&st_key(1), &b"a".to_vec()));
    assert!(!s.contains(&st_key(1), &b"b".to_vec()));
    assert!(!s.contains(&st_key(2), &b"a".to_vec()));
}

#[test]
fn internal_remove_one_value() {
    let mut s = InternalStorage::new();
    s.put(st_key(1), b"a".to_vec());
    s.put(st_key(1), b"b".to_vec());
    s.put(st_key(2), b"a".to_vec());
    s.remove(&st_key(1), &b"a".to_vec());
    assert_eq!(s.get(&st_key(1)), vec![b"b".to_vec()]);
    assert_eq!(s.get(&st_key(2)), vec![b"a".to_vec()]);
    s.remove(&st_key(1), &b"zzz".to_vec());
    assert_eq!(s.get(&st_key(1)), vec![b"b".to_vec()]);
}

#[test]
fn internal_remove_key() {
    let mut s = InternalStorage::new();
    s.put(st_key(1), b"a".to_vec());
    s.put(st_key(2), b"x".to_vec());
    s.put(st_key(1), b"b".to_vec());
    s.remove_key(&st_key(1));
    assert!(s.get(&st_key(1)).is_empty());
    assert_eq!(s.get(&st_key(2)), vec![b"x".to_vec()]);
}

#[test]
fn ttl_is_fifteen_minutes() {
    assert_eq!(TTL_MS, 15 * 60 * 1000);
    assert_eq!(value_ttl(), 900_000);
}

#[test]
fn external_value_lives_for_ttl() {
    let mut s = ExternalStorage::new(900_000);
    assert_eq!(s.ttl(), 900_000);
    s.put(st_key(1), b"v".to_vec(), 1_000);
    assert_eq!(s.get(&st_key(1), 1_000), vec![b"v".to_vec()]);
    assert_eq!(s.get(&st_key(1), 901_000), vec![b"v".to_vec()]);
    assert!(s.get(&st_key(1), 901_001).is_empty());
    assert!(s.get(&st_key(2), 1_000).is_empty());
}

#[test]
fn external_store_again_resets_ttl() {
    let mut s = ExternalStorage::new(100);
    s.put(st_key(1), b"v".to_vec(), 0);
    s.put(st_key(1), b"w".to_vec(), 10);
    s.put(st_key(1), b"v".to_vec(), 50);
    assert_eq!(s.get(&st_key(1), 105), vec![b"v".to_vec(), b"w".to_vec()]);
    assert_eq!(s.get(&st_key(1), 111), vec![b"v".to_vec()]);
    assert_eq!(s.get(&st_key(1), 150), vec![b"v".to_vec()]);
    assert!(s.get(&st_key(1), 151).is_empty());
}

#[test]
fn external_expiry_saturates() {
    let mut s = ExternalStorage::new(100);
    s.put(st_key(1), b"v".to_vec(), u64::MAX - 5);
    assert_eq!(s.get(&st_key(1), u64::MAX), vec![b"v".to_vec()]);
}

#[test]
fn external_sweep_forgets_lapsed_entries_only() {
    let mut s = ExternalStorage::new(100);
    s.put(st_key(1), b"a".to_vec(), 0);
    s.put(st_key(1), b"b".to_vec(), 50);
    s.put(st_key(2), b"c".to_vec(), 10);
    s.sweep(120);
    assert_eq!(s.get(&st_key(1), 0), vec![b"b".to_vec()]);
    assert!(s.get(&st_key(2), 0).is_empty());
    s.sweep(150);
    assert_eq!(s.get(&st_key(1), 150), vec![b"b".to_vec()]);
    s.sweep(151);
    assert!(s.get(&st_key(1), 0).is_empty());
}

#[test]
fn value_list_helpers() {
    let a = b"abc".to_vec();
    assert_eq!(copy_bytes(&a), a);
    assert!(bytes_equal(&a, &b"abc".to_vec()));
    assert!(!bytes_equal(&a, &b"abd".to_vec()));
    assert!(!bytes_equal(&a, &b"ab".to_vec()));
    let list = vec![b"x".to_vec(), b"y".to_vec()];
    assert_eq!(copy_values(&list), list);
    assert!(contains_value(&list, &b"y".to_vec()));
    assert!(!contains_value(&list, &b"z".to_vec()));
}

#[test]
fn values_are_appended_once() {
    let mut list = vec![b"x".to_vec()];
    add_value(&mut list, b"x".to_vec());
    add_value(&mut list, b"y".to_vec());
    assert_eq!(list, vec![b"x".to_vec(), b"y".to_vec()]);
    add_values(&mut list, &vec![b"y".to_vec(), b"z".to_vec(), b"x".to_vec(), b"z".to_vec()]);
    assert_eq!(list, vec![b"x".to_vec(), b"y".to_vec(), b"z".to_vec()]);
}

use secko::map::{LockFreeMap, TrivialHasher, TrivialHasherBuilder};
use std::hash::{BuildHasher, Hasher};
use std::sync::Arc;

#[test]
fn new_map_is_empty() {
    let map = LockFreeMap::<String>::new();
    assert_eq!(map.keys(), Vec::<u64>::new());
    assert!(map.get(0).is_none());
}

#[test]
fn insert_returns_what_was_there() {
    let mut map = LockFreeMap::<String>::new();
    assert!(map.insert(7, Arc::new("a".to_string())).is_none());
    let previous = map.insert(7, Arc::new("b".to_string()));
    assert_eq!(previous.as_deref(), Some(&"a".to_string()));
    assert_eq!(map.get(7).as_deref(), Some(&"b".to_string()));
    assert_eq!(map.keys(), vec![7]);
}

#[test]
fn value_outlives_its_replacement() {
    let mut map = LockFreeMap::<String>::new();
    map.insert(1, Arc::new("old".to_string()));
    let held = map.get(1).unwrap();
    map.insert(1, Arc::new("new".to_string()));
    assert_eq!(*held, "old");
    assert_eq!(*map.get(1).unwrap(), "new");
}

#[test]
fn keys_lists_every_key_once() {
    let mut map = LockFreeMap::<String>::new();
    let inserted: Vec<u64> = vec![0, 1, 255, 256, 257, 65_536, u64::MAX, 1 << 63, 0x0101_0101_0101_0101];
    for key in &inserted {
        map.insert(*key, Arc::new(key.to_string()));
    }
    for key in &inserted {
        map.insert(*key, Arc::new(key.to_string()));
    }
    let mut keys = map.keys();
    keys.sort();
    let mut expected = inserted.clone();
    expected.sort();
    assert_eq!(keys, expected);
    for key in &inserted {
        assert_eq!(*map.get(*key).unwrap(), key.to_string());
    }
    assert!(map.get(2).is_none());
}

#[test]
fn many_keys_are_kept_apart() {
    let mut map = LockFreeMap::<Vec<u64>>::new();
    for key in 0..2000u64 {
        assert!(map.insert(key * 0x1_0000_0001, Arc::new(vec![key])).is_none());
    }
    assert_eq!(map.keys().len(), 2000);
    for key in 0..2000u64 {
        assert_eq!(*map.get(key * 0x1_0000_0001).unwrap(), vec![key]);
    }
}

#[test]
fn map_of_lists_replaces_a_list() {
    let mut map = LockFreeMap::<Vec<u64>>::new();
    assert!(map.get(3).is_none());
    assert!(map.insert(3, Arc::new(vec![1, 2])).is_none());
    let previous = map.insert(3, Arc::new(vec![1, 2, 3]));
    assert_eq!(previous.as_deref(), Some(&vec![1, 2]));
    assert_eq!(*map.get(3).unwrap(), vec![1, 2, 3]);
    assert_eq!(map.keys(), vec![3]);
}

#[test]
fn trivial_hasher_yields_the_last_eight_bytes() {
    let mut hasher = TrivialHasherBuilder.build_hasher();
    hasher.write(&0x0123_4567_89ab_cdefu64.to_ne_bytes());
    assert_eq!(hasher.finish(), 0x0123_4567_89ab_cdef);
    hasher.write(&77u64.to_ne_bytes());
    assert_eq!(hasher.finish(), 77);
    hasher.write_u64(12);
    assert_eq!(hasher.finish(), 12);
}

#[test]
fn trivial_hasher_is_the_identity_on_keys() {
    for key in [0u64, 1, 250, u64::MAX] {
        assert_eq!(TrivialHasherBuilder.hash_one(key), key);
    }
}

#[test]
fn trivial_hasher_fed_too_little_yields_zero() {
    let mut hasher = TrivialHasher::default();
    assert_eq!(hasher.finish(), 0);
    hasher.write(&[1, 2, 3]);
    assert_eq!(hasher.finish(), 0);
}

#[test]
fn trivial_hasher_reads_the_bytes_in_the_order_of_the_machine() {
    let mut hasher = TrivialHasherBuilder.build_hasher();
    hasher.write(&[9, 9, 9]);
    hasher.write(&[1, 2, 3, 4, 5, 6, 7, 8]);
    let digest = hasher.finish();
    assert!(digest == 0x0807_0605_0403_0201 || digest == 0x0102_0304_0506_0708);
    assert_eq!(digest, u64::from_ne_bytes([1, 2, 3, 4, 5, 6, 7, 8]));
}

#[test]
fn fresh_hasher_has_been_fed_nothing() {
    let fresh = TrivialHasherBuilder.build_hasher();
    assert_eq!(fresh.finish(), 0);
    let mut fed = TrivialHasherBuilder.build_hasher();
    fed.write(&[0, 0, 0, 0, 0, 0, 0]);
    assert_eq!(fed.finish(), 0);
    fed.write(&[5]);
    assert!(fed.finish() == 5 << 56 || fed.finish() == 5);
}

#[test]
fn insert_new_replaces_nothing() {
    let mut map = LockFreeMap::<String>::new();
    assert!(map.insert_new(3, Arc::new("first".to_string())));
    assert!(!map.insert_new(3, Arc::new("second".to_string())));
    assert_eq!(*map.get(3).unwrap(), "first");
    assert!(map.insert_new(4, Arc::new("other".to_string())));
    let mut keys = map.keys();
    keys.sort();
    assert_eq!(keys, vec![3, 4]);
}

#[test]
fn key_written_whole_is_its_own_digest() {
    for key in [0u64, 1, 42, 0x0102_0304_0506_0708, u64::MAX] {
        let mut hasher = TrivialHasherBuilder.build_hasher();
        hasher.write_u64(key);
        assert_eq!(hasher.finish(), key);
        assert_eq!(hasher.finish(), key);
        hasher.write(&[]);
        assert_eq!(hasher.finish(), key);
    }
}

#[test]
fn bytes_written_after_a_key_count_with_the_bytes_of_the_key() {
    let key: u64 = 0x1122_3344_5566_7788;
    let mut hasher = TrivialHasherBuilder.build_hasher();
    hasher.write_u64(key);
    hasher.write(&[0xaa, 0xbb, 0xcc]);
    let native = key.to_ne_bytes();
    let last = [native[3], native[4], native[5], native[6], native[7], 0xaa, 0xbb, 0xcc];
    assert_eq!(hasher.finish(), u64::from_ne_bytes(last));
    hasher.write(&42u64.to_ne_bytes());
    assert_eq!(hasher.finish(), 42);
}

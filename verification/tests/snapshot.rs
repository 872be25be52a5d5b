use secko::map::LockFreeMap;
use secko::snapshot::{encode_entries, entries_of, load, restore, snapshot, SnapshotError};
use std::sync::Arc;

fn store_of(entries: &[(u64, &str)]) -> LockFreeMap<String> {
    let mut store = LockFreeMap::<String>::new();
    for (key, value) in entries {
        store.insert(*key, Arc::new(value.to_string()));
    }
    store
}

fn contents(store: &LockFreeMap<String>) -> Vec<(u64, String)> {
    let mut entries = entries_of(store);
    entries.sort();
    entries
}

#[test]
fn entries_are_encoded_with_their_number_first() {
    let bytes = encode_entries(&vec![(1, "a".to_string()), (258, "hi".to_string())]).unwrap();
    let mut expected = Vec::new();
    expected.extend_from_slice(&2u64.to_le_bytes());
    expected.extend_from_slice(&1u64.to_le_bytes());
    expected.extend_from_slice(&1u64.to_le_bytes());
    expected.extend_from_slice(b"a");
    expected.extend_from_slice(&258u64.to_le_bytes());
    expected.extend_from_slice(&2u64.to_le_bytes());
    expected.extend_from_slice(b"hi");
    assert_eq!(bytes, expected);
    assert_eq!(encode_entries(&vec![]).unwrap(), 0u64.to_le_bytes().to_vec());
}

#[test]
fn snapshot_is_the_encoding_of_a_map() {
    let store = store_of(&[(3, "three"), (4, "four")]);
    let bytes = snapshot(&store).unwrap();
    let decoded: std::collections::HashMap<u64, String> = bincode::deserialize(&bytes).unwrap();
    assert_eq!(decoded.len(), 2);
    assert_eq!(decoded[&3], "three");
    assert_eq!(decoded[&4], "four");
}

#[test]
fn snapshot_gives_back_the_store() {
    let store = store_of(&[(1, "one"), (2, "two"), (u64::MAX, ""), (0, "zéro")]);
    let restored = restore(&snapshot(&store).unwrap()).unwrap();
    assert_eq!(contents(&restored), contents(&store));
    assert_eq!(contents(&restored).len(), 4);
    assert_eq!(*restored.get(0).unwrap(), "zéro");
}

#[test]
fn snapshot_of_an_empty_store_gives_back_an_empty_store() {
    let store = LockFreeMap::<String>::new();
    let restored = restore(&snapshot(&store).unwrap()).unwrap();
    assert!(restored.keys().is_empty());
}

#[test]
fn snapshot_of_a_map_is_restored() {
    let mut map = std::collections::HashMap::new();
    map.insert(9u64, "nine".to_string());
    map.insert(8u64, "eight".to_string());
    let restored = restore(&bincode::serialize(&map).unwrap()).unwrap();
    assert_eq!(contents(&restored), vec![(8, "eight".to_string()), (9, "nine".to_string())]);
}

#[test]
fn bytes_that_are_no_snapshot_are_refused() {
    assert_eq!(restore(&[]).err(), Some(SnapshotError::Decode));
    assert_eq!(restore(&[1, 2, 3]).err(), Some(SnapshotError::Decode));
    let mut cut = encode_entries(&vec![(1, "abc".to_string())]).unwrap();
    cut.pop();
    assert_eq!(restore(&cut).err(), Some(SnapshotError::Decode));
    let mut bad = Vec::new();
    bad.extend_from_slice(&1u64.to_le_bytes());
    bad.extend_from_slice(&1u64.to_le_bytes());
    bad.extend_from_slice(&1u64.to_le_bytes());
    bad.push(0xff);
    assert_eq!(restore(&bad).err(), Some(SnapshotError::Decode));
}

#[test]
fn earlier_entry_is_kept_where_two_have_one_key() {
    let store = load(vec![(1, "old".to_string()), (2, "two".to_string()), (1, "new".to_string())]);
    assert_eq!(contents(&store), vec![(1, "old".to_string()), (2, "two".to_string())]);
}

use secko::hashing::fingerprint;
use secko::log::{commit_entry, initial_header, watermark_field, LogError, WATERMARK_OFFSET};
use secko::messages::{FoundValue, KVPair, Message};
use secko::recovery::RecoverError;
use secko::replica::Replica;
use secko::snapshot::SnapshotError;

fn push(replica: &mut Replica, log: &mut Vec<u8>, value: &str) -> u64 {
    let value = value.to_string();
    let key = fingerprint(&value);
    let out = replica.handle_request(Message::PushReq(KVPair { key, value }), 0);
    if let Some(commit) = out.commit {
        log.extend_from_slice(&commit_entry(&commit));
    }
    key
}

fn sorted(mut keys: Vec<u64>) -> Vec<u64> {
    keys.sort();
    keys
}

#[test]
fn replica_without_files_starts_empty() {
    let back = Replica::recover(1, None, None, &vec![2, 3]).unwrap();
    assert_eq!(back.commits, 0);
    assert_eq!(back.replica.id(), 1);
    assert_eq!(back.replica.dump_len(), 0);
    assert_eq!(back.replica.known_keys(1), Some(vec![]));
    assert_eq!(back.replica.known_keys(2), Some(vec![]));
    assert_eq!(back.replica.known_keys(3), Some(vec![]));
    assert_eq!(back.replica.known_keys(4), None);
}

#[test]
fn neighbour_with_the_id_of_the_replica_is_the_replica() {
    let back = Replica::recover(1, None, None, &vec![1, 2, 2]).unwrap();
    assert_eq!(sorted(back.replica.digest().iter().map(|line| line.replica_id).collect()), vec![1, 2]);
}

#[test]
fn store_is_the_snapshot_and_the_log_beyond_it() {
    let mut replica = Replica::new(1);
    let mut log = initial_header();
    let mut keys = Vec::new();
    for value in ["a", "b", "c"] {
        keys.push(push(&mut replica, &mut log, value));
    }
    let snapshot = replica.snapshot().unwrap();
    let field = watermark_field(3).unwrap();
    log[WATERMARK_OFFSET..WATERMARK_OFFSET + 7].copy_from_slice(&field);
    for value in ["d", "e"] {
        keys.push(push(&mut replica, &mut log, value));
    }
    let back = Replica::recover(1, Some(&snapshot), Some(&log), &vec![2]).unwrap();
    assert_eq!(back.commits, 5);
    assert_eq!(back.replica.dump_len(), 5);
    assert_eq!(back.replica.retrieve(keys[0]), FoundValue::Success { value: "a".to_string() });
    assert_eq!(back.replica.retrieve(keys[2]), FoundValue::Success { value: "c".to_string() });
    assert_eq!(back.replica.retrieve(keys[3]), FoundValue::Success { value: "-> d".to_string() });
    assert_eq!(back.replica.retrieve(keys[4]), FoundValue::Success { value: "-> e".to_string() });
    assert_eq!(sorted(back.replica.known_keys(1).unwrap()), sorted(keys));
    assert_eq!(back.replica.known_keys(2), Some(vec![]));
}

#[test]
fn every_successful_push_is_there_after_a_restart() {
    let mut replica = Replica::new(1);
    let mut log = initial_header();
    let mut snapshot = None;
    let mut keys = Vec::new();
    for n in 0..500 {
        keys.push(push(&mut replica, &mut log, &format!("value {}", n)));
        if n == 120 || n == 340 {
            snapshot = Some(replica.snapshot().unwrap());
            let field = watermark_field(n + 1).unwrap();
            log[WATERMARK_OFFSET..WATERMARK_OFFSET + 7].copy_from_slice(&field);
        }
    }
    let back = Replica::recover(1, snapshot.as_deref(), Some(&log), &vec![]).unwrap();
    assert_eq!(back.commits, 500);
    assert_eq!(back.replica.dump_len(), 500);
    assert_eq!(sorted(back.replica.known_keys(1).unwrap()), sorted(keys));
}

#[test]
fn log_alone_brings_back_every_key() {
    let mut replica = Replica::new(1);
    let mut log = initial_header();
    let a = push(&mut replica, &mut log, "a");
    let b = push(&mut replica, &mut log, "b");
    let back = Replica::recover(1, None, Some(&log), &vec![]).unwrap();
    assert_eq!(sorted(back.replica.known_keys(1).unwrap()), sorted(vec![a, b]));
}

#[test]
fn snapshot_alone_brings_back_the_store() {
    let mut replica = Replica::new(1);
    let mut log = initial_header();
    let a = push(&mut replica, &mut log, "a");
    let snapshot = replica.snapshot().unwrap();
    let back = Replica::recover(1, Some(&snapshot), None, &vec![]).unwrap();
    assert_eq!(back.commits, 0);
    assert_eq!(back.replica.retrieve(a), FoundValue::Success { value: "a".to_string() });
}

#[test]
fn snapshot_that_cannot_be_read_stops_the_recovery() {
    let log = initial_header();
    let r = Replica::recover(1, Some(&[7, 7, 7]), Some(&log), &vec![]);
    assert_eq!(r.err(), Some(RecoverError::Snapshot(SnapshotError::Decode)));
}

#[test]
fn log_that_cannot_be_read_stops_the_recovery() {
    let r = Replica::recover(1, None, Some(b"no header"), &vec![]);
    assert_eq!(r.err(), Some(RecoverError::Log(LogError::BadHeader)));
}

#[test]
fn log_replaces_no_value_of_the_snapshot() {
    let mut replica = Replica::new(1);
    let mut log = initial_header();
    let a = push(&mut replica, &mut log, "a");
    let snapshot = replica.snapshot().unwrap();
    let back = Replica::recover(1, Some(&snapshot), Some(&log), &vec![]).unwrap();
    assert_eq!(back.commits, 1);
    assert_eq!(back.replica.dump_len(), 1);
    assert_eq!(back.replica.retrieve(a), FoundValue::Success { value: "a".to_string() });
}

#[test]
fn first_line_with_a_key_is_kept() {
    let mut log = initial_header();
    log.extend_from_slice(b"\n7 first\n8 other\n7 second");
    let back = Replica::recover(1, None, Some(&log), &vec![]).unwrap();
    assert_eq!(back.commits, 3);
    assert_eq!(back.replica.retrieve(7), FoundValue::Success { value: "first".to_string() });
    assert_eq!(back.replica.retrieve(8), FoundValue::Success { value: "other".to_string() });
}

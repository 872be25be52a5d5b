use secko::log::{
    commit_entry, initial_header, read_entry, read_log, watermark_field, LogError, WATERMARK_MAX,
    WATERMARK_OFFSET, WATERMARK_WIDTH,
};
use secko::replica::Commit;
use std::sync::Arc;

fn commit(key: u64, value: &str) -> Commit {
    Commit { key, value: Arc::new(value.to_string()), timestamp: 0 }
}

fn log_of(mark: &str, commits: &[(u64, &str)]) -> Vec<u8> {
    let mut log = format!("Snapshotted Until Line: {}", mark).into_bytes();
    for (key, value) in commits {
        log.extend_from_slice(&commit_entry(&commit(*key, value)));
    }
    log
}

#[test]
fn new_log_begins_with_the_header() {
    assert_eq!(initial_header(), b"Snapshotted Until Line: 0000000".to_vec());
    assert_eq!(initial_header().len(), 31);
    assert_eq!(WATERMARK_OFFSET + WATERMARK_WIDTH, 31);
}

#[test]
fn watermark_is_written_with_seven_digits() {
    assert_eq!(watermark_field(0), Some(b"0000000".to_vec()));
    assert_eq!(watermark_field(42), Some(b"0000042".to_vec()));
    assert_eq!(watermark_field(1_234_567), Some(b"1234567".to_vec()));
    assert_eq!(watermark_field(9_999_999), Some(b"9999999".to_vec()));
    assert_eq!(WATERMARK_MAX, 9_999_999);
}

#[test]
fn watermark_that_needs_more_digits_is_not_written() {
    assert_eq!(watermark_field(10_000_000), None);
    assert_eq!(watermark_field(usize::MAX), None);
}

#[test]
fn commit_is_written_as_key_arrow_value() {
    assert_eq!(commit_entry(&commit(12, "hello")), b"\n12 -> hello".to_vec());
    assert_eq!(commit_entry(&commit(0, "")), b"\n0 -> ".to_vec());
    assert_eq!(
        commit_entry(&commit(u64::MAX, "a b")),
        b"\n18446744073709551615 -> a b".to_vec()
    );
    assert_eq!(commit_entry(&commit(5, "é")), "\n5 -> é".as_bytes().to_vec());
}

#[test]
fn entry_is_split_at_the_first_space() {
    assert_eq!(read_entry(b"12 -> hello"), Some((12, "-> hello".to_string())));
    assert_eq!(read_entry(b"7 x"), Some((7, "x".to_string())));
    assert_eq!(read_entry(b"7 "), Some((7, "".to_string())));
    assert_eq!(read_entry(b"+7 a b c"), Some((7, "a b c".to_string())));
}

#[test]
fn line_that_holds_no_entry_is_passed_over() {
    assert_eq!(read_entry(b""), None);
    assert_eq!(read_entry(b"12"), None);
    assert_eq!(read_entry(b"twelve -> hello"), None);
    assert_eq!(read_entry(b" 12 -> hello"), None);
    assert_eq!(read_entry(b"18446744073709551616 -> big"), None);
    assert_eq!(read_entry(&[49, 32, 0xff, 0xfe]), None);
}

#[test]
fn new_log_holds_no_commit() {
    let found = read_log(&initial_header()).unwrap();
    assert_eq!(found.watermark, 0);
    assert_eq!(found.commits, 0);
    assert!(found.entries.is_empty());
}

#[test]
fn log_is_read_from_the_watermark_on() {
    let commits = [(1, "a"), (2, "b"), (3, "c"), (4, "d")];
    let found = read_log(&log_of("0000002", &commits)).unwrap();
    assert_eq!(found.watermark, 2);
    assert_eq!(found.commits, 4);
    assert_eq!(found.entries, vec![(3, "-> c".to_string()), (4, "-> d".to_string())]);
    let all = read_log(&log_of("0000000", &commits)).unwrap();
    assert_eq!(all.entries.len(), 4);
    assert_eq!(all.entries[0], (1, "-> a".to_string()));
    let none = read_log(&log_of("0000004", &commits)).unwrap();
    assert_eq!(none.commits, 4);
    assert!(none.entries.is_empty());
    let beyond = read_log(&log_of("0000009", &commits)).unwrap();
    assert_eq!(beyond.watermark, 9);
    assert_eq!(beyond.commits, 4);
    assert!(beyond.entries.is_empty());
}

#[test]
fn lines_that_hold_no_entry_still_count() {
    let mut log = b"Snapshotted Until Line: 0000001".to_vec();
    log.extend_from_slice(b"\n1 -> a\nnot a commit\n\n3 -> c");
    let found = read_log(&log).unwrap();
    assert_eq!(found.commits, 4);
    assert_eq!(found.entries, vec![(3, "-> c".to_string())]);
}

#[test]
fn line_feed_at_the_end_begins_no_line() {
    let mut log = b"Snapshotted Until Line: 0000000".to_vec();
    log.extend_from_slice(b"\n1 -> a\n");
    let found = read_log(&log).unwrap();
    assert_eq!(found.commits, 1);
    assert_eq!(found.entries, vec![(1, "-> a".to_string())]);
}

#[test]
fn carriage_return_before_a_line_feed_is_dropped() {
    let log = b"Snapshotted Until Line: 0000000\r\n1 -> a\r\n2 -> b\r".to_vec();
    let found = read_log(&log).unwrap();
    assert_eq!(found.watermark, 0);
    assert_eq!(found.entries, vec![(1, "-> a".to_string()), (2, "-> b\r".to_string())]);
}

#[test]
fn header_number_may_stand_among_blanks() {
    assert_eq!(read_log(b"Snapshotted Until Line:  12 \n").unwrap().watermark, 12);
    assert_eq!(read_log(b"Snapshotted Until Line: \t+3").unwrap().watermark, 3);
    assert_eq!(read_log(b"xxxxxxxxxxxxxxxxxxxxxxxx0000005\n9 -> z").unwrap().watermark, 5);
}

#[test]
fn log_without_a_number_in_its_header_is_refused() {
    assert_eq!(read_log(b"").err(), Some(LogError::BadHeader));
    assert_eq!(read_log(b"Snapshotted").err(), Some(LogError::BadHeader));
    assert_eq!(read_log(b"Snapshotted Until Line: ").err(), Some(LogError::BadHeader));
    assert_eq!(read_log(b"Snapshotted Until Line: seven").err(), Some(LogError::BadHeader));
    assert_eq!(read_log(b"Snapshotted Until Line: 12 3").err(), Some(LogError::BadHeader));
    assert_eq!(read_log(b"Snapshotted Until Line:\n0000001").err(), Some(LogError::BadHeader));
}

#[test]
fn header_is_rewritten_in_place() {
    let mut log = log_of("0000000", &[(1, "a"), (2, "b")]);
    let field = watermark_field(2).unwrap();
    log[WATERMARK_OFFSET..WATERMARK_OFFSET + WATERMARK_WIDTH].copy_from_slice(&field);
    let found = read_log(&log).unwrap();
    assert_eq!(found.watermark, 2);
    assert_eq!(found.commits, 2);
    assert!(found.entries.is_empty());
}

//! Tests of the record codec and the index, taken on their own.

use kvs::codec::{append_entry, decode_record, DecodeOutcome, LogEntry};
use kvs::index::Index;

#[test]
fn put_record_round_trips() {
    let mut log: Vec<u8> = Vec::new();
    let entry = LogEntry::Put { key: "key".to_string(), value: "value".to_string() };
    append_entry(&mut log, &entry);
    // tag + key length + key + value length + value
    assert_eq!(log.len(), 1 + 8 + 3 + 8 + 5);
    match decode_record(&log, 0) {
        DecodeOutcome::Decoded { entry: LogEntry::Put { key, value }, next } => {
            assert_eq!(key, "key");
            assert_eq!(value, "value");
            assert_eq!(next, log.len());
        }
        _ => panic!("expected a decoded Put record"),
    }
}

#[test]
fn remove_record_round_trips() {
    let mut log: Vec<u8> = Vec::new();
    append_entry(&mut log, &LogEntry::Remove { key: "gone".to_string() });
    // tag + key length + key
    assert_eq!(log.len(), 1 + 8 + 4);
    match decode_record(&log, 0) {
        DecodeOutcome::Decoded { entry: LogEntry::Remove { key }, next } => {
            assert_eq!(key, "gone");
            assert_eq!(next, log.len());
        }
        _ => panic!("expected a decoded Remove record"),
    }
}

#[test]
fn records_are_self_delimiting() {
    let mut log: Vec<u8> = Vec::new();
    append_entry(&mut log, &LogEntry::Put { key: "a".to_string(), value: "1".to_string() });
    let first_end = log.len();
    append_entry(&mut log, &LogEntry::Remove { key: "a".to_string() });
    match decode_record(&log, 0) {
        DecodeOutcome::Decoded { next, .. } => assert_eq!(next, first_end),
        _ => panic!("expected the first record"),
    }
    match decode_record(&log, first_end) {
        DecodeOutcome::Decoded { entry: LogEntry::Remove { key }, next } => {
            assert_eq!(key, "a");
            assert_eq!(next, log.len());
        }
        _ => panic!("expected the second record"),
    }
}

#[test]
fn end_of_input_at_a_boundary_is_not_an_error() {
    let log: Vec<u8> = Vec::new();
    assert!(matches!(decode_record(&log, 0), DecodeOutcome::EndOfInput));
}

#[test]
fn a_bad_tag_is_malformed() {
    let log: Vec<u8> = vec![9, 0, 0, 0];
    assert!(matches!(decode_record(&log, 0), DecodeOutcome::Malformed));
}

#[test]
fn invalid_utf8_in_a_field_is_malformed() {
    let mut log: Vec<u8> = Vec::new();
    append_entry(&mut log, &LogEntry::Remove { key: "ab".to_string() });
    // The key's two payload bytes sit at the end; 0xff can start no
    // UTF-8 character.
    let n = log.len();
    log[n - 2] = 0xff;
    log[n - 1] = 0xff;
    assert!(matches!(decode_record(&log, 0), DecodeOutcome::Malformed));
}

#[test]
fn a_cut_record_is_incomplete_not_malformed() {
    let mut log: Vec<u8> = Vec::new();
    append_entry(&mut log, &LogEntry::Put { key: "key".to_string(), value: "value".to_string() });
    for cut in 1..log.len() {
        let mut torn = log.clone();
        torn.truncate(cut);
        assert!(
            matches!(decode_record(&torn, 0), DecodeOutcome::Incomplete),
            "cut at {cut} should be incomplete"
        );
    }
}

#[test]
fn multibyte_characters_round_trip() {
    let mut log: Vec<u8> = Vec::new();
    let entry = LogEntry::Put {
        key: "\u{e9}\u{2713}".to_string(),
        value: "\u{65e5}\u{672c} \u{1f600}".to_string(),
    };
    append_entry(&mut log, &entry);
    match decode_record(&log, 0) {
        DecodeOutcome::Decoded { entry: LogEntry::Put { key, value }, .. } => {
            assert_eq!(key, "\u{e9}\u{2713}");
            assert_eq!(value, "\u{65e5}\u{672c} \u{1f600}");
        }
        _ => panic!("expected a decoded Put record"),
    }
}

#[test]
fn index_insert_overwrites_and_remove_unbinds() {
    let mut index = Index::new();
    assert_eq!(index.get(&"a".to_string()), None);
    index.insert("a".to_string(), 0);
    index.insert("b".to_string(), 10);
    assert_eq!(index.get(&"a".to_string()), Some(0));
    index.insert("a".to_string(), 20);
    assert_eq!(index.get(&"a".to_string()), Some(20));
    assert_eq!(index.entry_count(), 2);
    assert!(index.contains(&"b".to_string()));
    assert!(index.remove(&"b".to_string()));
    assert!(!index.remove(&"b".to_string()));
    assert_eq!(index.get(&"b".to_string()), None);
    assert_eq!(index.entry_count(), 1);
}

//! End-to-end tests of the storage engine: the command-line scenarios,
//! the universal properties on concrete values, and the error taxonomy.

use kvs::{KvStore, KvsError};

fn fresh() -> KvStore {
    KvStore::open(Vec::new()).expect("an empty log opens")
}

fn reopen(store: &KvStore) -> KvStore {
    KvStore::open(store.log_bytes().clone()).expect("a store's own log reopens")
}

#[test]
fn s1_set_then_get() {
    let mut kvs = fresh();
    kvs.set("a".to_string(), "1".to_string()).unwrap();
    assert_eq!(kvs.get("a".to_string()).unwrap(), Some("1".to_string()));
}

#[test]
fn s2_last_writer_wins() {
    let mut kvs = fresh();
    kvs.set("a".to_string(), "1".to_string()).unwrap();
    kvs.set("a".to_string(), "2".to_string()).unwrap();
    assert_eq!(kvs.get("a".to_string()).unwrap(), Some("2".to_string()));
}

#[test]
fn s3_remove_hides_and_second_remove_fails() {
    let mut kvs = fresh();
    kvs.set("a".to_string(), "1".to_string()).unwrap();
    kvs.remove("a".to_string()).unwrap();
    assert_eq!(kvs.get("a".to_string()).unwrap(), None);
    match kvs.remove("a".to_string()) {
        Err(KvsError::RemoveNonexistentKey { key }) => assert_eq!(key, "a"),
        other => panic!("expected RemoveNonexistentKey, got {:?}", other.is_ok()),
    }
}

#[test]
fn s4_durability_across_reopen() {
    let mut kvs = fresh();
    kvs.set("a".to_string(), "1".to_string()).unwrap();
    kvs.set("b".to_string(), "2".to_string()).unwrap();
    let mut again = reopen(&kvs);
    assert_eq!(again.get("a".to_string()).unwrap(), Some("1".to_string()));
    assert_eq!(again.get("b".to_string()).unwrap(), Some("2".to_string()));
}

#[test]
fn s5_compaction_fires_and_bounds_the_log() {
    let mut kvs = fresh();
    for i in 1..=25u32 {
        kvs.set("k".to_string(), i.to_string()).unwrap();
    }
    assert_eq!(kvs.get("k".to_string()).unwrap(), Some("25".to_string()));
    assert!(kvs.compactions() >= 1, "compaction should have fired");
    // One Put record for key "k" and a two-character value takes
    // 1 + 8 + 1 + 8 + 2 = 20 bytes; the log may hold that record plus at
    // most 20 records of recent history.
    assert!(kvs.log_len() <= 21 * 20, "log too large: {}", kvs.log_len());
}

#[test]
fn s6_remove_survives_reopen() {
    let mut kvs = fresh();
    kvs.set("a".to_string(), "A".to_string()).unwrap();
    kvs.set("b".to_string(), "B".to_string()).unwrap();
    kvs.remove("a".to_string()).unwrap();
    let mut again = reopen(&kvs);
    assert_eq!(again.get("a".to_string()).unwrap(), None);
    assert_eq!(again.get("b".to_string()).unwrap(), Some("B".to_string()));
}

#[test]
fn get_of_unknown_key_is_none_not_error() {
    let mut kvs = fresh();
    assert_eq!(kvs.get("missing".to_string()).unwrap(), None);
}

#[test]
fn remove_on_empty_store_fails() {
    let mut kvs = fresh();
    assert!(matches!(
        kvs.remove("x".to_string()),
        Err(KvsError::RemoveNonexistentKey { .. })
    ));
}

#[test]
fn empty_key_and_value_are_ordinary_strings() {
    let mut kvs = fresh();
    kvs.set(String::new(), String::new()).unwrap();
    assert_eq!(kvs.get(String::new()).unwrap(), Some(String::new()));
    let mut again = reopen(&kvs);
    assert_eq!(again.get(String::new()).unwrap(), Some(String::new()));
}

#[test]
fn values_keep_their_unicode() {
    let mut kvs = fresh();
    kvs.set("h\u{e9}llo\u{2713}".to_string(), "\u{65e5}\u{672c}\u{8a9e}".to_string())
        .unwrap();
    kvs.set("plain".to_string(), "caf\u{e9} \u{1f600}".to_string()).unwrap();
    let mut again = reopen(&kvs);
    assert_eq!(
        again.get("h\u{e9}llo\u{2713}".to_string()).unwrap(),
        Some("\u{65e5}\u{672c}\u{8a9e}".to_string())
    );
    assert_eq!(
        again.get("plain".to_string()).unwrap(),
        Some("caf\u{e9} \u{1f600}".to_string())
    );
}

#[test]
fn compaction_is_transparent() {
    // Enough overwrites and removes across several keys to force more
    // than one compaction; the surviving state must equal the same
    // history replayed with no compaction at all (tracked by hand here).
    let mut kvs = fresh();
    for round in 0..10u32 {
        for key in ["a", "b", "c", "d"] {
            kvs.set(key.to_string(), format!("{key}{round}")).unwrap();
        }
        if round % 3 == 0 {
            kvs.remove("b".to_string()).unwrap();
        }
    }
    assert!(kvs.compactions() >= 1);
    // With no compaction: a, c, d hold their round-9 values, and b was
    // removed after its round-9 set (9 % 3 == 0).
    assert_eq!(kvs.get("a".to_string()).unwrap(), Some("a9".to_string()));
    assert_eq!(kvs.get("b".to_string()).unwrap(), None);
    assert_eq!(kvs.get("c".to_string()).unwrap(), Some("c9".to_string()));
    assert_eq!(kvs.get("d".to_string()).unwrap(), Some("d9".to_string()));
    assert_eq!(kvs.get("e".to_string()).unwrap(), None);
}

#[test]
fn state_survives_reopen_after_compaction() {
    let mut kvs = fresh();
    for i in 1..=30u32 {
        kvs.set("k".to_string(), i.to_string()).unwrap();
        kvs.set("stable".to_string(), "same".to_string()).unwrap();
    }
    kvs.remove("k".to_string()).unwrap();
    let mut again = reopen(&kvs);
    assert_eq!(again.get("k".to_string()).unwrap(), None);
    assert_eq!(again.get("stable".to_string()).unwrap(), Some("same".to_string()));
}

#[test]
fn open_rejects_a_malformed_first_record() {
    // 7 is no record tag, and bytes are present: corruption, not a clean end.
    match KvStore::open(vec![7, 0, 0]) {
        Err(KvsError::LogParse { entry_number }) => assert_eq!(entry_number, 0),
        _ => panic!("expected LogParse"),
    }
}

#[test]
fn open_reports_the_ordinal_of_the_bad_record() {
    let mut kvs = fresh();
    kvs.set("a".to_string(), "1".to_string()).unwrap();
    kvs.set("b".to_string(), "2".to_string()).unwrap();
    let mut bytes = kvs.log_bytes().clone();
    bytes.push(9);  // garbage tag after two good records
    match KvStore::open(bytes) {
        Err(KvsError::LogParse { entry_number }) => assert_eq!(entry_number, 2),
        _ => panic!("expected LogParse"),
    }
}

#[test]
fn torn_tail_is_discarded_at_open() {
    let mut kvs = fresh();
    kvs.set("a".to_string(), "1".to_string()).unwrap();
    let keep = kvs.log_len();
    kvs.set("b".to_string(), "2".to_string()).unwrap();
    let mut bytes = kvs.log_bytes().clone();
    bytes.truncate(bytes.len() - 1);  // tear the last record
    let mut again = KvStore::open(bytes).expect("a torn tail is not corruption");
    assert_eq!(again.get("a".to_string()).unwrap(), Some("1".to_string()));
    assert_eq!(again.get("b".to_string()).unwrap(), None);
    assert_eq!(again.log_len(), keep, "the torn record is dropped from the log");
}

#[test]
fn any_truncation_of_a_valid_log_reopens() {
    let mut kvs = fresh();
    kvs.set("alpha".to_string(), "one".to_string()).unwrap();
    kvs.set("beta".to_string(), "two".to_string()).unwrap();
    kvs.remove("alpha".to_string()).unwrap();
    let bytes = kvs.log_bytes().clone();
    for cut in 0..=bytes.len() {
        let mut torn = bytes.clone();
        torn.truncate(cut);
        assert!(KvStore::open(torn).is_ok(), "cut at {cut} failed to open");
    }
}

#[test]
fn modifications_of_fresh_keys_do_not_compact() {
    let mut kvs = fresh();
    for i in 0..100u32 {
        kvs.set(format!("key{i}"), "v".to_string()).unwrap();
    }
    assert_eq!(kvs.compactions(), 0, "fresh keys supersede nothing");
    let mut again = reopen(&kvs);
    assert_eq!(again.get("key99".to_string()).unwrap(), Some("v".to_string()));
}

use resp_store::config::StorageConfig;
use resp_store::snapshot::SnapshotError;
use resp_store::storage::Storage;

fn store(max_memory: usize, persistence_enabled: bool) -> Storage {
    Storage::new(StorageConfig { max_memory, persistence_enabled })
}

#[test]
fn new_store_is_empty() {
    let db = store(100, true);
    assert_eq!(db.memory_usage(), 0);
    assert_eq!(db.get("k"), None);
    assert!(db.is_persistence_enabled());
    assert!(!store(100, false).is_persistence_enabled());
    assert!(db.records().is_empty());
}

#[test]
fn insert_counts_key_and_value() {
    let mut db = store(100, false);
    assert!(db.insert("key1".to_string(), "value1".to_string()));
    assert_eq!(db.memory_usage(), 10);
    assert_eq!(db.get("key1"), Some(&"value1".to_string()));
    assert!(db.insert("é".to_string(), "".to_string()));
    assert_eq!(db.memory_usage(), 12);
}

#[test]
fn record_larger_than_the_ceiling_is_rejected() {
    let mut db = store(10, false);
    assert!(!db.insert("k".to_string(), "12345678901".to_string()));
    assert_eq!(db.memory_usage(), 0);
    assert_eq!(db.get("k"), None);
}

#[test]
fn the_insert_that_crosses_the_ceiling_is_the_one_rejected() {
    let mut db = store(10, false);
    assert!(db.insert("a".to_string(), "123".to_string()));
    assert!(db.insert("b".to_string(), "123".to_string()));
    assert_eq!(db.memory_usage(), 8);
    assert!(!db.insert("c".to_string(), "12".to_string()));
    assert_eq!(db.memory_usage(), 8);
    assert_eq!(db.get("c"), None);
    assert!(db.insert("c".to_string(), "1".to_string()));
    assert_eq!(db.memory_usage(), 10);
    assert!(!db.insert("d".to_string(), "".to_string()));
}

#[test]
fn overwrite_keeps_one_record_and_counts_the_new_value() {
    let mut db = store(100, false);
    assert!(db.insert("key".to_string(), "v1".to_string()));
    assert!(db.insert("key".to_string(), "value2".to_string()));
    assert_eq!(db.get("key"), Some(&"value2".to_string()));
    assert_eq!(db.memory_usage(), 9);
    assert_eq!(db.records(), vec![("key".to_string(), "value2".to_string())]);
}

#[test]
fn overwrite_is_checked_without_the_old_value() {
    let mut db = store(10, false);
    assert!(db.insert("k".to_string(), "12345678".to_string()));
    assert_eq!(db.memory_usage(), 9);
    assert!(db.insert("k".to_string(), "123456789".to_string()));
    assert_eq!(db.memory_usage(), 10);
}

#[test]
fn rejected_overwrite_keeps_the_old_record() {
    let mut db = store(10, false);
    assert!(db.insert("k".to_string(), "12345".to_string()));
    assert!(!db.insert("k".to_string(), "1234567890".to_string()));
    assert_eq!(db.get("k"), Some(&"12345".to_string()));
    assert_eq!(db.memory_usage(), 6);
}

#[test]
fn snapshot_is_nothing_without_persistence() {
    let mut db = store(100, false);
    assert!(db.insert("k".to_string(), "v".to_string()));
    assert_eq!(db.snapshot(), Ok(None));
}

#[test]
fn snapshot_is_a_json_object() {
    let mut db = store(100, true);
    assert_eq!(db.snapshot(), Ok(Some("{}".to_string())));
    assert!(db.insert("k\"1".to_string(), "v\n".to_string()));
    assert_eq!(db.snapshot(), Ok(Some("{\"k\\\"1\":\"v\\n\"}".to_string())));
}

#[test]
fn restore_does_nothing_without_persistence() {
    let mut db = store(100, false);
    assert!(db.insert("k".to_string(), "v".to_string()));
    assert_eq!(db.restore("{\"a\":\"b\"}"), Ok(()));
    assert_eq!(db.get("k"), Some(&"v".to_string()));
    assert_eq!(db.get("a"), None);
    assert_eq!(db.restore("not json"), Ok(()));
}

#[test]
fn restore_replaces_the_records_and_counts_anew() {
    let mut db = store(4, true);
    assert!(db.insert("k".to_string(), "v".to_string()));
    assert_eq!(db.restore("{\"key1\":\"value1\",\"b\":\"22\"}"), Ok(()));
    assert_eq!(db.get("k"), None);
    assert_eq!(db.get("key1"), Some(&"value1".to_string()));
    assert_eq!(db.get("b"), Some(&"22".to_string()));
    assert_eq!(db.memory_usage(), 13);
}

#[test]
fn restore_refuses_what_is_no_object_of_strings() {
    let mut db = store(100, true);
    assert!(db.insert("k".to_string(), "v".to_string()));
    for text in ["", "not json", "[1,2]", "{\"a\":1}", "{\"a\":\"b\""] {
        match db.restore(text) {
            Err(SnapshotError::Decode(cause)) => assert!(!cause.is_empty()),
            other => panic!("unexpected {:?}", other),
        }
    }
    assert_eq!(db.get("k"), Some(&"v".to_string()));
    assert_eq!(db.memory_usage(), 2);
}

#[test]
fn snapshot_round_trips() {
    let mut db = store(1000, true);
    assert!(db.insert("plain".to_string(), "value".to_string()));
    assert!(db.insert("quo\"te".to_string(), "line\r\nbreak".to_string()));
    assert!(db.insert("é".to_string(), "\u{1F600}".to_string()));
    assert!(db.insert("".to_string(), "".to_string()));
    let text = db.snapshot().unwrap().unwrap();
    let mut other = store(1000, true);
    assert_eq!(other.restore(&text), Ok(()));
    assert_eq!(other.memory_usage(), db.memory_usage());
    let mut expected = db.records();
    expected.sort();
    let mut got = other.records();
    got.sort();
    assert_eq!(got, expected);
}

#[test]
fn load_records_lets_the_later_pair_win() {
    let mut db = store(100, true);
    let pairs = vec![
        ("a".to_string(), "1".to_string()),
        ("b".to_string(), "22".to_string()),
        ("a".to_string(), "333".to_string()),
    ];
    assert!(db.load_records(&pairs));
    assert_eq!(db.get("a"), Some(&"333".to_string()));
    assert_eq!(db.memory_usage(), 7);
}

#[test]
fn snapshot_error_messages() {
    assert_eq!(SnapshotError::TooLarge.to_string(), "snapshot too large");
    assert_eq!(
        SnapshotError::Decode("x".to_string()).to_string(),
        "cannot decode snapshot: x"
    );
    assert_eq!(
        SnapshotError::Encode("y".to_string()).to_string(),
        "cannot encode snapshot: y"
    );
}

#[test]
fn default_limits() {
    let config = StorageConfig::default();
    assert_eq!(config.max_memory, 1024 * 1024 * 1024);
    assert!(!config.persistence_enabled);
}

//! Tests of the write-ahead log over its in-memory byte image.
use kvs::value::Value;
use kvs::wal::WriteAheadLog;

#[test]
fn test_wal_new() {
    let wal = WriteAheadLog { path: "data/wal".to_string(), data: Vec::new() };
    assert_eq!(WriteAheadLog::new("data", "wal", Vec::new()), wal);
}

#[test]
fn wal_write_then_recover() {
    let mut wal = WriteAheadLog::new("data", "wal", Vec::new());
    let n = wal.write("k1", &Value::new("v1", false)).unwrap();
    // 8 (key len) + 2 (key) + 8 (value len) + 2 (payload) + 1 (tombstone)
    assert_eq!(n, 21);
    wal.write("k2", &Value::new("v2", false)).unwrap();
    wal.write("k1", &Value::new("v3", false)).unwrap();
    wal.write("k2", &Value::new("", true)).unwrap();

    let memtable = wal.recovery().unwrap();
    // the latest record for each key wins
    assert_eq!(memtable.get("k1"), Some(Value::new("v3", false)));
    assert_eq!(memtable.get("k2"), Some(Value::new("", true)));
    assert_eq!(memtable.get("k3"), None);

    wal.clear().unwrap();
    let memtable = wal.recovery().unwrap();
    assert_eq!(memtable.len(), 0);
}

#[test]
fn wal_partial_trailing_frame_is_error() {
    let mut wal = WriteAheadLog::new("data", "wal", Vec::new());
    wal.write("key", &Value::new("value", false)).unwrap();
    let mut bytes = wal.data.clone();
    bytes.pop();
    let torn = WriteAheadLog::new("data", "wal", bytes);
    assert!(torn.recovery().is_err());
}

//! End-to-end tests of the engine over an in-memory data directory: the
//! tests play the role of the storage layer by applying the engine's disk
//! actions to a map from file name to file bytes.
use kvs::names::is_data_file;
use kvs::{DataFile, DiskAction, KVS};
use std::collections::HashMap;

/// Applies queued disk actions to an in-memory directory.
fn apply_actions(dir: &mut HashMap<String, Vec<u8>>, actions: Vec<DiskAction>) {
    for a in actions {
        match a {
            DiskAction::AppendWal { bytes } => {
                dir.entry("wal".to_string()).or_insert_with(Vec::new).extend(bytes);
            }
            DiskAction::TruncateWal => {
                dir.insert("wal".to_string(), Vec::new());
            }
            DiskAction::WriteTable { name, bytes } => {
                dir.insert(name, bytes);
            }
            DiskAction::RemoveTable { path } => {
                let name = path.rsplit('/').next().unwrap().to_string();
                dir.remove(&name);
            }
        }
    }
}

/// Drains the engine's pending actions into the directory.
fn sync(kvs: &mut KVS, dir: &mut HashMap<String, Vec<u8>>) {
    let actions = kvs.take_actions();
    apply_actions(dir, actions);
}

/// Opens an engine over the directory's current contents.
fn reopen(dir: &HashMap<String, Vec<u8>>, limit: usize) -> KVS {
    let mut files: Vec<DataFile> = Vec::new();
    let mut names: Vec<&String> = dir.keys().collect();
    names.sort();
    for name in names {
        if is_data_file(name) {
            files.push(DataFile { name: name.clone(), data: dir[name].clone() });
        }
    }
    let wal_data = dir.get("wal").cloned().unwrap_or_default();
    KVS::with_limit("data".to_string(), files, wal_data, limit).unwrap()
}

fn dat_count(dir: &HashMap<String, Vec<u8>>) -> usize {
    dir.keys().filter(|n| is_data_file(n)).count()
}

fn get_payload(kvs: &mut KVS, key: &str) -> Option<String> {
    kvs.get(key).unwrap().map(|v| v.payload())
}

#[test]
fn scenario_basic_put_get() {
    let mut dir: HashMap<String, Vec<u8>> = HashMap::new();
    let mut kvs = reopen(&dir, 1024);
    kvs.put("k1", "v1").unwrap();
    sync(&mut kvs, &mut dir);
    assert_eq!(get_payload(&mut kvs, "k1"), Some("v1".to_string()));
    assert_eq!(get_payload(&mut kvs, "k2"), None);
}

#[test]
fn scenario_overwrite() {
    let dir: HashMap<String, Vec<u8>> = HashMap::new();
    let mut kvs = reopen(&dir, 1024);
    kvs.put("k", "a").unwrap();
    kvs.put("k", "b").unwrap();
    assert_eq!(get_payload(&mut kvs, "k"), Some("b".to_string()));
}

#[test]
fn scenario_delete_then_re_put() {
    let dir: HashMap<String, Vec<u8>> = HashMap::new();
    let mut kvs = reopen(&dir, 1024);
    kvs.put("k", "v").unwrap();
    kvs.delete("k").unwrap();
    assert_eq!(get_payload(&mut kvs, "k"), None);
    kvs.put("k", "w").unwrap();
    assert_eq!(get_payload(&mut kvs, "k"), Some("w".to_string()));
}

#[test]
fn scenario_recovery_after_writes() {
    let mut dir: HashMap<String, Vec<u8>> = HashMap::new();
    let mut kvs = reopen(&dir, 1024);
    for i in 0..10 {
        let k = format!("key{}", i);
        let v = format!("val{}", i);
        kvs.put(&k, &v).unwrap();
    }
    kvs.put("key3", "replaced").unwrap();
    sync(&mut kvs, &mut dir);
    drop(kvs);

    let mut kvs = reopen(&dir, 1024);
    for i in 0..10 {
        let k = format!("key{}", i);
        let expect = if i == 3 { "replaced".to_string() } else { format!("val{}", i) };
        assert_eq!(get_payload(&mut kvs, &k), Some(expect));
    }
}

#[test]
fn scenario_flush_then_get() {
    let mut dir: HashMap<String, Vec<u8>> = HashMap::new();
    let mut kvs = reopen(&dir, 3);
    kvs.put("k1", "v1").unwrap();
    kvs.put("k2", "v2").unwrap();
    kvs.put("k3", "v3").unwrap();
    kvs.put("k4", "v4").unwrap();
    sync(&mut kvs, &mut dir);

    assert_eq!(dir.get("wal"), Some(&Vec::new()));
    assert_eq!(dat_count(&dir), 1);
    assert_eq!(get_payload(&mut kvs, "k1"), Some("v1".to_string()));
    assert_eq!(get_payload(&mut kvs, "k4"), Some("v4".to_string()));
}

#[test]
fn scenario_compaction() {
    let mut dir: HashMap<String, Vec<u8>> = HashMap::new();
    let mut kvs = reopen(&dir, 3);
    kvs.put("k1", "v1").unwrap();
    kvs.put("k2", "v2").unwrap();
    kvs.put("k3", "v3").unwrap();
    kvs.put("k4", "v4").unwrap();
    kvs.put("k2", "v2b").unwrap();
    kvs.put("k5", "v5").unwrap();
    kvs.flush().unwrap();
    kvs.compaction().unwrap();
    sync(&mut kvs, &mut dir);

    assert_eq!(dat_count(&dir), 1);
    assert_eq!(get_payload(&mut kvs, "k1"), Some("v1".to_string()));
    assert_eq!(get_payload(&mut kvs, "k2"), Some("v2b".to_string()));
    assert_eq!(get_payload(&mut kvs, "k5"), Some("v5".to_string()));
}

#[test]
fn flush_preserves_visibility() {
    let dir: HashMap<String, Vec<u8>> = HashMap::new();
    let mut kvs = reopen(&dir, 1024);
    kvs.put("a", "1").unwrap();
    kvs.put("b", "2").unwrap();
    kvs.delete("a").unwrap();
    let before: Vec<Option<String>> =
        ["a", "b", "c"].iter().map(|k| get_payload(&mut kvs, k)).collect();
    kvs.flush().unwrap();
    let after: Vec<Option<String>> =
        ["a", "b", "c"].iter().map(|k| get_payload(&mut kvs, k)).collect();
    assert_eq!(before, after);
}

#[test]
fn compaction_preserves_visibility() {
    let dir: HashMap<String, Vec<u8>> = HashMap::new();
    let mut kvs = reopen(&dir, 1024);
    kvs.put("a", "1").unwrap();
    kvs.flush().unwrap();
    kvs.put("a", "2").unwrap();
    kvs.put("b", "3").unwrap();
    kvs.flush().unwrap();
    kvs.delete("b").unwrap();
    kvs.flush().unwrap();
    let before: Vec<Option<String>> =
        ["a", "b", "c"].iter().map(|k| get_payload(&mut kvs, k)).collect();
    kvs.compaction().unwrap();
    let after: Vec<Option<String>> =
        ["a", "b", "c"].iter().map(|k| get_payload(&mut kvs, k)).collect();
    assert_eq!(before, after);
    assert_eq!(before[0], Some("2".to_string()));
    assert_eq!(before[1], None);
}

#[test]
fn newest_table_wins() {
    // With a zero limit every put seals its own table, so the same key
    // ends up in several tables and the newest must win.
    let dir: HashMap<String, Vec<u8>> = HashMap::new();
    let mut kvs = reopen(&dir, 0);
    kvs.put("k", "old").unwrap();
    kvs.put("k", "new").unwrap();
    assert_eq!(get_payload(&mut kvs, "k"), Some("new".to_string()));
    kvs.delete("k").unwrap();
    assert_eq!(get_payload(&mut kvs, "k"), None);
}

#[test]
fn recovery_after_flush_and_writes() {
    let mut dir: HashMap<String, Vec<u8>> = HashMap::new();
    let mut kvs = reopen(&dir, 2);
    kvs.put("k1", "v1").unwrap();
    kvs.put("k2", "v2").unwrap();
    kvs.put("k3", "v3").unwrap();
    kvs.put("k4", "v4").unwrap();
    kvs.delete("k1").unwrap();
    sync(&mut kvs, &mut dir);
    drop(kvs);

    let mut kvs = reopen(&dir, 2);
    assert_eq!(get_payload(&mut kvs, "k1"), None);
    assert_eq!(get_payload(&mut kvs, "k2"), Some("v2".to_string()));
    assert_eq!(get_payload(&mut kvs, "k3"), Some("v3".to_string()));
    assert_eq!(get_payload(&mut kvs, "k4"), Some("v4".to_string()));
}

#[test]
fn wal_append_action_precedes_table_write() {
    let dir: HashMap<String, Vec<u8>> = HashMap::new();
    let mut kvs = reopen(&dir, 0);
    kvs.put("k", "v").unwrap();
    let actions = kvs.take_actions();
    assert_eq!(actions.len(), 3);
    assert!(matches!(actions[0], DiskAction::AppendWal { .. }));
    assert!(matches!(actions[1], DiskAction::WriteTable { .. }));
    assert!(matches!(actions[2], DiskAction::TruncateWal));
}

#[test]
fn corrupt_wal_fails_recovery() {
    let mut dir: HashMap<String, Vec<u8>> = HashMap::new();
    let mut kvs = reopen(&dir, 1024);
    kvs.put("k", "v").unwrap();
    sync(&mut kvs, &mut dir);
    dir.get_mut("wal").unwrap().pop();
    let wal_data = dir["wal"].clone();
    assert!(KVS::new("data".to_string(), Vec::new(), wal_data).is_err());
}

#[test]
fn tables_are_ordered_by_timestamp_not_name_text() {
    // "10" sorts before "2" as text but after it as a number; the engine
    // must treat 10.dat as the newer table.
    let old_frame = kvs::frames::encode_record("k", &kvs::value::Value::new("old", false));
    let new_frame = kvs::frames::encode_record("k", &kvs::value::Value::new("new", false));
    let files = vec![
        DataFile { name: "10.dat".to_string(), data: new_frame },
        DataFile { name: "2.dat".to_string(), data: old_frame },
    ];
    let mut kvs = KVS::new("data".to_string(), files, Vec::new()).unwrap();
    assert_eq!(get_payload(&mut kvs, "k"), Some("new".to_string()));
}

#[test]
fn bad_key_utf8_in_table_fails_open() {
    // key length 1, key byte 0xff (not UTF-8), value length 1, tombstone 0
    let data: Vec<u8> = vec![
        0, 0, 0, 0, 0, 0, 0, 1, 0xff, 0, 0, 0, 0, 0, 0, 0, 1, 0,
    ];
    let bad = DataFile { name: "7.dat".to_string(), data };
    assert!(KVS::new("data".to_string(), vec![bad], Vec::new()).is_err());
}

#[test]
fn corrupt_table_fails_open() {
    let bad = DataFile { name: "42.dat".to_string(), data: vec![1, 2, 3] };
    assert!(KVS::new("data".to_string(), vec![bad], Vec::new()).is_err());
}

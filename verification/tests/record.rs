//! Tests of the standalone record codec.
use kvs::error::RecordError;
use kvs::record::Record;
use chrono::Local;

#[test]
fn test_record_new() {
    let ts = Local::now().timestamp();
    let expect = Record {
        key: "Key".to_string(),
        value: "Value".to_string(),
        timestamp: ts,
        is_delete: false,
    };

    let actual = Record::new("Key", "Value", ts, false);

    assert_eq!(actual, expect);
}

#[test]
fn test_to_vec() {
    // is_delete set
    let t = Record::new("key", "value", 0, true);
    let v: Vec<u8> = vec![
        0, 0, 0, 0, 0, 0, 0, 3, // 3 (length of key)
        107, 101, 121, // key
        0, 0, 0, 0, 0, 0, 0, 5, // 5 (length of value)
        118, 97, 108, 117, 101, // value
        0, 0, 0, 0, 0, 0, 0, 0, // timestamp
        1, // true
    ];
    assert_eq!(t.to_vec(), v);

    // is_delete clear
    let f = Record::new("key", "value", 0, false);
    let v: Vec<u8> = vec![
        0, 0, 0, 0, 0, 0, 0, 3, // 3 (length of key)
        107, 101, 121, // key
        0, 0, 0, 0, 0, 0, 0, 5, // 5 (length of value)
        118, 97, 108, 117, 101, // value
        0, 0, 0, 0, 0, 0, 0, 0, // timestamp
        0, // false
    ];
    assert_eq!(f.to_vec(), v);
}

#[test]
fn test_from_vec() {
    // is_delete set
    let t = Record::new("key", "value", 0, true);
    let v: Vec<u8> = vec![
        0, 0, 0, 0, 0, 0, 0, 3, // 3 (length of key)
        107, 101, 121, // key
        0, 0, 0, 0, 0, 0, 0, 5, // 5 (length of value)
        118, 97, 108, 117, 101, // value
        0, 0, 0, 0, 0, 0, 0, 0, // timestamp
        1, // true
    ];
    assert_eq!(Record::from_vec(v).unwrap(), t);

    // is_delete clear
    let f = Record::new("key", "value", 0, false);
    let v: Vec<u8> = vec![
        0, 0, 0, 0, 0, 0, 0, 3, // 3 (length of key)
        107, 101, 121, // key
        0, 0, 0, 0, 0, 0, 0, 5, // 5 (length of value)
        118, 97, 108, 117, 101, // value
        0, 0, 0, 0, 0, 0, 0, 0, // timestamp
        0, // false
    ];
    assert_eq!(Record::from_vec(v).unwrap(), f);

    // a tombstone byte that is neither 0 nor 1 (an error)
    let e = RecordError::FailedFromBytes(
        "Invalid value '2' is read. is_delete expect '0' or '1'".to_string(),
    );
    let v: Vec<u8> = vec![
        0, 0, 0, 0, 0, 0, 0, 3, // 3 (length of key)
        107, 101, 121, // key
        0, 0, 0, 0, 0, 0, 0, 5, // 5 (length of value)
        118, 97, 108, 117, 101, // value
        0, 0, 0, 0, 0, 0, 0, 0, // timestamp
        2, // ERROR
    ];
    assert_eq!(Record::from_vec(v).unwrap_err(), e);
}

#[test]
fn record_round_trip() {
    let r = Record::new("some key", "some value", 1_700_000_000, false);
    let again = Record::from_vec(r.to_vec()).unwrap();
    assert_eq!(again, Record::new("some key", "some value", 1_700_000_000, false));

    let neg = Record::new("k", "", -5, true);
    let again = Record::from_vec(neg.to_vec()).unwrap();
    assert_eq!(again, Record::new("k", "", -5, true));
}

#[test]
fn record_truncated_is_error() {
    assert!(Record::from_vec(vec![0, 0, 0]).is_err());
    assert!(Record::from_vec(vec![0, 0, 0, 0, 0, 0, 0, 9, 107]).is_err());
}

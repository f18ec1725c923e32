//! Tests of the in-memory value carrier and its byte segment.
use kvs::value::Value;

#[test]
fn test_value_new() {
    let t = Value { value: "value".to_string(), is_delete: true };
    assert_eq!(Value::new("value", true), t);

    let f = Value { value: "value".to_string(), is_delete: false };
    assert_eq!(Value::new("value", false), f);
}

#[test]
fn test_len() {
    let value = Value::new("value", false);
    assert_eq!(value.len(), 14);
}

#[test]
fn test_is_deleted() {
    let t = Value::new("v", true);
    assert!(t.is_deleted());

    let f = Value::new("v", false);
    assert!(!f.is_deleted());
}

#[test]
fn test_to_bytes() {
    let v: Vec<u8> = vec![
        0, 0, 0, 0, 0, 0, 0, 6, // 6 (length of value + 1)
        118, 97, 108, 117, 101, // value
        1, // true
    ];
    let t = Value::new("value", true);
    assert_eq!(t.to_bytes(), v);

    let v: Vec<u8> = vec![
        0, 0, 0, 0, 0, 0, 0, 6, // 6 (length of value + 1)
        118, 97, 108, 117, 101, // value
        0, // false
    ];
    let t = Value::new("value", false);
    assert_eq!(t.to_bytes(), v);
}

#[test]
fn test_from_bytes() {
    // A bare payload with a tombstone byte is not a value segment: the
    // segment starts with the 8-byte value length.
    let bytes: Vec<u8> = vec![116, 101, 115, 116, 1];
    assert!(Value::from_bytes(bytes).is_err());

    let bytes: Vec<u8> = vec![116, 101, 115, 116, 0];
    assert!(Value::from_bytes(bytes).is_err());

    // The full segment decodes.
    let t = Value::new("test", true);
    let bytes: Vec<u8> = vec![0, 0, 0, 0, 0, 0, 0, 5, 116, 101, 115, 116, 1];
    assert_eq!(Value::from_bytes(bytes).unwrap(), t);

    let f = Value::new("test", false);
    let bytes: Vec<u8> = vec![0, 0, 0, 0, 0, 0, 0, 5, 116, 101, 115, 116, 0];
    assert_eq!(Value::from_bytes(bytes).unwrap(), f);
}

#[test]
fn test_display() {
    let str_true = "test_true";
    let t = Value::new(str_true, true);
    assert_eq!(t.payload(), String::from(str_true));

    let str_false = "test_false";
    let f = Value::new(str_false, true);
    assert_eq!(f.payload(), String::from(str_false));
}

#[test]
fn value_round_trip() {
    for (payload, deleted) in [("", true), ("", false), ("abc", false), ("snowman \u{2603}", true)]
    {
        let v = Value::new(payload, deleted);
        let back = Value::from_bytes(v.to_bytes()).unwrap();
        assert_eq!(back, Value::new(payload, deleted));
    }
}

#[test]
fn value_bad_tombstone_is_error() {
    let bytes: Vec<u8> = vec![0, 0, 0, 0, 0, 0, 0, 5, 116, 101, 115, 116, 2];
    assert!(Value::from_bytes(bytes).is_err());
}

#[test]
fn value_bad_utf8_is_error() {
    let bytes: Vec<u8> = vec![0, 0, 0, 0, 0, 0, 0, 2, 0xff, 0];
    assert!(Value::from_bytes(bytes).is_err());
}

#[test]
fn value_zero_length_prefix_is_error() {
    let bytes: Vec<u8> = vec![0, 0, 0, 0, 0, 0, 0, 0, 0, 0];
    assert!(Value::from_bytes(bytes).is_err());
}

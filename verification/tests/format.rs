//! Tests of decimal formatting, file-name parsing, the plain key/value
//! byte carriers, and error rendering.
use kvs::decimal::{i64_to_string, u64_to_string, u8_to_string};
use kvs::error::{ConvertError, IOError, KVSError, ParseError};
use kvs::names::{file_sort_key, is_data_file};
use kvs::shell::CommandError;

#[test]
fn decimal_formatting() {
    assert_eq!(u64_to_string(0), "0");
    assert_eq!(u64_to_string(7), "7");
    assert_eq!(u64_to_string(1234567890), "1234567890");
    assert_eq!(u64_to_string(u64::MAX), "18446744073709551615");
    assert_eq!(i64_to_string(0), "0");
    assert_eq!(i64_to_string(-42), "-42");
    assert_eq!(i64_to_string(i64::MIN), "-9223372036854775808");
    assert_eq!(u8_to_string(255), "255");
    assert_eq!(u8_to_string(2), "2");
}

#[test]
fn data_file_names() {
    assert!(is_data_file("1700000000.dat"));
    assert!(is_data_file("x.dat"));
    assert!(!is_data_file("wal"));
    assert!(!is_data_file(".dat"));
    assert!(!is_data_file("1700000000.txt"));

    assert_eq!(file_sort_key("1700.dat"), Some(1700));
    assert_eq!(file_sort_key("0.dat"), Some(0));
    assert_eq!(file_sort_key("x.dat"), None);
    assert_eq!(file_sort_key("wal"), None);
    // a stem too large for 64 bits carries no key
    assert_eq!(file_sort_key("99999999999999999999.dat"), None);
}

#[test]
fn key_and_value_byte_carriers() {
    let k = kvs::keyvalue::Key::new("key");
    assert_eq!(k.to_bytes(), vec![0, 0, 0, 0, 0, 0, 0, 3, 107, 101, 121]);

    let v = kvs::keyvalue::Value::new("value", 0, true);
    assert_eq!(
        v.to_bytes(),
        vec![0, 0, 0, 0, 0, 0, 0, 5, 118, 97, 108, 117, 101, 1]
    );
    let v = kvs::keyvalue::Value::new("value", 7, false);
    assert_eq!(
        v.to_bytes(),
        vec![0, 0, 0, 0, 0, 0, 0, 5, 118, 97, 108, 117, 101, 0]
    );
}

#[test]
fn error_messages() {
    let e = IOError::FailedTruncateWAL("boom".to_string());
    assert_eq!(
        e.message(),
        "IOError: Failed to truncate WAL because the following error occurred.\nboom"
    );
    let e = IOError::DirectoryNotFound("./data".to_string());
    assert_eq!(
        e.message(),
        "IOError: The directory './data' is not found or is not directory."
    );
    let e = KVSError::FailedConvert(ConvertError::FailedBytesToString("bad".to_string()));
    assert_eq!(
        e.message(),
        "ConvertError: Failed to convert bytes to String because the following error occurred.\nbad"
    );
    let e = ParseError::CommandNotDefine("frob".to_string());
    assert_eq!(e.message(), "ParseError: The command 'frob' is not defined.");
    assert_eq!(ParseError::InvalidArguments.message(), "ParseError: Invalid arguments.");
    let e = CommandError::CommandNotDefine("frob".to_string());
    assert_eq!(e.message(), "ParseError: The command 'frob' is not defined.");
}

#[test]
fn frame_round_trip() {
    let v = kvs::value::Value::new("payload", false);
    let frame = kvs::frames::encode_record("key", &v);
    let (k, val, sz) = kvs::frames::decode_record(&frame, 0).unwrap();
    assert_eq!(k, "key");
    assert_eq!(val, kvs::value::Value::new("payload", false));
    assert_eq!(sz, frame.len());
}

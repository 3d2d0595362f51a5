use kvs::KvsCommands;
use kvs::KvsError;
use kvs::decode_record;
use kvs::encode_record;

fn put(key: &str, value: &str) -> KvsCommands {
    KvsCommands::Put { key: key.to_string(), value: value.to_string() }
}

fn round_trip(cmd: &KvsCommands) -> (KvsCommands, usize) {
    let bytes = encode_record(cmd);
    let n = bytes.len();
    let (back, end) = decode_record(&bytes, 0).expect("own encoding parses");
    assert_eq!(end, n);
    (back, end)
}

#[test]
fn put_record_bytes_are_tagged_json() {
    let bytes = encode_record(&put("a", "1"));
    assert_eq!(bytes, b"{\"Set\":{\"key\":\"a\",\"value\":\"1\"}}".to_vec());
}

#[test]
fn remove_record_bytes_are_tagged_json() {
    let bytes = encode_record(&KvsCommands::Remove { key: "a".to_string() });
    assert_eq!(bytes, b"{\"Remove\":{\"key\":\"a\"}}".to_vec());
}

#[test]
fn get_record_bytes_are_tagged_json() {
    let bytes = encode_record(&KvsCommands::Get { key: "a".to_string() });
    assert_eq!(bytes, b"{\"Get\":{\"key\":\"a\"}}".to_vec());
}

#[test]
fn quotes_and_backslashes_are_escaped() {
    let bytes = encode_record(&put("a\"b", "c\\d"));
    assert_eq!(bytes, b"{\"Set\":{\"key\":\"a\\\"b\",\"value\":\"c\\\\d\"}}".to_vec());
    let (back, _) = round_trip(&put("a\"b", "c\\d"));
    match back {
        KvsCommands::Put { key, value } => {
            assert_eq!(key, "a\"b");
            assert_eq!(value, "c\\d");
        }
        _ => panic!("wrong record shape"),
    }
}

#[test]
fn control_bytes_become_hex_escapes() {
    let bytes = encode_record(&put("a\nb", "t\tv"));
    assert_eq!(bytes, b"{\"Set\":{\"key\":\"a\\u000ab\",\"value\":\"t\\u0009v\"}}".to_vec());
    let (back, _) = round_trip(&put("a\nb", "t\tv"));
    match back {
        KvsCommands::Put { key, value } => {
            assert_eq!(key, "a\nb");
            assert_eq!(value, "t\tv");
        }
        _ => panic!("wrong record shape"),
    }
}

#[test]
fn multibyte_text_survives_a_round_trip() {
    let cmd = put("clé", "value \u{1F600} ünïcode");
    let (back, _) = round_trip(&cmd);
    match back {
        KvsCommands::Put { key, value } => {
            assert_eq!(key, "clé");
            assert_eq!(value, "value \u{1F600} ünïcode");
        }
        _ => panic!("wrong record shape"),
    }
}

#[test]
fn empty_key_and_value_round_trip() {
    let (back, end) = round_trip(&put("", ""));
    assert_eq!(end, encode_record(&put("", "")).len());
    match back {
        KvsCommands::Put { key, value } => {
            assert_eq!(key, "");
            assert_eq!(value, "");
        }
        _ => panic!("wrong record shape"),
    }
}

#[test]
fn records_concatenate_without_separators() {
    let mut bytes = encode_record(&put("a", "1"));
    let first = bytes.len();
    bytes.extend_from_slice(&encode_record(&KvsCommands::Remove { key: "a".to_string() }));
    let (r1, end1) = decode_record(&bytes, 0).unwrap();
    assert_eq!(end1, first);
    assert!(matches!(r1, KvsCommands::Put { .. }));
    let (r2, end2) = decode_record(&bytes, end1).unwrap();
    assert_eq!(end2, bytes.len());
    assert!(matches!(r2, KvsCommands::Remove { .. }));
}

#[test]
fn garbage_is_rejected() {
    assert_eq!(decode_record(&b"xyz".to_vec(), 0), Err(KvsError::Serde));
    assert_eq!(decode_record(&Vec::new(), 0), Err(KvsError::Serde));
    // A raw control byte inside a string has no canonical place in a
    // record, so the strict parser refuses it.
    assert_eq!(decode_record(&b"{\"Remove\":{\"key\":\"a\nb\"}}".to_vec(), 0), Err(KvsError::Serde));
    // Truncation mid-record is rejected too.
    let mut bytes = encode_record(&put("a", "1"));
    bytes.pop();
    assert_eq!(decode_record(&bytes, 0), Err(KvsError::Serde));
}

#[test]
fn error_descriptions() {
    assert_eq!(KvsError::KeyNotFound.describe(), "Key not found");
    assert_eq!(KvsError::Serde.describe(), "Malformed log record");
    assert_eq!(KvsError::UnexpectedCommandType.describe(), "Unexpected command type found");
    assert_eq!(KvsError::Io.describe(), "I/O error");
}

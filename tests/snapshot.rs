use kvstore::rdb_encoding::{RdbEncoding, RdbError, RdbSize, RdbString};
use kvstore::snapshot::{decode_snapshot, encode_snapshot};
use kvstore::storage::{Item, Storage, StorageType};
use kvstore::values::Value;

const HEADER: &[u8] = b"9\rREDIS0011\nFA\n9\rredis-ver\n6\r6.0.16\nFE\n00\nFB\n";

fn bulk(s: &str) -> Value {
    Value::BulkString(s.to_string())
}

fn text_of(v: Value) -> Option<String> {
    match v {
        Value::BulkString(s) => Some(s),
        Value::Null => None,
        other => panic!("unexpected {:?}", other),
    }
}

#[test]
fn rdb_string_is_length_prefixed() {
    assert_eq!(RdbString::new("abc".to_string()).serialize(), b"3\rabc\n".to_vec());
    assert_eq!(RdbString::new("".to_string()).serialize(), b"0\r\n".to_vec());
}

#[test]
fn rdb_string_length_counts_bytes() {
    assert_eq!(RdbString::new("\u{e9}".to_string()).serialize(), "2\r\u{e9}\n".as_bytes().to_vec());
}

#[test]
fn rdb_size_is_a_line() {
    assert_eq!(RdbSize::new(42).serialize(), b"42\n".to_vec());
    assert_eq!(RdbSize::new(0).serialize(), b"0\n".to_vec());
    assert_eq!(RdbSize::new(-5).serialize(), b"-5\n".to_vec());
    assert_eq!(RdbSize::new(i128::MIN).serialize(), format!("{}\n", i128::MIN).into_bytes());
}

#[test]
fn empty_store_snapshot() {
    let st = Storage::new();
    let mut want = HEADER.to_vec();
    want.extend_from_slice(b"0\n0\n");
    assert_eq!(encode_snapshot(&st, 0), want);
    let back = decode_snapshot(&want).unwrap();
    assert_eq!(back.len(), 0);
}

#[test]
fn snapshot_layout() {
    let mut st = Storage::new();
    st.set(StorageType::Inf("bar".to_string()), bulk("foo"));
    st.set(StorageType::Exp(Item { value: "v".to_string(), expires: 123 }), bulk("k"));
    let mut want = HEADER.to_vec();
    want.extend_from_slice(b"1\n1\n00\n3\rfoo\n3\rbar\nFC\n3\r123\n00\n1\rk\n1\rv\n");
    assert_eq!(encode_snapshot(&st, 100), want);
}

#[test]
fn snapshot_round_trip_keeps_live_records() {
    let mut st = Storage::new();
    st.set(StorageType::Inf("bar".to_string()), bulk("foo"));
    st.set(StorageType::Exp(Item { value: "later".to_string(), expires: 500 }), bulk("soon"));
    st.set(StorageType::Exp(Item { value: "old".to_string(), expires: 50 }), bulk("gone"));
    st.set(StorageType::Inf("multi\nline\rtext".to_string()), bulk("odd key\n"));
    let bytes = encode_snapshot(&st, 100);
    let mut back = decode_snapshot(&bytes).unwrap();
    assert_eq!(back.len(), 3);
    assert_eq!(text_of(back.get_at(bulk("foo"), 100)), Some("bar".to_string()));
    assert_eq!(text_of(back.get_at(bulk("soon"), 499)), Some("later".to_string()));
    assert_eq!(text_of(back.get_at(bulk("gone"), 0)), None);
    assert_eq!(text_of(back.get_at(bulk("odd key\n"), 0)), Some("multi\nline\rtext".to_string()));
    assert_eq!(text_of(back.get_at(bulk("soon"), 500)), None);
}

#[test]
fn snapshot_truncated_fails() {
    let mut st = Storage::new();
    st.set(StorageType::Inf("bar".to_string()), bulk("foo"));
    let bytes = encode_snapshot(&st, 0);
    for cut in 0..bytes.len() {
        assert!(decode_snapshot(&bytes[..cut]).is_none(), "cut at {}", cut);
    }
}

#[test]
fn snapshot_trailing_bytes_fail() {
    let st = Storage::new();
    let mut bytes = encode_snapshot(&st, 0);
    bytes.push(b'x');
    assert!(decode_snapshot(&bytes).is_none());
}

#[test]
fn snapshot_wrong_counters_fail() {
    let mut bytes = HEADER.to_vec();
    bytes.extend_from_slice(b"0\n1\n00\n1\rk\n1\rv\n");
    assert!(decode_snapshot(&bytes).is_none());
}

#[test]
fn snapshot_bad_header_fails() {
    let mut bytes = HEADER.to_vec();
    bytes[3] = b'X';
    bytes.extend_from_slice(b"0\n0\n");
    assert!(decode_snapshot(&bytes).is_none());
}

#[test]
fn snapshot_later_record_of_a_key_wins() {
    let mut bytes = HEADER.to_vec();
    bytes.extend_from_slice(b"2\n0\n00\n1\rk\n1\ra\n00\n1\rk\n1\rb\n");
    let mut st = decode_snapshot(&bytes).unwrap();
    assert_eq!(st.len(), 1);
    assert_eq!(text_of(st.get_at(bulk("k"), 0)), Some("b".to_string()));
}

#[test]
fn rdb_size_deserializes_to_its_text() {
    assert_eq!(RdbSize::new(3).deserialize().unwrap(), "3");
    assert_eq!(RdbSize::new(-120).deserialize().unwrap(), "-120");
    assert_eq!(RdbSize::new(i128::MAX).deserialize().unwrap(), i128::MAX.to_string());
}

#[test]
fn rdb_string_deserialize_inverts_serialize() {
    for text in ["abc", "", "line\nbreak\r", "caf\u{e9}"] {
        let bytes = RdbString::new(text.to_string()).serialize();
        let field = String::from_utf8(bytes).unwrap();
        assert_eq!(RdbString::new(field).deserialize().unwrap(), text);
    }
}

#[test]
fn rdb_string_deserialize_rejects_malformed_fields() {
    assert_eq!(RdbString::new("abc".to_string()).deserialize(), Err(RdbError::InvalidField));
    assert_eq!(RdbString::new("3\rab".to_string()).deserialize(), Err(RdbError::InvalidField));
    assert_eq!(RdbString::new("x\rab\n".to_string()).deserialize(), Err(RdbError::InvalidField));
    assert_eq!(RdbString::new("\rab\n".to_string()).deserialize(), Err(RdbError::InvalidField));
    assert_eq!(RdbString::new("4\rabc".to_string()).deserialize(), Err(RdbError::InvalidField));
    assert_eq!(RdbString::new("1\ra\nextra".to_string()).deserialize(), Err(RdbError::InvalidField));
}

#[test]
fn rdb_string_deserialize_accepts_a_line_without_its_line_feed() {
    assert_eq!(RdbString::new("3\rbar".to_string()).deserialize().unwrap(), "bar");
    assert_eq!(RdbString::new("0\r".to_string()).deserialize().unwrap(), "");
    assert_eq!(RdbString::new("3\rab\n".to_string()).deserialize().unwrap(), "ab\n");
    for text in ["abc", "", "caf\u{e9}", "x\ny"] {
        let mut bytes = RdbString::new(text.to_string()).serialize();
        bytes.pop();
        let line = String::from_utf8(bytes).unwrap();
        assert_eq!(RdbString::new(line).deserialize().unwrap(), text);
    }
}

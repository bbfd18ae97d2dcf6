use kvstore::resp::{frame_status, parse_resp, FrameStatus};
use kvstore::values::Value;

fn bulk(s: &str) -> Value {
    Value::BulkString(s.to_string())
}

#[test]
fn encode_simple_string() {
    assert_eq!(Value::SimpleString("OK".to_string()).encode(), b"+OK\r\n".to_vec());
}

#[test]
fn encode_bulk_string() {
    assert_eq!(bulk("bar").encode(), b"$3\r\nbar\r\n".to_vec());
}

#[test]
fn encode_empty_bulk_string() {
    assert_eq!(bulk("").encode(), b"$0\r\n\r\n".to_vec());
}

#[test]
fn encode_null() {
    assert_eq!(Value::Null.encode(), b"$-1\r\n".to_vec());
}

#[test]
fn encode_array() {
    let v = Value::Array(vec![bulk("GET"), bulk("foo")]);
    assert_eq!(v.encode(), b"*2\r\n$3\r\nGET\r\n$3\r\nfoo\r\n".to_vec());
}

#[test]
fn encode_nested_array() {
    let v = Value::Array(vec![Value::Array(vec![]), Value::Null, Value::SimpleString("x".to_string())]);
    assert_eq!(v.encode(), b"*3\r\n*0\r\n$-1\r\n+x\r\n".to_vec());
}

#[test]
fn bulk_length_counts_characters() {
    assert_eq!(bulk("h\u{e9}llo").serialize(), "$5\r\nh\u{e9}llo\r\n".to_string());
}

#[test]
fn serialize_matches_encode() {
    let v = Value::Array(vec![bulk("SET"), bulk("k"), Value::SimpleString("v".to_string())]);
    let text = Value::Array(vec![bulk("SET"), bulk("k"), Value::SimpleString("v".to_string())]).serialize();
    assert_eq!(text.as_bytes().to_vec(), v.encode());
}

#[test]
fn serialize_long_count() {
    let items: Vec<Value> = (0..12).map(|_| Value::Null).collect();
    let text = Value::Array(items).serialize();
    assert!(text.starts_with("*12\r\n$-1\r\n"));
}

#[test]
fn decode_simple_string() {
    let (v, n) = parse_resp(b"+PONG\r\n").unwrap();
    assert_eq!(n, 7);
    assert_eq!(v.encode(), b"+PONG\r\n".to_vec());
}

#[test]
fn decode_bulk_string() {
    let (v, n) = parse_resp(b"$3\r\nfoo\r\nextra").unwrap();
    assert_eq!(n, 9);
    match v {
        Value::BulkString(s) => assert_eq!(s, "foo"),
        other => panic!("unexpected {:?}", other),
    }
}

#[test]
fn decode_bulk_with_crlf_inside() {
    let (v, n) = parse_resp(b"$4\r\na\r\nb\r\n").unwrap();
    assert_eq!(n, 10);
    match v {
        Value::BulkString(s) => assert_eq!(s, "a\r\nb"),
        other => panic!("unexpected {:?}", other),
    }
}

#[test]
fn decode_null() {
    let (v, n) = parse_resp(b"$-1\r\n").unwrap();
    assert_eq!(n, 5);
    assert!(matches!(v, Value::Null));
}

#[test]
fn decode_array_consumes_its_elements_only() {
    let buf = b"*2\r\n$4\r\nECHO\r\n$2\r\nhi\r\n+next\r\n";
    let (v, n) = parse_resp(buf).unwrap();
    assert_eq!(n, 22);
    assert_eq!(v.encode(), b"*2\r\n$4\r\nECHO\r\n$2\r\nhi\r\n".to_vec());
}

#[test]
fn decode_round_trip_nested() {
    let v = Value::Array(vec![
        bulk("SET"),
        Value::Array(vec![Value::SimpleString("in".to_string()), Value::Null]),
        bulk(""),
    ]);
    let bytes = v.encode();
    let (back, n) = parse_resp(&bytes).unwrap();
    assert_eq!(n, bytes.len());
    assert_eq!(back.encode(), bytes);
}

#[test]
fn decode_round_trip_unicode_simple_string() {
    let v = Value::SimpleString("caf\u{e9}".to_string());
    let bytes = v.encode();
    let (back, n) = parse_resp(&bytes).unwrap();
    assert_eq!(n, bytes.len());
    match back {
        Value::SimpleString(s) => assert_eq!(s, "caf\u{e9}"),
        other => panic!("unexpected {:?}", other),
    }
}

#[test]
fn decode_empty_buffer() {
    assert!(parse_resp(b"").is_none());
}

#[test]
fn decode_unknown_tag() {
    assert!(parse_resp(b"-ERR\r\n").is_none());
}

#[test]
fn decode_incomplete_line() {
    assert!(parse_resp(b"+PON").is_none());
}

#[test]
fn decode_bulk_length_beyond_buffer() {
    assert!(parse_resp(b"$10\r\nabc\r\n").is_none());
}

#[test]
fn decode_bulk_missing_trailing_crlf() {
    assert!(parse_resp(b"$3\r\nabcde").is_none());
}

#[test]
fn decode_bad_length() {
    assert!(parse_resp(b"$x\r\nabc\r\n").is_none());
    assert!(parse_resp(b"$-2\r\n").is_none());
}

#[test]
fn decode_incomplete_array() {
    assert!(parse_resp(b"*2\r\n$3\r\nfoo\r\n").is_none());
}

#[test]
fn decode_array_count_beyond_buffer() {
    assert!(parse_resp(b"*99\r\n+a\r\n").is_none());
}

#[test]
fn decode_invalid_utf8() {
    assert!(parse_resp(b"+\xff\r\n").is_none());
}

#[test]
fn status_complete_frame() {
    match frame_status(b"+OK\r\nrest") {
        FrameStatus::Complete(v, n) => {
            assert_eq!(n, 5);
            assert_eq!(v.encode(), b"+OK\r\n".to_vec());
        },
        _ => panic!("expected a complete frame"),
    }
}

#[test]
fn status_incomplete_frames() {
    assert!(matches!(frame_status(b""), FrameStatus::Incomplete));
    assert!(matches!(frame_status(b"+PO"), FrameStatus::Incomplete));
    assert!(matches!(frame_status(b"$5\r\nab"), FrameStatus::Incomplete));
    assert!(matches!(frame_status(b"*2\r\n$3\r\nfoo\r\n"), FrameStatus::Incomplete));
    assert!(matches!(frame_status(b"$12"), FrameStatus::Incomplete));
}

#[test]
fn status_malformed_frames() {
    assert!(matches!(frame_status(b"-ERR\r\n"), FrameStatus::Malformed));
    assert!(matches!(frame_status(b"x"), FrameStatus::Malformed));
    assert!(matches!(frame_status(b"$abc\r\n"), FrameStatus::Malformed));
    assert!(matches!(frame_status(b"$-2\r\n"), FrameStatus::Malformed));
    assert!(matches!(frame_status(b"*-1\r\n"), FrameStatus::Malformed));
    assert!(matches!(frame_status(b"*\r\n"), FrameStatus::Malformed));
    assert!(matches!(frame_status(b"+\xff\r\n"), FrameStatus::Malformed));
}

use kvstore::config::Config;
use kvstore::dispatch::{respond, Reply};
use kvstore::helper_func::{extract_command, unpack_bulk_str, ValueError};
use kvstore::snapshot::{decode_snapshot, encode_snapshot};
use kvstore::storage::Storage;
use kvstore::values::Value;

fn bulk(s: &str) -> Value {
    Value::BulkString(s.to_string())
}

fn request(words: &[&str]) -> Value {
    Value::Array(words.iter().map(|w| bulk(w)).collect())
}

fn send(st: &mut Storage, cfg: &Config, words: &[&str], now: u64) -> Vec<u8> {
    match respond(st, cfg, request(words), now) {
        Reply::Send(v) => v.encode(),
        Reply::Save => b"SAVE".to_vec(),
    }
}

fn cfg() -> Config {
    Config::new("./", "dump.rdb")
}

#[test]
fn ping_answers_pong() {
    let mut st = Storage::new();
    assert_eq!(send(&mut st, &cfg(), &["PING"], 0), b"+PONG\r\n".to_vec());
    assert_eq!(send(&mut st, &cfg(), &["pInG"], 0), b"+PONG\r\n".to_vec());
}

#[test]
fn ping_as_simple_string() {
    let mut st = Storage::new();
    match respond(&mut st, &cfg(), Value::SimpleString("ping".to_string()), 0) {
        Reply::Send(v) => assert_eq!(v.encode(), b"+PONG\r\n".to_vec()),
        Reply::Save => panic!("unexpected save"),
    }
}

#[test]
fn echo_returns_argument() {
    let mut st = Storage::new();
    assert_eq!(send(&mut st, &cfg(), &["ECHO", "hey"], 0), b"$3\r\nhey\r\n".to_vec());
    assert_eq!(send(&mut st, &cfg(), &["echo"], 0), b"$-1\r\n".to_vec());
}

#[test]
fn set_then_get() {
    let mut st = Storage::new();
    assert_eq!(send(&mut st, &cfg(), &["SET", "foo", "bar"], 0), b"+OK\r\n".to_vec());
    assert_eq!(send(&mut st, &cfg(), &["GET", "foo"], 0), b"$3\r\nbar\r\n".to_vec());
    assert_eq!(send(&mut st, &cfg(), &["GET", "nope"], 0), b"$-1\r\n".to_vec());
}

#[test]
fn set_shapes_that_are_refused() {
    let mut st = Storage::new();
    assert_eq!(send(&mut st, &cfg(), &["SET", "foo"], 0), b"$-1\r\n".to_vec());
    assert_eq!(send(&mut st, &cfg(), &["SET", "foo", "bar", "EX", "10"], 0), b"$-1\r\n".to_vec());
    assert_eq!(send(&mut st, &cfg(), &["SET", "foo", "bar", "PX", "ten"], 0), b"$-1\r\n".to_vec());
    assert_eq!(send(&mut st, &cfg(), &["SET", "foo", "bar", "PX"], 0), b"$-1\r\n".to_vec());
    assert_eq!(st.len(), 0);
}

#[test]
fn set_expiry_saturates() {
    let mut st = Storage::new();
    assert_eq!(send(&mut st, &cfg(), &["SET", "k", "v", "px", "18446744073709551615"], 10), b"+OK\r\n".to_vec());
    assert_eq!(send(&mut st, &cfg(), &["GET", "k"], u64::MAX - 1), b"$1\r\nv\r\n".to_vec());
}

#[test]
fn config_get_dir_and_file() {
    let mut st = Storage::new();
    assert_eq!(send(&mut st, &cfg(), &["CONFIG", "get", "dir"], 0), b"*2\r\n$3\r\ndir\r\n$2\r\n./\r\n".to_vec());
    assert_eq!(
        send(&mut st, &cfg(), &["config", "get", "DBFILENAME"], 0),
        b"*2\r\n$10\r\ndbfilename\r\n$8\r\ndump.rdb\r\n".to_vec()
    );
    assert_eq!(send(&mut st, &cfg(), &["CONFIG", "set", "dir"], 0), b"$-1\r\n".to_vec());
    assert_eq!(send(&mut st, &cfg(), &["CONFIG", "get", "port"], 0), b"$-1\r\n".to_vec());
    assert_eq!(send(&mut st, &cfg(), &["CONFIG", "get"], 0), b"$-1\r\n".to_vec());
}

#[test]
fn config_get_in_upper_case() {
    let mut st = Storage::new();
    assert_eq!(send(&mut st, &cfg(), &["CONFIG", "GET", "dir"], 0), b"*2\r\n$3\r\ndir\r\n$2\r\n./\r\n".to_vec());
    assert_eq!(
        send(&mut st, &cfg(), &["config", "GeT", "dbFileName"], 0),
        b"*2\r\n$10\r\ndbfilename\r\n$8\r\ndump.rdb\r\n".to_vec()
    );
}

#[test]
fn config_snapshot_path() {
    assert_eq!(cfg().snapshot_path(), "./dump.rdb".to_string());
}

#[test]
fn keys_lists_matching_live_keys() {
    let mut st = Storage::new();
    send(&mut st, &cfg(), &["SET", "a1", "x"], 0);
    send(&mut st, &cfg(), &["SET", "a2", "y", "PX", "10"], 0);
    send(&mut st, &cfg(), &["SET", "b1", "z"], 0);
    assert_eq!(send(&mut st, &cfg(), &["KEYS", "a.*"], 20), b"*1\r\n$2\r\na1\r\n".to_vec());
    assert_eq!(send(&mut st, &cfg(), &["KEYS", "["], 20), b"$-1\r\n".to_vec());
    assert_eq!(send(&mut st, &cfg(), &["KEYS"], 20), b"$-1\r\n".to_vec());
}

#[test]
fn save_is_requested() {
    let mut st = Storage::new();
    assert_eq!(send(&mut st, &cfg(), &["save"], 0), b"SAVE".to_vec());
}

#[test]
fn unknown_command_is_null() {
    let mut st = Storage::new();
    assert_eq!(send(&mut st, &cfg(), &["FLUSHALL"], 0), b"$-1\r\n".to_vec());
}

#[test]
fn request_without_command_is_null() {
    let mut st = Storage::new();
    match respond(&mut st, &cfg(), Value::Array(vec![]), 0) {
        Reply::Send(v) => assert!(matches!(v, Value::Null)),
        Reply::Save => panic!("unexpected save"),
    }
}

#[test]
fn extract_command_splits_name_and_args() {
    let (name, args) = extract_command(request(&["SET", "a", "b"])).unwrap();
    assert_eq!(name, "SET");
    assert_eq!(args.len(), 2);
    let (name, args) = extract_command(Value::SimpleString("PING".to_string())).unwrap();
    assert_eq!(name, "PING");
    assert!(args.is_empty());
    assert_eq!(extract_command(Value::Null).unwrap_err(), ValueError::UnexpectedValue);
    assert_eq!(
        extract_command(Value::Array(vec![Value::Null])).unwrap_err(),
        ValueError::UnexpectedBulkString
    );
}

#[test]
fn unpack_bulk_str_accepts_only_bulk() {
    assert_eq!(unpack_bulk_str(bulk("x")).unwrap(), "x");
    assert_eq!(unpack_bulk_str(Value::SimpleString("x".to_string())).unwrap_err(), ValueError::UnexpectedBulkString);
}

#[test]
fn end_to_end_expiry_and_snapshot() {
    let config = cfg();
    let mut st = Storage::new();
    let t0: u64 = 1_000_000;
    assert_eq!(send(&mut st, &config, &["SET", "foo", "bar", "PX", "100"], t0), b"+OK\r\n".to_vec());
    assert_eq!(send(&mut st, &config, &["GET", "foo"], t0), b"$3\r\nbar\r\n".to_vec());
    assert_eq!(send(&mut st, &config, &["GET", "foo"], t0 + 150), b"$-1\r\n".to_vec());
    assert_eq!(send(&mut st, &config, &["SAVE"], t0 + 150), b"SAVE".to_vec());
    let bytes = encode_snapshot(&st, t0 + 150);
    let mut fresh = decode_snapshot(&bytes).unwrap();
    assert_eq!(send(&mut fresh, &config, &["GET", "foo"], t0 + 150), b"$-1\r\n".to_vec());
    assert_eq!(send(&mut fresh, &config, &["SET", "baz", "qux"], t0 + 200), b"+OK\r\n".to_vec());
    let bytes = encode_snapshot(&fresh, t0 + 300);
    let mut again = decode_snapshot(&bytes).unwrap();
    assert_eq!(send(&mut again, &config, &["GET", "baz"], t0 + 10_000), b"$3\r\nqux\r\n".to_vec());
}

#[test]
fn end_to_end_expiring_record_saved_before_expiry() {
    let config = cfg();
    let mut st = Storage::new();
    send(&mut st, &config, &["SET", "foo", "bar", "PX", "100"], 0);
    let bytes = encode_snapshot(&st, 50);
    let mut fresh = decode_snapshot(&bytes).unwrap();
    assert_eq!(send(&mut fresh, &config, &["GET", "foo"], 99), b"$3\r\nbar\r\n".to_vec());
    assert_eq!(send(&mut fresh, &config, &["GET", "foo"], 100), b"$-1\r\n".to_vec());
}

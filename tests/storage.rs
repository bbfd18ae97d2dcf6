use kvstore::storage::{Item, Storage, StorageType};
use kvstore::values::Value;

fn bulk(s: &str) -> Value {
    Value::BulkString(s.to_string())
}

fn text_of(v: Value) -> Option<String> {
    match v {
        Value::BulkString(s) => Some(s),
        Value::Null => None,
        other => panic!("unexpected {:?}", other),
    }
}

fn expiring(v: &str, at: u64) -> StorageType {
    StorageType::Exp(Item { value: v.to_string(), expires: at })
}

fn permanent(v: &str) -> StorageType {
    StorageType::Inf(v.to_string())
}

fn sorted_keys(v: Value) -> Vec<String> {
    match v {
        Value::Array(items) => {
            let mut keys: Vec<String> = items
                .into_iter()
                .map(|i| match i {
                    Value::BulkString(s) => s,
                    other => panic!("unexpected {:?}", other),
                })
                .collect();
            keys.sort();
            keys
        },
        other => panic!("unexpected {:?}", other),
    }
}

#[test]
fn set_acknowledges_with_ok() {
    let mut st = Storage::new();
    let r = st.set(permanent("bar"), bulk("foo"));
    assert_eq!(r.encode(), b"+OK\r\n".to_vec());
    assert_eq!(st.len(), 1);
}

#[test]
fn set_with_non_bulk_key_stores_nothing() {
    let mut st = Storage::new();
    let r = st.set(permanent("bar"), Value::SimpleString("foo".to_string()));
    assert!(matches!(r, Value::Null));
    assert_eq!(st.len(), 0);
}

#[test]
fn get_permanent() {
    let mut st = Storage::new();
    st.set(permanent("bar"), bulk("foo"));
    assert_eq!(text_of(st.get_at(bulk("foo"), u64::MAX)), Some("bar".to_string()));
}

#[test]
fn get_missing_key() {
    let mut st = Storage::new();
    assert_eq!(text_of(st.get_at(bulk("nope"), 0)), None);
}

#[test]
fn get_non_bulk_key() {
    let mut st = Storage::new();
    st.set(permanent("bar"), bulk("foo"));
    assert!(matches!(st.get_at(Value::Null, 0), Value::Null));
    assert_eq!(st.len(), 1);
}

#[test]
fn expiring_record_lives_until_its_time() {
    let mut st = Storage::new();
    st.set(expiring("v", 1000), bulk("k"));
    assert_eq!(text_of(st.get_at(bulk("k"), 999)), Some("v".to_string()));
    assert_eq!(st.len(), 1);
    assert_eq!(text_of(st.get_at(bulk("k"), 1000)), None);
    assert_eq!(st.len(), 0);
    assert_eq!(text_of(st.get_at(bulk("k"), 5000)), None);
}

#[test]
fn overwrite_keeps_only_the_second_write() {
    let mut st = Storage::new();
    st.set(expiring("v1", 10), bulk("k"));
    st.set(permanent("v2"), bulk("k"));
    assert_eq!(st.len(), 1);
    assert_eq!(text_of(st.get_at(bulk("k"), 100)), Some("v2".to_string()));
}

#[test]
fn overwrite_with_expiring_record() {
    let mut st = Storage::new();
    st.set(permanent("v1"), bulk("k"));
    st.set(expiring("v2", 50), bulk("k"));
    assert_eq!(st.len(), 1);
    assert_eq!(text_of(st.get_at(bulk("k"), 49)), Some("v2".to_string()));
    assert_eq!(text_of(st.get_at(bulk("k"), 50)), None);
}

#[test]
fn keys_skip_and_evict_expired() {
    let mut st = Storage::new();
    st.set(permanent("x"), bulk("a1"));
    st.set(expiring("y", 100), bulk("a2"));
    st.set(permanent("z"), bulk("b1"));
    let r = st.keys_at(bulk("a.*"), 200);
    assert_eq!(sorted_keys(r), vec!["a1".to_string()]);
    assert_eq!(st.len(), 2);
}

#[test]
fn keys_match_all() {
    let mut st = Storage::new();
    st.set(permanent("x"), bulk("a1"));
    st.set(expiring("y", 100), bulk("a2"));
    st.set(permanent("z"), bulk("b1"));
    let r = st.keys_at(bulk(".*"), 50);
    assert_eq!(sorted_keys(r), vec!["a1".to_string(), "a2".to_string(), "b1".to_string()]);
}

#[test]
fn keys_without_matches_is_empty_array() {
    let mut st = Storage::new();
    st.set(permanent("x"), bulk("a1"));
    let r = st.keys_at(bulk("^zz$"), 0);
    assert_eq!(r.encode(), b"*0\r\n".to_vec());
}

#[test]
fn keys_invalid_pattern_is_null() {
    let mut st = Storage::new();
    st.set(expiring("y", 1), bulk("a2"));
    let r = st.keys_at(bulk("("), 100);
    assert!(matches!(r, Value::Null));
    assert_eq!(st.len(), 1);
}

#[test]
fn evict_expired_removes_only_expired() {
    let mut st = Storage::new();
    st.set(expiring("a", 5), bulk("k1"));
    st.set(expiring("b", 15), bulk("k2"));
    st.set(permanent("c"), bulk("k3"));
    st.evict_expired(10);
    assert_eq!(st.len(), 2);
    assert_eq!(text_of(st.get_at(bulk("k2"), 10)), Some("b".to_string()));
}

#[test]
fn clock_reads_use_current_time() {
    let mut st = Storage::new();
    st.set(permanent("p"), bulk("k"));
    st.set(expiring("gone", 1), bulk("old"));
    assert_eq!(text_of(st.get(bulk("k"))), Some("p".to_string()));
    assert_eq!(text_of(st.get(bulk("old"))), None);
    assert_eq!(sorted_keys(st.keys(bulk("k"))), vec!["k".to_string()]);
}

#[test]
fn clock_is_past_the_epoch() {
    assert!(kvstore::clock::now_millis() > 1_000_000_000_000);
}

#[test]
fn clock_readings_before_the_epoch_are_zero() {
    assert_eq!(kvstore::clock::clock_to_time(-5), 0);
    assert_eq!(kvstore::clock::clock_to_time(0), 0);
    assert_eq!(kvstore::clock::clock_to_time(1234), 1234);
}

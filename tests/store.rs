use tiny_redis::store::Store;
use tiny_redis::value::Value;

fn bulk(s: &str) -> Value {
    Value::String(s.as_bytes().to_vec())
}

fn key(s: &str) -> Vec<u8> {
    s.as_bytes().to_vec()
}

#[test]
fn get_after_set_is_repeatable() {
    let mut store = Store::new();
    store.set(key("a"), bulk("1"), None);
    assert_eq!(store.get(&key("a"), 0), Some(bulk("1")));
    assert_eq!(store.get(&key("a"), 1_000_000), Some(bulk("1")));
    assert_eq!(store.get(&key("a"), 5), Some(bulk("1")));
}

#[test]
fn missing_key_reads_nothing() {
    let store = Store::new();
    assert_eq!(store.get(&key("nope"), 0), None);
}

#[test]
fn last_write_wins() {
    let mut store = Store::new();
    store.set(key("a"), bulk("v1"), Some(3));
    store.set(key("a"), bulk("v2"), None);
    assert_eq!(store.get(&key("a"), 10), Some(bulk("v2")));
}

#[test]
fn expired_entry_reads_nothing_but_stays_until_swept() {
    let mut store = Store::new();
    store.set(key("a"), bulk("v"), Some(101));
    assert_eq!(store.get(&key("a"), 100), Some(bulk("v")));
    assert_eq!(store.get(&key("a"), 101), None);
    assert_eq!(store.get(&key("a"), 102), None);
    assert!(store.contains_key(&key("a")));
}

#[test]
fn sweep_removes_expired_entries_only() {
    let mut store = Store::new();
    store.set(key("gone"), bulk("v"), Some(101));
    store.set(key("later"), bulk("w"), Some(500));
    store.set(key("always"), bulk("x"), None);
    store.sweep(102);
    assert!(!store.contains_key(&key("gone")));
    assert!(store.contains_key(&key("later")));
    assert!(store.contains_key(&key("always")));
    assert_eq!(store.get(&key("always"), 102), Some(bulk("x")));
}

#[test]
fn many_writes_to_one_key_leave_one_entry() {
    let mut store = Store::new();
    for i in 0..20i64 {
        store.set(key("k"), Value::Int(i), None);
    }
    store.set(key("other"), Value::Int(99), None);
    assert_eq!(store.get(&key("k"), 0), Some(Value::Int(19)));
    store.sweep(0);
    assert!(store.contains_key(&key("k")));
    assert_eq!(store.get(&key("other"), 0), Some(Value::Int(99)));
}

#[test]
fn read_copies_the_stored_value() {
    let mut store = Store::new();
    store.set(key("a"), Value::Array(1, vec![bulk("x")]), None);
    let mut copy = store.get(&key("a"), 0).unwrap();
    if let Value::Array(_, items) = &mut copy {
        items.push(bulk("y"));
    }
    assert_eq!(store.get(&key("a"), 0), Some(Value::Array(1, vec![bulk("x")])));
}

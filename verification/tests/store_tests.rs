use kvs::KvError;
use kvs::KvStore;

fn s(x: &str) -> String {
    String::from(x)
}

#[test]
fn get_on_empty_store() {
    let mut store = KvStore::new();
    assert_eq!(store.get(s("missing")), Ok(None));
}

#[test]
fn set_then_get() {
    let mut store = KvStore::new();
    store.set(s("key1"), s("value1")).unwrap();
    assert_eq!(store.get(s("key1")), Ok(Some(s("value1"))));
}

#[test]
fn second_set_wins() {
    let mut store = KvStore::new();
    store.set(s("k"), s("v1")).unwrap();
    store.set(s("k"), s("v2")).unwrap();
    assert_eq!(store.get(s("k")), Ok(Some(s("v2"))));
}

#[test]
fn set_returns_previous_value() {
    let mut store = KvStore::new();
    assert_eq!(store.set(s("k"), s("v1")), Ok(None));
    assert_eq!(store.set(s("k"), s("v2")), Ok(Some(s("v1"))));
    assert_eq!(store.set(s("k"), s("v3")), Ok(Some(s("v2"))));
}

#[test]
fn remove_makes_key_not_found() {
    let mut store = KvStore::new();
    store.set(s("k"), s("v")).unwrap();
    assert_eq!(store.remove(s("k")), Ok(s("k")));
    assert_eq!(store.get(s("k")), Ok(None));
}

#[test]
fn remove_of_never_set_key_fails() {
    let mut store = KvStore::new();
    assert_eq!(store.remove(s("k")), Err(KvError::KeyNotFound));
}

#[test]
fn remove_of_absent_key_appends_nothing() {
    let mut store = KvStore::new();
    store.set(s("other"), s("v")).unwrap();
    let before = store.log_size();
    assert_eq!(store.remove(s("k")), Err(KvError::KeyNotFound));
    assert_eq!(store.log_size(), before);
}

#[test]
fn remove_twice_fails_the_second_time() {
    let mut store = KvStore::new();
    store.set(s("k"), s("v")).unwrap();
    assert_eq!(store.remove(s("k")), Ok(s("k")));
    assert_eq!(store.remove(s("k")), Err(KvError::KeyNotFound));
}

#[test]
fn scenario_two_keys_one_removed() {
    let mut store = KvStore::new();
    store.set(s("a"), s("1")).unwrap();
    store.set(s("b"), s("2")).unwrap();
    assert_eq!(store.get(s("a")), Ok(Some(s("1"))));
    assert_eq!(store.remove(s("a")), Ok(s("a")));
    assert_eq!(store.get(s("a")), Ok(None));
    assert_eq!(store.get(s("b")), Ok(Some(s("2"))));
}

#[test]
fn same_length_update_keeps_log_size() {
    let mut store = KvStore::new();
    store.set(s("k"), s("aaa")).unwrap();
    let size = store.log_size();
    store.set(s("k"), s("bbb")).unwrap();
    assert_eq!(store.log_size(), size);
    assert_eq!(store.get(s("k")), Ok(Some(s("bbb"))));
}

#[test]
fn keys_with_escaped_characters() {
    let mut store = KvStore::new();
    store.set(s("line\nbreak"), s("tab\there")).unwrap();
    store.set(s("quote\"key"), s("back\\slash")).unwrap();
    assert_eq!(store.get(s("line\nbreak")), Ok(Some(s("tab\there"))));
    assert_eq!(store.get(s("quote\"key")), Ok(Some(s("back\\slash"))));
}

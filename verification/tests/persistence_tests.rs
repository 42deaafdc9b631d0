use kvs::KvError;
use kvs::KvStore;

fn s(x: &str) -> String {
    String::from(x)
}

fn chars(x: &str) -> Vec<char> {
    x.chars().collect()
}

/// The length of one set record for an ASCII key and value with no escaped
/// characters: the fixed syntax plus the key, the value, and the newline.
fn set_record_len(key: &str, value: &str) -> usize {
    "{\"SetData\":{\"key\":\"\",\"value\":\"\"}}\n".len() + key.len() + value.len()
}

#[test]
fn reopen_sees_written_value() {
    let mut store = KvStore::new();
    store.set(s("k"), s("v")).unwrap();
    let saved = store.into_log();
    let mut reopened = KvStore::open(saved).unwrap();
    assert_eq!(reopened.get(s("k")), Ok(Some(s("v"))));
}

#[test]
fn reopen_sees_removal() {
    let mut store = KvStore::new();
    store.set(s("k"), s("v")).unwrap();
    store.remove(s("k")).unwrap();
    let saved = store.into_log();
    let mut reopened = KvStore::open(saved).unwrap();
    assert_eq!(reopened.get(s("k")), Ok(None));
}

#[test]
fn reopen_is_idempotent() {
    let mut store = KvStore::new();
    store.set(s("a"), s("1")).unwrap();
    store.set(s("b"), s("2")).unwrap();
    store.remove(s("a")).unwrap();
    let saved = store.into_log();
    let mut first = KvStore::open(saved.clone()).unwrap();
    let mut second = KvStore::open(saved.clone()).unwrap();
    for key in ["a", "b"] {
        assert_eq!(first.get(s(key)), second.get(s(key)));
    }
    let mut third = KvStore::open(saved).unwrap();
    assert_eq!(third.get(s("b")), Ok(Some(s("2"))));
    assert_eq!(third.get(s("a")), Ok(None));
}

#[test]
fn compaction_keeps_latest_value_and_bounds_log() {
    let mut store = KvStore::new();
    for i in 1..20 {
        let value = "x".repeat(i);
        store.set(s("k"), value.clone()).unwrap();
        assert_eq!(store.get(s("k")), Ok(Some(value.clone())));
        // every length change rewrites the log down to the one live record
        assert_eq!(store.log_size(), set_record_len("k", &value));
    }
}

#[test]
fn compaction_drops_stale_records_of_other_keys() {
    let mut store = KvStore::new();
    store.set(s("a"), s("1")).unwrap();
    store.set(s("b"), s("2")).unwrap();
    store.set(s("a"), s("longer")).unwrap();
    assert_eq!(
        store.log_size(),
        set_record_len("a", "longer") + set_record_len("b", "2")
    );
    assert_eq!(store.get(s("a")), Ok(Some(s("longer"))));
    assert_eq!(store.get(s("b")), Ok(Some(s("2"))));
}

#[test]
fn compaction_then_reopen() {
    let mut store = KvStore::new();
    store.set(s("k"), s("short")).unwrap();
    store.set(s("k"), s("a-considerably-longer-value")).unwrap();
    let saved = store.into_log();
    let mut reopened = KvStore::open(saved).unwrap();
    assert_eq!(
        reopened.get(s("k")),
        Ok(Some(s("a-considerably-longer-value")))
    );
}

#[test]
fn open_of_empty_content_is_an_empty_store() {
    let mut store = KvStore::open(Vec::new()).unwrap();
    assert_eq!(store.get(s("k")), Ok(None));
    assert_eq!(store.log_size(), 0);
}

#[test]
fn open_replays_set_and_remove_in_order() {
    let mut text = String::new();
    text.push_str("{\"SetData\":{\"key\":\"a\",\"value\":\"1\"}}\n");
    text.push_str("{\"SetData\":{\"key\":\"b\",\"value\":\"2\"}}\n");
    text.push_str("{\"RmData\":{\"key\":\"a\"}}\n");
    text.push_str("{\"SetData\":{\"key\":\"b\",\"value\":\"3\"}}\n");
    let content = chars(&text);
    let mut store = KvStore::open(content).unwrap();
    assert_eq!(store.get(s("a")), Ok(None));
    assert_eq!(store.get(s("b")), Ok(Some(s("3"))));
}

#[test]
fn open_treats_remove_of_unknown_key_as_noop() {
    let content = chars("{\"RmData\":{\"key\":\"x\"}}\n");
    let mut store = KvStore::open(content).unwrap();
    assert_eq!(store.get(s("x")), Ok(None));
}

#[test]
fn open_rejects_garbage() {
    assert!(matches!(
        KvStore::open(chars("not a record\n")),
        Err(KvError::CorruptLog)
    ));
}

#[test]
fn open_rejects_unterminated_tail() {
    let content = chars("{\"SetData\":{\"key\":\"a\",\"value\":\"1\"}}\n{\"SetData\":{\"key\":\"b\"");
    assert!(matches!(KvStore::open(content), Err(KvError::CorruptLog)));
}

#[test]
fn persisted_log_is_the_records_verbatim() {
    let mut store = KvStore::new();
    store.set(s("a"), s("1")).unwrap();
    store.remove(s("a")).unwrap();
    let saved: String = store.into_log().iter().collect();
    assert_eq!(
        saved,
        "{\"SetData\":{\"key\":\"a\",\"value\":\"1\"}}\n{\"RmData\":{\"key\":\"a\"}}\n"
    );
}

#[test]
fn default_store_is_empty() {
    let mut store: KvStore = Default::default();
    assert_eq!(store.get(s("k")), Ok(None));
    assert_eq!(store.log_size(), 0);
}

#[test]
fn reopen_with_escaped_keys() {
    let mut store = KvStore::new();
    store.set(s("line\nbreak"), s("v\n1")).unwrap();
    store.set(s("quote\"key"), s("v\"2")).unwrap();
    let saved = store.into_log();
    let mut reopened = KvStore::open(saved).unwrap();
    assert_eq!(reopened.get(s("line\nbreak")), Ok(Some(s("v\n1"))));
    assert_eq!(reopened.get(s("quote\"key")), Ok(Some(s("v\"2"))));
}

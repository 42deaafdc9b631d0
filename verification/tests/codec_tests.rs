use kvs::codec::{decode, encode};
use kvs::KvError;
use kvs::OptData;

fn chars(s: &str) -> Vec<char> {
    s.chars().collect()
}

fn text(v: &[char]) -> String {
    v.iter().collect()
}

#[test]
fn encode_set_is_one_json_line() {
    let rec = encode(&OptData::SetData {
        key: String::from("a"),
        value: String::from("1"),
    });
    assert_eq!(text(&rec), "{\"SetData\":{\"key\":\"a\",\"value\":\"1\"}}\n");
}

#[test]
fn encode_rm_is_one_json_line() {
    let rec = encode(&OptData::RmData {
        key: String::from("a"),
    });
    assert_eq!(text(&rec), "{\"RmData\":{\"key\":\"a\"}}\n");
}

#[test]
fn round_trip_set() {
    let rec = encode(&OptData::SetData {
        key: String::from("some key"),
        value: String::from("some value"),
    });
    match decode(&rec) {
        Ok(OptData::SetData { key, value }) => {
            assert_eq!(key, "some key");
            assert_eq!(value, "some value");
        }
        other => panic!("unexpected: {:?}", other),
    }
}

#[test]
fn round_trip_rm() {
    let rec = encode(&OptData::RmData {
        key: String::from("k1"),
    });
    match decode(&rec) {
        Ok(OptData::RmData { key }) => assert_eq!(key, "k1"),
        other => panic!("unexpected: {:?}", other),
    }
}

#[test]
fn round_trip_get() {
    let rec = encode(&OptData::GetData {
        key: String::from("k1"),
    });
    match decode(&rec) {
        Ok(OptData::GetData { key }) => assert_eq!(key, "k1"),
        other => panic!("unexpected: {:?}", other),
    }
}

#[test]
fn round_trip_escapes() {
    let key = "a \"quoted\" key";
    let value = "line one\nline two\tback\\slash\r\u{8}\u{c}";
    let rec = encode(&OptData::SetData {
        key: String::from(key),
        value: String::from(value),
    });
    match decode(&rec) {
        Ok(OptData::SetData { key: k, value: v }) => {
            assert_eq!(k, key);
            assert_eq!(v, value);
        }
        other => panic!("unexpected: {:?}", other),
    }
}

#[test]
fn escaped_record_stays_one_line() {
    let rec = encode(&OptData::SetData {
        key: String::from("a\nb"),
        value: String::from("c\nd"),
    });
    let s = text(&rec);
    assert_eq!(s, "{\"SetData\":{\"key\":\"a\\nb\",\"value\":\"c\\nd\"}}\n");
    assert_eq!(s.matches('\n').count(), 1);
}

#[test]
fn round_trip_empty_key_and_value() {
    let rec = encode(&OptData::SetData {
        key: String::new(),
        value: String::new(),
    });
    assert_eq!(text(&rec), "{\"SetData\":{\"key\":\"\",\"value\":\"\"}}\n");
    match decode(&rec) {
        Ok(OptData::SetData { key, value }) => {
            assert_eq!(key, "");
            assert_eq!(value, "");
        }
        other => panic!("unexpected: {:?}", other),
    }
}

#[test]
fn round_trip_unicode() {
    let rec = encode(&OptData::SetData {
        key: String::from("clé"),
        value: String::from("väärde ☃"),
    });
    match decode(&rec) {
        Ok(OptData::SetData { key, value }) => {
            assert_eq!(key, "clé");
            assert_eq!(value, "väärde ☃");
        }
        other => panic!("unexpected: {:?}", other),
    }
}

#[test]
fn decode_rejects_garbage() {
    assert!(matches!(decode(&chars("garbage\n")), Err(KvError::CorruptLog)));
}

#[test]
fn decode_rejects_missing_terminator() {
    let mut rec = encode(&OptData::SetData {
        key: String::from("a"),
        value: String::from("1"),
    });
    rec.pop();
    assert!(matches!(decode(&rec), Err(KvError::CorruptLog)));
}

#[test]
fn decode_rejects_truncated_record() {
    assert!(matches!(decode(&chars("{\"SetData\":{\"key\":\"a\",\"val")), Err(KvError::CorruptLog)));
}

#[test]
fn decode_rejects_unknown_escape() {
    assert!(matches!(decode(&chars("{\"SetData\":{\"key\":\"\\x\",\"value\":\"1\"}}\n")), Err(KvError::CorruptLog)));
}

#[test]
fn decode_rejects_bare_control_character() {
    assert!(matches!(decode(&chars("{\"SetData\":{\"key\":\"a\tb\",\"value\":\"1\"}}\n")), Err(KvError::CorruptLog)));
}

#[test]
fn decode_rejects_trailing_bytes() {
    assert!(matches!(decode(&chars("{\"RmData\":{\"key\":\"a\"}}\nx")), Err(KvError::CorruptLog)));
}

#[test]
fn decode_rejects_unknown_tag() {
    assert!(matches!(decode(&chars("{\"PutData\":{\"key\":\"a\"}}\n")), Err(KvError::CorruptLog)));
}

use gelf_reader::gelf::{
    to_gelf, GelfData, GelfDataWrapper, GelfLevel, ParseError, ValidationError,
};
use gelf_reader::json::{distinct_keys, JsonValue};
use gelf_reader::pool::DispatchPool;

fn text(s: &str) -> JsonValue {
    JsonValue::Str(s.to_string())
}

fn number(s: &str) -> JsonValue {
    JsonValue::Number(s.to_string())
}

fn doc(members: &[(&str, JsonValue)]) -> Vec<(String, JsonValue)> {
    members.iter().map(|(k, v)| (k.to_string(), clone_tree(v))).collect()
}

fn clone_tree(v: &JsonValue) -> JsonValue {
    match v {
        JsonValue::Null => JsonValue::Null,
        JsonValue::Bool(b) => JsonValue::Bool(*b),
        JsonValue::Number(t) => JsonValue::Number(t.clone()),
        JsonValue::Str(s) => JsonValue::Str(s.clone()),
        JsonValue::Array(items) => JsonValue::Array(items.iter().map(clone_tree).collect()),
        JsonValue::Object(m) => {
            JsonValue::Object(m.iter().map(|(k, v)| (k.clone(), clone_tree(v))).collect())
        }
    }
}

fn from_serde(v: serde_json::Value) -> JsonValue {
    match v {
        serde_json::Value::Null => JsonValue::Null,
        serde_json::Value::Bool(b) => JsonValue::Bool(b),
        serde_json::Value::Number(n) => JsonValue::Number(n.to_string()),
        serde_json::Value::String(s) => JsonValue::Str(s),
        serde_json::Value::Array(a) => JsonValue::Array(a.into_iter().map(from_serde).collect()),
        serde_json::Value::Object(m) => {
            JsonValue::Object(m.into_iter().map(|(k, v)| (k, from_serde(v))).collect())
        }
    }
}

fn get<'a>(members: &'a [(String, JsonValue)], name: &str) -> Option<&'a JsonValue> {
    members.iter().find(|(k, _)| k == name).map(|(_, v)| v)
}

fn valid() -> Vec<(String, JsonValue)> {
    doc(&[
        ("host", text("example.org")),
        ("level", number("3")),
        ("short_message", text("m")),
        ("timestamp", number("1.5")),
        ("version", text("1.1")),
    ])
}

fn missing(name: &str) -> ValidationError {
    ValidationError::MissingField(name.to_string())
}

#[test]
fn test_gelf() {
    let r = to_gelf(doc(&[
        ("version", text("1.1")),
        ("host", text("example.org")),
        ("short_message", text("A short message")),
        ("_some_info", text("foo")),
        ("level", number("5")),
        ("timestamp", number("1582213226")),
    ]))
    .unwrap();

    assert_eq!(r.version, "1.1");
    assert_eq!(r.host, "example.org");
    assert_eq!(r.short_message, "A short message");
    assert_eq!(get(&r.meta, "some_info"), Some(&text("foo")));
    assert!(matches!(r.level, GelfLevel::Notice))
}

#[test]
fn test_actor() {
    let bytes = br#"{
                    "version":"1.1",
                    "host":"example.org",
                    "short_message":"A short message",
                    "level":5,
                    "_some_info":"foo",
                    "timestamp":1582213226
                }"#
    .to_vec();
    let mut pool = DispatchPool::new(1);
    let (id, worker) = pool.submit();
    assert_eq!(worker, Some(0));
    let decoded: serde_json::Value = serde_json::from_slice(&bytes).unwrap();
    let r = GelfDataWrapper::from_value(from_serde(decoded)).unwrap();
    let (done, next) = pool.complete(0);
    assert_eq!(done, id);
    assert_eq!(next, None);

    assert_eq!(r.data.version, "1.1");
    assert_eq!(r.data.host, "example.org");
    assert_eq!(r.data.short_message, "A short message");
    assert_eq!(get(&r.data.meta, "some_info"), Some(&text("foo")));
    assert!(matches!(r.data.level, GelfLevel::Notice))
}

#[test]
fn valid_message_keeps_mandatory_values() {
    let r = to_gelf(valid()).unwrap();
    assert_eq!(r.host, "example.org");
    assert_eq!(r.level, GelfLevel::Error);
    assert_eq!(r.short_message, "m");
    assert_eq!(r.timestamp, "1.5");
    assert_eq!(r.timestamp.parse::<f64>().unwrap(), 1.5f64);
    assert_eq!(r.version, "1.1");
    assert!(r.meta.is_empty());
    assert!(r.mechanism_data.is_empty());
}

#[test]
fn underscore_fields_go_to_meta_only() {
    let mut d = valid();
    d.push(("_user".to_string(), number("42")));
    d.push(("_".to_string(), JsonValue::Null));
    d.push(("_nested".to_string(), JsonValue::Array(vec![JsonValue::Bool(true)])));
    let r = to_gelf(d).unwrap();
    assert_eq!(get(&r.meta, "user"), Some(&number("42")));
    assert_eq!(get(&r.meta, ""), Some(&JsonValue::Null));
    assert_eq!(get(&r.meta, "nested"), Some(&JsonValue::Array(vec![JsonValue::Bool(true)])));
    assert_eq!(r.meta.len(), 3);
    assert!(get(&r.mechanism_data, "_user").is_none());
    assert!(r.mechanism_data.is_empty());
}

#[test]
fn other_fields_go_to_mechanism_data() {
    let mut d = valid();
    d.push(("facility".to_string(), text("kern")));
    d.push(("".to_string(), JsonValue::Bool(false)));
    d.push(("line".to_string(), number("7")));
    let r = to_gelf(d).unwrap();
    assert_eq!(get(&r.mechanism_data, "facility"), Some(&text("kern")));
    assert_eq!(get(&r.mechanism_data, ""), Some(&JsonValue::Bool(false)));
    assert_eq!(get(&r.mechanism_data, "line"), Some(&number("7")));
    assert_eq!(r.mechanism_data.len(), 3);
    assert!(get(&r.mechanism_data, "host").is_none());
    assert!(r.meta.is_empty());
}

#[test]
fn canonical_form_classifies_back_to_the_same_record() {
    let mut d = valid();
    d.push(("_host".to_string(), text("x")));
    d.push(("_a".to_string(), JsonValue::Object(vec![("b".to_string(), number("1"))])));
    d.push(("extra".to_string(), JsonValue::Null));
    let r = to_gelf(d).unwrap();
    let copy = GelfData {
        host: r.host.clone(),
        level: r.level,
        short_message: r.short_message.clone(),
        timestamp: r.timestamp.clone(),
        version: r.version.clone(),
        meta: r.meta.iter().map(|(k, v)| (k.clone(), clone_tree(v))).collect(),
        mechanism_data: r.mechanism_data.iter().map(|(k, v)| (k.clone(), clone_tree(v))).collect(),
    };
    let c = r.into_canonical();
    assert_eq!(c[0], ("host".to_string(), text("example.org")));
    assert_eq!(c[1], ("level".to_string(), number("3")));
    assert_eq!(c[5], ("_host".to_string(), text("x")));
    assert_eq!(c[7], ("extra".to_string(), JsonValue::Null));
    assert_eq!(c.len(), 8);
    assert_eq!(to_gelf(c).unwrap(), copy);
}

#[test]
fn missing_version_is_reported() {
    let r = to_gelf(doc(&[
        ("host", text("a")),
        ("level", number("3")),
        ("short_message", text("m")),
        ("timestamp", number("1.0")),
    ]));
    assert_eq!(r, Err(missing("version")));
}

#[test]
fn first_missing_field_is_reported() {
    assert_eq!(to_gelf(Vec::new()), Err(missing("host")));
    let r = to_gelf(doc(&[("host", text("a")), ("level", number("3"))]));
    assert_eq!(r, Err(missing("short_message")));
    let r = to_gelf(doc(&[("host", text("a"))]));
    assert_eq!(r, Err(missing("level")));
    let r = to_gelf(doc(&[("host", text("a")), ("level", number("3")), ("short_message", text("m"))]));
    assert_eq!(r, Err(missing("timestamp")));
}

#[test]
fn notice_level_is_invalid() {
    let mut d = valid();
    d.retain(|(k, _)| k != "level");
    d.push(("level".to_string(), text("notice")));
    assert_eq!(to_gelf(d), Err(ValidationError::InvalidValue("level".to_string())));
}

#[test]
fn level_forms() {
    for (v, want) in [
        (number("0"), Some(GelfLevel::Emergency)),
        (number("7"), Some(GelfLevel::Debug)),
        (text("6"), Some(GelfLevel::Informational)),
        (number("8"), None),
        (text("08"), None),
        (number("5.0"), None),
        (text("Notice"), None),
        (JsonValue::Bool(true), None),
        (JsonValue::Null, None),
    ] {
        let mut d = valid();
        d.retain(|(k, _)| k != "level");
        d.push(("level".to_string(), v));
        match want {
            Some(l) => assert_eq!(to_gelf(d).unwrap().level, l),
            None => assert_eq!(to_gelf(d), Err(ValidationError::InvalidValue("level".to_string()))),
        }
    }
}

#[test]
fn wrong_kinds_are_type_mismatches() {
    let mismatch = |name: &str, kind: &str| {
        ValidationError::TypeMismatch(name.to_string(), kind.to_string())
    };
    let mut d = valid();
    d[0].1 = number("1");
    assert_eq!(to_gelf(d), Err(mismatch("host", "string")));
    let mut d = valid();
    d[2].1 = JsonValue::Null;
    assert_eq!(to_gelf(d), Err(mismatch("short_message", "string")));
    let mut d = valid();
    d[3].1 = text("1.5");
    assert_eq!(to_gelf(d), Err(mismatch("timestamp", "number")));
    let mut d = valid();
    d[4].1 = JsonValue::Array(Vec::new());
    assert_eq!(to_gelf(d), Err(mismatch("version", "string")));
}

#[test]
fn underscore_host_does_not_shadow_host() {
    let mut d = valid();
    d.retain(|(k, _)| k != "host");
    d.push(("_host".to_string(), text("x")));
    d.push(("host".to_string(), text("y")));
    let r = to_gelf(d).unwrap();
    assert_eq!(r.host, "y");
    assert_eq!(get(&r.meta, "host"), Some(&text("x")));
}

#[test]
fn non_objects_are_decode_errors() {
    for v in [JsonValue::Null, number("1"), text("{}"), JsonValue::Array(Vec::new())] {
        assert!(matches!(GelfDataWrapper::from_value(v), Err(ParseError::Decode(_))));
    }
    let mut d = valid();
    d.push(("host".to_string(), text("again")));
    assert!(!distinct_keys(&d));
    assert!(matches!(GelfDataWrapper::from_value(JsonValue::Object(d)), Err(ParseError::Decode(_))));
}

#[test]
fn validation_errors_pass_through_the_wrapper() {
    let r = GelfDataWrapper::from_value(JsonValue::Object(Vec::new()));
    assert_eq!(r.unwrap_err(), ParseError::Validation(missing("host")));
    let w = GelfDataWrapper::from_value(JsonValue::Object(valid())).unwrap();
    assert!(distinct_keys(&valid()));
    assert_eq!(w.into_gelf().host, "example.org");
}

#[test]
fn level_codes_and_texts() {
    assert_eq!(GelfLevel::Notice.to_code(), 5);
    assert_eq!(GelfLevel::Emergency.to_code(), 0);
    assert_eq!(GelfLevel::Debug.code_text(), "7");
    assert_eq!(GelfLevel::from_str("4"), Ok(GelfLevel::Warning));
    assert_eq!(GelfLevel::from_str(""), Err(ValidationError::InvalidValue("level".to_string())));
    assert_eq!(GelfLevel::from_str("9"), Err(ValidationError::InvalidValue("level".to_string())));
}

#[test]
fn hundred_requests_on_four_workers() {
    let mut pool = DispatchPool::new(4);
    let mut running: Vec<Option<(u64, Vec<u8>)>> = vec![None, None, None, None];
    let mut waiting: Vec<(u64, Vec<u8>)> = Vec::new();
    let mut results: Vec<(u64, GelfDataWrapper)> = Vec::new();
    let mut expected_host = std::collections::HashMap::new();
    for i in 0..100u32 {
        let bytes = format!(
            r#"{{"host":"h{i}","level":{},"short_message":"m","timestamp":{i},"version":"1.1"}}"#,
            i % 8
        )
        .into_bytes();
        let (id, worker) = pool.submit();
        expected_host.insert(id, format!("h{i}"));
        match worker {
            Some(w) => {
                assert!(running[w].is_none());
                running[w] = Some((id, bytes));
            }
            None => {
                assert!(running.iter().all(|r| r.is_some()));
                waiting.push((id, bytes));
            }
        }
    }
    assert_eq!(waiting.len(), 96);
    let mut w = 0usize;
    while running.iter().any(|r| r.is_some()) {
        if let Some((id, bytes)) = running[w].take() {
            let decoded: serde_json::Value = serde_json::from_slice(&bytes).unwrap();
            let r = GelfDataWrapper::from_value(from_serde(decoded)).unwrap();
            let (done, next) = pool.complete(w);
            assert_eq!(done, id);
            results.push((done, r));
            if let Some(n) = next {
                let pos = waiting.iter().position(|(q, _)| *q == n).unwrap();
                assert_eq!(pos, 0);
                running[w] = Some(waiting.remove(pos));
            }
        }
        w = (w + 1) % 4;
    }
    assert_eq!(results.len(), 100);
    for (id, r) in &results {
        assert_eq!(&r.data.host, &expected_host[id]);
    }
    let mut ids: Vec<u64> = results.iter().map(|(id, _)| *id).collect();
    ids.sort();
    assert_eq!(ids, (0..100u64).collect::<Vec<_>>());
}

use smudgy_panes::json::{deep_merge, JsonValue};

fn to_json(v: &serde_json::Value) -> JsonValue {
    match v {
        serde_json::Value::Null => JsonValue::Null,
        serde_json::Value::Bool(b) => JsonValue::Bool(*b),
        serde_json::Value::Number(n) => JsonValue::Number(n.to_string()),
        serde_json::Value::String(s) => JsonValue::Text(s.clone()),
        serde_json::Value::Array(a) => JsonValue::Array(a.iter().map(to_json).collect()),
        serde_json::Value::Object(o) => {
            JsonValue::Object(o.iter().map(|(k, v)| (k.clone(), to_json(v))).collect())
        }
    }
}

fn from_json(v: &JsonValue) -> serde_json::Value {
    match v {
        JsonValue::Null => serde_json::Value::Null,
        JsonValue::Bool(b) => serde_json::Value::Bool(*b),
        JsonValue::Number(t) => serde_json::Value::Number(t.parse().unwrap()),
        JsonValue::Text(s) => serde_json::Value::String(s.clone()),
        JsonValue::Array(a) => serde_json::Value::Array(a.iter().map(from_json).collect()),
        JsonValue::Object(o) => serde_json::Value::Object(o.iter().map(|(k, v)| (k.clone(), from_json(v))).collect()),
    }
}

fn doc(text: &str) -> JsonValue {
    to_json(&serde_json::from_str::<serde_json::Value>(text).unwrap())
}

fn value(text: &str) -> serde_json::Value {
    serde_json::from_str(text).unwrap()
}

#[test]
fn objects_merge_recursively_and_scalars_replace() {
    let mut base = doc(r#"{"a": {"b": 1, "c": 2}, "d": 3}"#);
    deep_merge(&mut base, doc(r#"{"a": {"b": 4}, "d": [5]}"#));
    assert_eq!(from_json(&base), value(r#"{"a": {"b": 4, "c": 2}, "d": [5]}"#));
}

#[test]
fn merging_adds_new_keys_and_replaces_non_objects() {
    let mut base = doc(r#"{"keep": true}"#);
    deep_merge(&mut base, doc(r#"{"new": {"x": null}}"#));
    assert_eq!(from_json(&base), value(r#"{"keep": true, "new": {"x": null}}"#));

    let mut scalar = doc("1");
    deep_merge(&mut scalar, doc(r#"{"a": 1}"#));
    assert_eq!(from_json(&scalar), value(r#"{"a": 1}"#));

    let mut object = doc(r#"{"a": 1}"#);
    deep_merge(&mut object, doc(r#""text""#));
    assert_eq!(from_json(&object), value(r#""text""#));
}

use jadipa::json::{Json, Number};
use jadipa::merge_patch::apply;
use serde_json::Value;

fn merge_value(v: &Value) -> Json {
    match v {
        Value::Null => Json::Null,
        Value::Bool(b) => Json::Bool(*b),
        Value::Number(n) => {
            if let Some(u) = n.as_u64() {
                Json::Number(Number::PosInt(u))
            } else if let Some(i) = n.as_i64() {
                Json::Number(Number::NegInt(i))
            } else {
                Json::Number(Number::Float(n.as_f64().unwrap().to_bits()))
            }
        }
        Value::String(s) => Json::String(s.clone()),
        Value::Array(a) => Json::Array(a.iter().map(merge_value).collect()),
        Value::Object(m) => Json::Object(m.iter().map(|(k, v)| (k.clone(), merge_value(v))).collect()),
    }
}

fn doc(text: &str) -> Json {
    merge_value(&serde_json::from_str::<Value>(text).unwrap())
}

#[test]
fn merge_replace_existing_member() {
    let target = doc(r#"{"a": "b"}"#);
    let patch = doc(r#"{"a": "c"}"#);
    assert_eq!(apply(&target, &patch), doc(r#"{"a": "c"}"#));
}

#[test]
fn merge_add_new_member() {
    let target = doc(r#"{"a": "b"}"#);
    let patch = doc(r#"{"b": "c"}"#);
    assert_eq!(apply(&target, &patch), doc(r#"{"a": "b", "b": "c"}"#));
}

#[test]
fn merge_remove_existing_member() {
    let target = doc(r#"{"a": "b"}"#);
    let patch = doc(r#"{"a": null}"#);
    assert_eq!(apply(&target, &patch), doc(r#"{}"#));
}

#[test]
fn merge_remove_one_of_multiple_members() {
    let target = doc(r#"{"a": "b", "b": "c"}"#);
    let patch = doc(r#"{"a": null}"#);
    assert_eq!(apply(&target, &patch), doc(r#"{"b": "c"}"#));
}

#[test]
fn merge_replace_array_with_scalar() {
    let target = doc(r#"{"a": ["b"]}"#);
    let patch = doc(r#"{"a": "c"}"#);
    assert_eq!(apply(&target, &patch), doc(r#"{"a": "c"}"#));
}

#[test]
fn merge_replace_scalar_with_array() {
    let target = doc(r#"{"a": "c"}"#);
    let patch = doc(r#"{"a": ["b"]}"#);
    assert_eq!(apply(&target, &patch), doc(r#"{"a": ["b"]}"#));
}

#[test]
fn merge_recursively_patch_object() {
    let target = doc(r#"{"a": {"b": "c"}}"#);
    let patch = doc(r#"{"a": {"b": "d", "c": null}}"#);
    assert_eq!(apply(&target, &patch), doc(r#"{"a": {"b": "d"}}"#));
}

#[test]
fn merge_replace_array_member() {
    let target = doc(r#"{"a": [{"b": "c"}]}"#);
    let patch = doc(r#"{"a": [1]}"#);
    assert_eq!(apply(&target, &patch), doc(r#"{"a": [1]}"#));
}

#[test]
fn merge_replace_array_target_with_array_patch() {
    let target = doc(r#"["a", "b"]"#);
    let patch = doc(r#"["c", "d"]"#);
    assert_eq!(apply(&target, &patch), doc(r#"["c", "d"]"#));
}

#[test]
fn merge_replace_object_target_with_array_patch() {
    let target = doc(r#"{"a": "b"}"#);
    let patch = doc(r#"["c"]"#);
    assert_eq!(apply(&target, &patch), doc(r#"["c"]"#));
}

#[test]
fn merge_replace_object_target_with_null_patch() {
    let target = doc(r#"{"a": "foo"}"#);
    let patch = doc(r#"null"#);
    assert_eq!(apply(&target, &patch), doc(r#"null"#));
}

#[test]
fn merge_replace_object_target_with_string_patch() {
    let target = doc(r#"{"a": "foo"}"#);
    let patch = doc(r#""bar""#);
    assert_eq!(apply(&target, &patch), doc(r#""bar""#));
}

#[test]
fn merge_preserve_null_member_when_patch_adds_member() {
    let target = doc(r#"{"e": null}"#);
    let patch = doc(r#"{"a": 1}"#);
    assert_eq!(apply(&target, &patch), doc(r#"{"e": null, "a": 1}"#));
}

#[test]
fn merge_object_patch_replaces_non_object_target() {
    let target = doc(r#"[1, 2]"#);
    let patch = doc(r#"{"a": "b", "c": null}"#);
    assert_eq!(apply(&target, &patch), doc(r#"{"a": "b"}"#));
}

#[test]
fn merge_missing_nested_null_removal_does_not_create_member() {
    let target = doc(r#"{}"#);
    let patch = doc(r#"{"a": {"bb": {"ccc": null}}}"#);
    assert_eq!(apply(&target, &patch), doc(r#"{"a": {"bb": {}}}"#));
}

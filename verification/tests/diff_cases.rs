use jadipa::diff::diff;
use jadipa::json::{Json, Number};
use jadipa::patch::{Patch, PatchOperation};
use jadipa::pointer::Pointer;
use serde_json::Value;

fn diff_value(v: &Value) -> Json {
    match v {
        Value::Null => Json::Null,
        Value::Bool(b) => Json::Bool(*b),
        Value::Number(n) => {
            if let Some(u) = n.as_u64() {
                Json::Number(Number::PosInt(u))
            } else if let Some(i) = n.as_i64() {
                Json::Number(Number::NegInt(i))
            } else {
                Json::Number(Number::Float(n.as_f64().unwrap().to_bits()))
            }
        }
        Value::String(s) => Json::String(s.clone()),
        Value::Array(a) => Json::Array(a.iter().map(diff_value).collect()),
        Value::Object(m) => Json::Object(m.iter().map(|(k, v)| (k.clone(), diff_value(v))).collect()),
    }
}

fn doc(text: &str) -> Json {
    diff_value(&serde_json::from_str::<Value>(text).unwrap())
}

fn diff_op(v: &Value) -> PatchOperation {
    let path = Pointer::new(v["path"].as_str().unwrap());
    match v["op"].as_str().unwrap() {
        "add" => PatchOperation::Add { path, value: diff_value(&v["value"]) },
        "remove" => PatchOperation::Remove { path },
        "replace" => PatchOperation::Replace { path, value: diff_value(&v["value"]) },
        "move" => PatchOperation::Move { from: Pointer::new(v["from"].as_str().unwrap()), path },
        "copy" => PatchOperation::Copy { from: Pointer::new(v["from"].as_str().unwrap()), path },
        _ => PatchOperation::Test { path, value: diff_value(&v["value"]) },
    }
}

fn patch_doc(text: &str) -> Patch {
    let v: Value = serde_json::from_str(text).unwrap();
    Patch::new_with(v.as_array().unwrap().iter().map(diff_op).collect())
}

#[test]
fn diff_empty_patch() {
    let source = doc(r#""j""#);
    let target = doc(r#""j""#);
    assert_eq!(diff(&source, &target), Patch::empty());
}

#[test]
fn diff_replace_root_element() {
    let source = doc(r#"42"#);
    let target = doc(r#"true"#);
    assert_eq!(diff(&source, &target), patch_doc(r#"[
                {"op":"replace","path":"","value":true}
            ]"#));
}

#[test]
fn diff_empty_objects() {
    let source = doc(r#"{}"#);
    let target = doc(r#"{}"#);
    assert_eq!(diff(&source, &target), Patch::empty());
}

#[test]
fn diff_equal_objects() {
    let source = doc(r#"{"a": 1, "b": true, "c": null}"#);
    let target = doc(r#"{"a": 1, "b": true, "c": null}"#);
    assert_eq!(diff(&source, &target), Patch::empty());
}

#[test]
fn diff_add_root_member() {
    let source = doc(r#"{"a": 1}"#);
    let target = doc(r#"{"a": 1, "b": 2}"#);
    assert_eq!(diff(&source, &target), patch_doc(r#"[
                {"op":"add","path":"/b","value":2}
            ]"#));
}

#[test]
fn diff_remove_root_member() {
    let source = doc(r#"{"a": 1, "b": 2}"#);
    let target = doc(r#"{"a": 1}"#);
    assert_eq!(diff(&source, &target), patch_doc(r#"[
                {"op":"remove","path":"/b"}
            ]"#));
}

#[test]
fn diff_replace_root_member() {
    let source = doc(r#"{"a": 1, "b": 2}"#);
    let target = doc(r#"{"a": 1, "b": 3}"#);
    assert_eq!(diff(&source, &target), patch_doc(r#"[
                {"op":"replace","path":"/b","value":3}
            ]"#));
}

#[test]
fn diff_add_nested_member() {
    let source = doc(r#"{"a": {"b": 1}}"#);
    let target = doc(r#"{"a": {"b": 1, "c": 2}}"#);
    assert_eq!(diff(&source, &target), patch_doc(r#"[
                {"op":"add","path":"/a/c","value":2}
            ]"#));
}

#[test]
fn diff_remove_nested_member() {
    let source = doc(r#"{"a": {"b": 1, "c": 2}}"#);
    let target = doc(r#"{"a": {"b": 1}}"#);
    assert_eq!(diff(&source, &target), patch_doc(r#"[
                {"op":"remove","path":"/a/c"}
            ]"#));
}

#[test]
fn diff_replace_nested_member() {
    let source = doc(r#"{"a": {"b": {"c": 1}}}"#);
    let target = doc(r#"{"a": {"b": {"c": 2}}}"#);
    assert_eq!(diff(&source, &target), patch_doc(r#"[
                {"op":"replace","path":"/a/b/c","value":2}
            ]"#));
}

#[test]
fn diff_replace_object_with_scalar_member() {
    let source = doc(r#"{"a": {"b": 1}}"#);
    let target = doc(r#"{"a": false}"#);
    assert_eq!(diff(&source, &target), patch_doc(r#"[
                {"op":"replace","path":"/a","value":false}
            ]"#));
}

#[test]
fn diff_replace_scalar_with_object_member() {
    let source = doc(r#"{"a": false}"#);
    let target = doc(r#"{"a": {"b": 1}}"#);
    assert_eq!(diff(&source, &target), patch_doc(r#"[
                {"op":"replace","path":"/a","value":{"b":1}}
            ]"#));
}

#[test]
fn diff_escaped_object_keys() {
    let source = doc(r#"{"a/b": {"c~d": 1}}"#);
    let target = doc(r#"{"a/b": {"c~d": 2, "e/f": 3}}"#);
    assert_eq!(diff(&source, &target), patch_doc(r#"[
                {"op":"replace","path":"/a~1b/c~0d","value":2},
                {"op":"add","path":"/a~1b/e~1f","value":3}
            ]"#));
}

#[test]
fn diff_empty_object_key() {
    let source = doc(r#"{"": 1}"#);
    let target = doc(r#"{"": 2}"#);
    assert_eq!(diff(&source, &target), patch_doc(r#"[
                {"op":"replace","path":"/","value":2}
            ]"#));
}

#[test]
fn diff_multiple_root_object_changes() {
    let source = doc(r#"{"a": 1, "b": 2, "c": 3}"#);
    let target = doc(r#"{"a": 10, "c": 3, "d": 4}"#);
    assert_eq!(diff(&source, &target), patch_doc(r#"[
                {"op":"replace","path":"/a","value":10},
                {"op":"remove","path":"/b"},
                {"op":"add","path":"/d","value":4}
            ]"#));
}

#[test]
fn diff_equal_arrays() {
    let source = doc(r#"[1, 2, 3]"#);
    let target = doc(r#"[1, 2, 3]"#);
    assert_eq!(diff(&source, &target), Patch::empty());
}

#[test]
fn diff_replace_array_item() {
    let source = doc(r#"[1, 2, 3]"#);
    let target = doc(r#"[1, 9, 3]"#);
    assert_eq!(diff(&source, &target), patch_doc(r#"[
                {"op":"replace","path":"/1","value":9}
            ]"#));
}

#[test]
fn diff_append_array_item() {
    let source = doc(r#"[1, 2]"#);
    let target = doc(r#"[1, 2, 3]"#);
    assert_eq!(diff(&source, &target), patch_doc(r#"[
                {"op":"add","path":"/2","value":3}
            ]"#));
}

#[test]
fn diff_prepend_array_item() {
    let source = doc(r#"[2, 3]"#);
    let target = doc(r#"[1, 2, 3]"#);
    assert_eq!(diff(&source, &target), patch_doc(r#"[
                {"op":"add","path":"/0","value":1}
            ]"#));
}

#[test]
fn diff_insert_array_item() {
    let source = doc(r#"[1, 2, 4]"#);
    let target = doc(r#"[1, 2, 3, 4]"#);
    assert_eq!(diff(&source, &target), patch_doc(r#"[
                {"op":"add","path":"/2","value":3}
            ]"#));
}

#[test]
fn diff_remove_array_item() {
    let source = doc(r#"[1, 2, 3, 4]"#);
    let target = doc(r#"[1, 2, 4]"#);
    assert_eq!(diff(&source, &target), patch_doc(r#"[
                {"op":"remove","path":"/2"}
            ]"#));
}

#[test]
fn diff_truncate_array_items() {
    let source = doc(r#"[1, 2, 3, 4]"#);
    let target = doc(r#"[1, 2]"#);
    assert_eq!(diff(&source, &target), patch_doc(r#"[
                {"op":"remove","path":"/3"},
                {"op":"remove","path":"/2"}
            ]"#));
}

#[test]
fn diff_remove_array_prefix_items() {
    let source = doc(r#"[1, 2, 3, 4]"#);
    let target = doc(r#"[3, 4]"#);
    assert_eq!(diff(&source, &target), patch_doc(r#"[
                {"op":"remove","path":"/1"},
                {"op":"remove","path":"/0"}
            ]"#));
}

#[test]
fn diff_replace_and_append_array_items() {
    let source = doc(r#"[1, 2, 3]"#);
    let target = doc(r#"[1, 8, 9, 10]"#);
    assert_eq!(diff(&source, &target), patch_doc(r#"[
                {"op":"replace","path":"/1","value":8},
                {"op":"replace","path":"/2","value":9},
                {"op":"add","path":"/3","value":10}
            ]"#));
}

#[test]
fn diff_replace_and_remove_array_items() {
    let source = doc(r#"[1, 2, 3, 4]"#);
    let target = doc(r#"[1, 8]"#);
    assert_eq!(diff(&source, &target), patch_doc(r#"[
                {"op":"replace","path":"/1","value":8},
                {"op":"remove","path":"/3"},
                {"op":"remove","path":"/2"}
            ]"#));
}

#[test]
fn diff_reverse_array_replaces_each_item() {
    let source = doc(r#"[1, 2, 3, 4]"#);
    let target = doc(r#"[4, 3, 2, 1]"#);
    assert_eq!(diff(&source, &target), patch_doc(r#"[
                {"op":"replace","path":"/0","value":4},
                {"op":"replace","path":"/1","value":3},
                {"op":"replace","path":"/2","value":2},
                {"op":"replace","path":"/3","value":1}
            ]"#));
}

#[test]
fn diff_array_nested_in_object() {
    let source = doc(r#"{"items": [1, 2, 4]}"#);
    let target = doc(r#"{"items": [1, 2, 3, 4]}"#);
    assert_eq!(diff(&source, &target), patch_doc(r#"[
                {"op":"add","path":"/items/2","value":3}
            ]"#));
}

#[test]
fn diff_object_nested_in_array() {
    let source = doc(r#"[{"a": 1, "b": 2}]"#);
    let target = doc(r#"[{"a": 1, "b": 3, "c": 4}]"#);
    assert_eq!(diff(&source, &target), patch_doc(r#"[
                {"op":"replace","path":"/0/b","value":3},
                {"op":"add","path":"/0/c","value":4}
            ]"#));
}

#[test]
fn diff_replace_array_with_object() {
    let source = doc(r#"[1, 2]"#);
    let target = doc(r#"{"a": 1}"#);
    assert_eq!(diff(&source, &target), patch_doc(r#"[
                {"op":"replace","path":"","value":{"a":1}}
            ]"#));
}

#[test]
fn diff_replace_object_with_array() {
    let source = doc(r#"{"a": 1}"#);
    let target = doc(r#"[1, 2]"#);
    assert_eq!(diff(&source, &target), patch_doc(r#"[
                {"op":"replace","path":"","value":[1,2]}
            ]"#));
}

use jadipa::diff::diff;
use jadipa::json::{Json, Number};
use jadipa::merge_patch;
use jadipa::patch::{Patch, PatchOperation};
use jadipa::pointer::Pointer;
use serde_json::Value;

fn property_value(v: &Value) -> Json {
    match v {
        Value::Null => Json::Null,
        Value::Bool(b) => Json::Bool(*b),
        Value::Number(n) => {
            if let Some(u) = n.as_u64() {
                Json::Number(Number::PosInt(u))
            } else if let Some(i) = n.as_i64() {
                Json::Number(Number::NegInt(i))
            } else {
                Json::Number(Number::Float(n.as_f64().unwrap().to_bits()))
            }
        }
        Value::String(s) => Json::String(s.clone()),
        Value::Array(a) => Json::Array(a.iter().map(property_value).collect()),
        Value::Object(m) => Json::Object(m.iter().map(|(k, v)| (k.clone(), property_value(v))).collect()),
    }
}

fn doc(text: &str) -> Json {
    property_value(&serde_json::from_str::<Value>(text).unwrap())
}

#[test]
fn diff_round_trip_with_nested_changes() {
    let source = doc(r#"{"a": [1, 2, 3, 4, 5], "b": {"c": null, "d": [true]}, "e~f": 1, "g/h": {"x": 1}}"#);
    let target = doc(r#"{"a": [1, 9, 8, 7, 4, 5], "b": {"c": 0}, "e~f": 2, "g/h": {"x": 2, "y": 3}, "new": []}"#);

    let patch = diff(&source, &target);

    assert_eq!(patch.apply(&source).unwrap(), target);
}

#[test]
fn diff_round_trip_on_shrinking_array() {
    let source = doc(r#"[0, 1, 2, 3, 4, 5, 6]"#);
    let target = doc(r#"[0, 9, 6]"#);

    let patch = diff(&source, &target);

    assert_eq!(patch.apply(&source).unwrap(), target);
}

#[test]
fn diff_round_trip_replaces_root_of_another_kind() {
    let source = doc(r#"{"a": 1}"#);
    let target = doc(r#"[1]"#);

    let patch = diff(&source, &target);

    assert_eq!(
        patch,
        Patch::new_with(vec![PatchOperation::Replace { path: Pointer::new(""), value: target.clone() }])
    );
    assert_eq!(patch.apply(&source).unwrap(), target);
}

#[test]
fn diff_added_key_with_slash_round_trips() {
    let source = doc(r#"{}"#);
    let target = doc(r#"{"a/b": 1}"#);

    let patch = diff(&source, &target);

    assert_eq!(
        patch,
        Patch::new_with(vec![PatchOperation::Add { path: Pointer::new("/a~1b"), value: doc("1") }])
    );
    assert_eq!(patch.apply(&source).unwrap(), target);
}

#[test]
fn add_undoes_the_escapes_of_the_new_key() {
    let target = doc(r#"{"x": null}"#);
    let patch = Patch::new_with(vec![
        PatchOperation::Add { path: Pointer::new("/a~1b"), value: doc("1") },
        PatchOperation::Add { path: Pointer::new("/x/m~0n"), value: doc("2") },
        PatchOperation::Add { path: Pointer::new("/~01"), value: doc("3") },
    ]);

    assert_eq!(patch.apply(&target).unwrap(), doc(r#"{"a/b": 1, "x": {"m~n": 2}, "~1": 3}"#));
}

#[test]
fn diff_uses_only_add_remove_and_replace() {
    let source = doc(r#"{"a": [1, 2, 3], "b": 1, "c": {"d": 1}}"#);
    let target = doc(r#"{"a": [1, 3], "c": {"d": 2, "e": 3}, "f": 4}"#);

    let patch = diff(&source, &target);

    for op in patch.operations() {
        assert!(matches!(
            op,
            PatchOperation::Add { .. } | PatchOperation::Remove { .. } | PatchOperation::Replace { .. }
        ));
    }
    assert!(!patch.operations().is_empty());
}

#[test]
fn merge_patch_applied_twice_changes_nothing_more() {
    let target = doc(r#"{"a": {"b": 1, "c": [1, 2]}, "d": "x", "e": null}"#);
    let patch = doc(r#"{"a": {"b": null, "c": [3], "f": {"g": null, "h": 1}}, "d": null, "i": 2}"#);

    let once = merge_patch::apply(&target, &patch);
    let twice = merge_patch::apply(&once, &patch);

    assert_eq!(twice, once);
    assert_eq!(once, doc(r#"{"a": {"c": [3], "f": {"h": 1}}, "e": null, "i": 2}"#));
}

#[test]
fn merge_patch_that_is_not_an_object_replaces_target() {
    let target = doc(r#"{"a": 1}"#);

    assert_eq!(merge_patch::apply(&target, &doc("[1, 2]")), doc("[1, 2]"));
    assert_eq!(merge_patch::apply(&target, &doc("null")), doc("null"));
}

#[test]
fn patch_of_two_parts_is_the_parts_in_order() {
    let target = doc(r#"{"a": 1, "b": [1]}"#);
    let first = vec![
        PatchOperation::Add { path: Pointer::new("/c"), value: doc("3") },
        PatchOperation::Remove { path: Pointer::new("/a") },
    ];
    let second = vec![
        PatchOperation::Add { path: Pointer::new("/b/-"), value: doc("2") },
        PatchOperation::Copy { from: Pointer::new("/c"), path: Pointer::new("/d") },
    ];
    let mut both = first.clone();
    both.extend(second.clone());

    let at_once = Patch::new_with(both).apply(&target).unwrap();
    let in_steps = Patch::new_with(second).apply(&Patch::new_with(first).apply(&target).unwrap()).unwrap();

    assert_eq!(at_once, in_steps);
    assert_eq!(at_once, doc(r#"{"b": [1, 2], "c": 3, "d": 3}"#));
}

#[test]
fn passing_test_operation_leaves_document_unchanged() {
    let target = doc(r#"{"a": [1, {"b": true}]}"#);
    let patch = Patch::new_with(vec![PatchOperation::Test { path: Pointer::new("/a/1"), value: doc(r#"{"b": true}"#) }]);

    assert_eq!(patch.apply(&target).unwrap(), target);
}

#[test]
fn replaced_value_is_read_back_at_its_path() {
    let target = doc(r#"{"a": [1, {"b~c": true}]}"#);
    let path = Pointer::new("/a/1/b~0c");
    let patch = Patch::new_with(vec![PatchOperation::Replace { path: path.clone(), value: doc("7") }]);

    let patched = patch.apply(&target).unwrap();

    assert_eq!(path.get(&patched), Some(&doc("7")));
}

#[test]
fn empty_pointer_reads_whole_document() {
    let target = doc(r#"{"a": [1]}"#);

    assert_eq!(Pointer::new("").get(&target), Some(&target));
}

#[test]
fn negative_zero_keeps_its_sign_through_a_patch() {
    let target = doc(r#"{"a": -0.0}"#);
    let patch = Patch::new_with(vec![PatchOperation::Add { path: Pointer::new("/b"), value: doc("-0.0") }]);

    let patched = patch.apply(&target).unwrap();

    assert_eq!(patched, doc(r#"{"a": -0.0, "b": -0.0}"#));
    assert_ne!(patched, doc(r#"{"a": 0.0, "b": 0.0}"#));
    assert_eq!(target.deep_copy(), target);
}

#[test]
fn zeros_of_either_sign_are_equal_to_a_diff() {
    let source = doc(r#"{"a": 0.0}"#);
    let target = doc(r#"{"a": -0.0}"#);

    assert_eq!(diff(&source, &target), Patch::empty());
    assert!(source.equals(&target));
}

#[test]
fn pointer_has_one_token_per_slash() {
    for path in ["", "/", "/a", "/a/b", "//", "/a~1b/c~0d/"] {
        let pointer = Pointer::new(path);
        let slashes = path.matches('/').count();
        assert_eq!(pointer.tokens().len(), slashes);
        assert_eq!(pointer.raw_tokens().len(), slashes);
    }
}

#[test]
fn raw_tokens_join_to_path_without_leading_slash() {
    for path in ["", "/", "/a~1b/c~0d", "x/y", "//z"] {
        let pointer = Pointer::new(path);
        assert_eq!(pointer.raw_tokens().join("/"), pointer.path_without_leading_slash());
    }
    assert_eq!(Pointer::new("/a~1b/c~0d").raw_tokens(), vec!["a~1b".to_string(), "c~0d".to_string()]);
}

#[test]
fn keys_pushed_as_tokens_read_back() {
    let keys = ["a/b", "~1", "m~n", "", "~0/~1"];
    let mut path: Vec<char> = Vec::new();
    for key in keys {
        jadipa::diff::push_key(&mut path, key);
    }
    let pointer = Pointer::new(&path.iter().collect::<String>());

    assert_eq!(pointer.tokens(), keys.iter().map(|k| k.to_string()).collect::<Vec<String>>());
}

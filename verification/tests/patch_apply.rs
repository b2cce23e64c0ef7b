use jadipa::json::{Json, Number};
use jadipa::patch::{ApplicationError, Patch, PatchError, PatchOperation};
use jadipa::pointer::Pointer;
use serde_json::Value;

fn apply_value(v: &Value) -> Json {
    match v {
        Value::Null => Json::Null,
        Value::Bool(b) => Json::Bool(*b),
        Value::Number(n) => {
            if let Some(u) = n.as_u64() {
                Json::Number(Number::PosInt(u))
            } else if let Some(i) = n.as_i64() {
                Json::Number(Number::NegInt(i))
            } else {
                Json::Number(Number::Float(n.as_f64().unwrap().to_bits()))
            }
        }
        Value::String(s) => Json::String(s.clone()),
        Value::Array(a) => Json::Array(a.iter().map(apply_value).collect()),
        Value::Object(m) => Json::Object(m.iter().map(|(k, v)| (k.clone(), apply_value(v))).collect()),
    }
}

fn doc(text: &str) -> Json {
    apply_value(&serde_json::from_str::<Value>(text).unwrap())
}

#[test]
fn empty_creates_patch_without_operations() {
    let patch = Patch::empty();

    assert_eq!(patch.operations(), &Vec::<PatchOperation>::new());
}

#[test]
fn new_with_preserves_operations() {
    let ops = vec![
        PatchOperation::Add { path: Pointer::new("/foo"), value: doc("1") },
        PatchOperation::Test { path: Pointer::new("/foo"), value: doc("1") },
    ];

    let patch = Patch::new_with(ops.clone());

    assert_eq!(patch.operations(), &ops);
}

#[test]
fn from_vec_preserves_operations() {
    let ops = vec![
        PatchOperation::Remove { path: Pointer::new("/foo") },
        PatchOperation::Copy { from: Pointer::new("/foo"), path: Pointer::new("/bar") },
    ];

    let patch = Patch::from(ops.clone());

    assert_eq!(patch.operations(), &ops);
}

#[test]
fn default_creates_patch_without_operations() {
    let patch = Patch::default();

    assert_eq!(patch.operations(), &Vec::<PatchOperation>::new());
}

#[test]
fn apply_adds_to_object_and_returns_new_object() {
    let patch = Patch::new_with(vec![PatchOperation::Add {
        path: Pointer::new("/baz"),
        value: doc(r#""qux""#),
    }]);
    let target = doc(r#"{"foo": "bar"}"#);

    let result = patch.apply(&target).unwrap();

    assert_eq!(result, doc(r#"{"foo": "bar", "baz": "qux"}"#));
}

#[test]
fn apply_returns_error_without_modifying_original_object() {
    let patch = Patch::new_with(vec![
        PatchOperation::Add { path: Pointer::new("/baz"), value: doc(r#""qux""#) },
        PatchOperation::Add { path: Pointer::new("/missing/path"), value: doc("1") },
    ]);
    let target = doc(r#"{"foo": "bar"}"#);

    let result = patch.apply(&target);

    assert!(result.is_err());
    assert_eq!(target, doc(r#"{"foo": "bar"}"#));
}

#[test]
fn applies_multi_operation_patch_without_mutating_input() {
    let target = doc(
        r#"{
        "name": "old",
        "tags": ["stable", "legacy"],
        "meta": {
            "enabled": true,
            "owner": "core"
        },
        "temporary": "remove-me"
    }"#,
    );
    let patch = Patch::new_with(vec![
        PatchOperation::Test { path: Pointer::new("/meta/enabled"), value: doc("true") },
        PatchOperation::Replace { path: Pointer::new("/name"), value: doc(r#""new""#) },
        PatchOperation::Add { path: Pointer::new("/tags/-"), value: doc(r#""patched""#) },
        PatchOperation::Remove { path: Pointer::new("/temporary") },
        PatchOperation::Copy { from: Pointer::new("/meta/owner"), path: Pointer::new("/owner") },
        PatchOperation::Move { from: Pointer::new("/tags/0"), path: Pointer::new("/primary_tag") },
    ]);

    let patched = patch.apply(&target).unwrap();

    assert_eq!(
        patched,
        doc(r#"{
            "name": "new",
            "tags": ["legacy", "patched"],
            "meta": {
                "enabled": true,
                "owner": "core"
            },
            "owner": "core",
            "primary_tag": "stable"
        }"#)
    );
    assert_eq!(
        target,
        doc(r#"{
            "name": "old",
            "tags": ["stable", "legacy"],
            "meta": {
                "enabled": true,
                "owner": "core"
            },
            "temporary": "remove-me"
        }"#)
    );
}

#[test]
fn missing_target_path_returns_application_error() {
    let target = doc(r#"{"name": "old"}"#);
    let patch = Patch::new_with(vec![PatchOperation::Replace {
        path: Pointer::new("/missing"),
        value: doc(r#""new""#),
    }]);

    let err = patch.apply(&target).unwrap_err();

    assert!(matches!(err, PatchError::ApplicationError(_)));
    assert!(matches!(&err, PatchError::ApplicationError(ApplicationError::PathNotFound(p)) if p.as_str() == "/missing"));
    assert_eq!(target, doc(r#"{"name": "old"}"#));
}

#[test]
fn failing_test_operation_returns_application_error_without_mutating_input() {
    let target = doc(r#"{"status": "draft", "items": [1, 2]}"#);
    let patch = Patch::new_with(vec![
        PatchOperation::Test { path: Pointer::new("/status"), value: doc(r#""published""#) },
        PatchOperation::Add { path: Pointer::new("/items/-"), value: doc("3") },
    ]);

    let err = patch.apply(&target).unwrap_err();

    assert!(matches!(err, PatchError::ApplicationError(ApplicationError::TestFailed { .. })));
    assert!(matches!(&err, PatchError::ApplicationError(ApplicationError::TestFailed { path, .. }) if path.as_str() == "/status"));
    assert_eq!(target, doc(r#"{"status": "draft", "items": [1, 2]}"#));
}

#[test]
fn try_apply_reports_adding_member_to_string() {
    let target = doc(r#"{"name": "old"}"#);
    let patch = Patch::new_with(vec![PatchOperation::Add {
        path: Pointer::new("/name/first"),
        value: doc("1"),
    }]);

    assert!(patch.try_apply(&target).is_none());
}

#[test]
fn try_apply_applies_like_apply() {
    let target = doc(r#"{"name": "old"}"#);
    let patch = Patch::new_with(vec![PatchOperation::Add {
        path: Pointer::new("/age"),
        value: doc("3"),
    }]);

    let result = patch.try_apply(&target).unwrap().unwrap();

    assert_eq!(result, doc(r#"{"name": "old", "age": 3}"#));
}

#[test]
fn get_returns_pointed_value() {
    let object = doc(r#"{"foo": ["bar", "baz"], "a/b": 1}"#);
    let pointer = Pointer::new("/foo/1");

    assert_eq!(pointer.get(&object), Some(&doc(r#""baz""#)));
    assert_eq!(Pointer::new("/a~1b").get(&object), Some(&doc("1")));
    assert_eq!(Pointer::new("/missing").get(&object), None);
}

#[test]
fn get_mut_returns_pointed_value() {
    let mut object = doc(r#"{"foo": ["bar", "baz"]}"#);
    let pointer = Pointer::new("/foo/1");

    *pointer.get_mut(&mut object).unwrap() = doc(r#""updated""#);

    assert_eq!(object, doc(r#"{"foo": ["bar", "updated"]}"#));
    assert_eq!(Pointer::new("/missing").get_mut(&mut object), None);
}

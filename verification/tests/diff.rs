use jadipa::diff::diff;
use jadipa::json::{Json, Number};
use jadipa::patch::Patch;
use serde_json::Value;

fn diff_test_value(v: &Value) -> Json {
    match v {
        Value::Null => Json::Null,
        Value::Bool(b) => Json::Bool(*b),
        Value::Number(n) => {
            if let Some(u) = n.as_u64() {
                Json::Number(Number::PosInt(u))
            } else if let Some(i) = n.as_i64() {
                Json::Number(Number::NegInt(i))
            } else {
                Json::Number(Number::Float(n.as_f64().unwrap().to_bits()))
            }
        }
        Value::String(s) => Json::String(s.clone()),
        Value::Array(a) => Json::Array(a.iter().map(diff_test_value).collect()),
        Value::Object(m) => Json::Object(m.iter().map(|(k, v)| (k.clone(), diff_test_value(v))).collect()),
    }
}

fn doc(text: &str) -> Json {
    diff_test_value(&serde_json::from_str::<Value>(text).unwrap())
}

#[test]
fn diff_patch_transforms_source_without_mutating_it() {
    let source = doc(r#"{
        "name": "old",
        "tags": ["stable", "legacy"],
        "meta": {
            "enabled": false,
            "owner": "core"
        },
        "temporary": "remove-me"
    }"#);
    let target = doc(r#"{
        "name": "new",
        "tags": ["stable", "legacy", "patched"],
        "meta": {
            "enabled": true,
            "owner": "core"
        }
    }"#);

    let patch = diff(&source, &target);
    let patched = patch.apply(&source).unwrap();

    assert_eq!(patched, target);
    assert_eq!(
        source,
        doc(r#"{
            "name": "old",
            "tags": ["stable", "legacy"],
            "meta": {
                "enabled": false,
                "owner": "core"
            },
            "temporary": "remove-me"
        }"#)
    );
}

#[test]
fn equal_documents_produce_empty_patch() {
    let source = doc(r#"{
        "name": "same",
        "items": [1, {"nested": true}]
    }"#);

    let patch = diff(&source, &source);

    assert_eq!(patch, Patch::empty());
}

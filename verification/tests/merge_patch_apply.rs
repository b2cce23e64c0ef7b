use jadipa::json::{Json, Number};
use jadipa::merge_patch::{apply, apply_mut};
use serde_json::Value;

fn merge_test_value(v: &Value) -> Json {
    match v {
        Value::Null => Json::Null,
        Value::Bool(b) => Json::Bool(*b),
        Value::Number(n) => {
            if let Some(u) = n.as_u64() {
                Json::Number(Number::PosInt(u))
            } else if let Some(i) = n.as_i64() {
                Json::Number(Number::NegInt(i))
            } else {
                Json::Number(Number::Float(n.as_f64().unwrap().to_bits()))
            }
        }
        Value::String(s) => Json::String(s.clone()),
        Value::Array(a) => Json::Array(a.iter().map(merge_test_value).collect()),
        Value::Object(m) => Json::Object(m.iter().map(|(k, v)| (k.clone(), merge_test_value(v))).collect()),
    }
}

fn doc(text: &str) -> Json {
    merge_test_value(&serde_json::from_str::<Value>(text).unwrap())
}

#[test]
fn applies_rfc_example_without_mutating_input() {
    let target = doc(r#"{
        "title": "Goodbye!",
        "author": {
            "givenName": "John",
            "familyName": "Doe"
        },
        "tags": ["example", "sample"],
        "content": "This will be unchanged"
    }"#);
    let patch = doc(r#"{
        "title": "Hello!",
        "phoneNumber": "+01-123-456-7890",
        "author": {
            "familyName": null
        },
        "tags": ["example"]
    }"#);

    let patched = apply(&target, &patch);

    assert_eq!(
        patched,
        doc(r#"{
            "title": "Hello!",
            "author": {
                "givenName": "John"
            },
            "tags": ["example"],
            "content": "This will be unchanged",
            "phoneNumber": "+01-123-456-7890"
        }"#)
    );
    assert_eq!(
        target,
        doc(r#"{
            "title": "Goodbye!",
            "author": {
                "givenName": "John",
                "familyName": "Doe"
            },
            "tags": ["example", "sample"],
            "content": "This will be unchanged"
        }"#)
    );
}

#[test]
fn apply_mut_applies_rfc_example_in_place() {
    let mut target = doc(r#"{
        "title": "Goodbye!",
        "author": {
            "givenName": "John",
            "familyName": "Doe"
        },
        "tags": ["example", "sample"],
        "content": "This will be unchanged"
    }"#);
    let patch = doc(r#"{
        "title": "Hello!",
        "phoneNumber": "+01-123-456-7890",
        "author": {
            "familyName": null
        },
        "tags": ["example"]
    }"#);

    apply_mut(&mut target, &patch);

    assert_eq!(
        target,
        doc(r#"{
            "title": "Hello!",
            "author": {
                "givenName": "John"
            },
            "tags": ["example"],
            "content": "This will be unchanged",
            "phoneNumber": "+01-123-456-7890"
        }"#)
    );
}

#[test]
fn apply_does_not_mutate_input() {
    let target = doc(r#"{
        "title": "Goodbye!",
        "author": {
            "givenName": "John",
            "familyName": "Doe"
        }
    }"#);
    let patch = doc(r#"{
        "title": "Hello!",
        "author": {
            "familyName": null
        }
    }"#);

    let patched = apply(&target, &patch);

    assert_eq!(
        patched,
        doc(r#"{
            "title": "Hello!",
            "author": {
                "givenName": "John"
            }
        }"#)
    );
    assert_eq!(
        target,
        doc(r#"{
            "title": "Goodbye!",
            "author": {
                "givenName": "John",
                "familyName": "Doe"
            }
        }"#)
    );
}

#[test]
fn apply_mut_updates_target_in_place() {
    let mut target = doc(r#"{
        "title": "Goodbye!",
        "author": {
            "givenName": "John",
            "familyName": "Doe"
        },
        "tags": ["example", "sample"]
    }"#);
    let patch = doc(r#"{
        "title": "Hello!",
        "author": {
            "familyName": null
        },
        "tags": ["example"]
    }"#);

    apply_mut(&mut target, &patch);

    assert_eq!(
        target,
        doc(r#"{
            "title": "Hello!",
            "author": {
                "givenName": "John"
            },
            "tags": ["example"]
        }"#)
    );
}

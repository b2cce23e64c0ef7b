use jadipa::json::{Json, Number};
use jadipa::patch::operations::pointer_split;
use jadipa::patch::{ApplicationError, PatchOperation};
use jadipa::pointer::Pointer;
use serde_json::Value;

fn op_value(v: &Value) -> Json {
    match v {
        Value::Null => Json::Null,
        Value::Bool(b) => Json::Bool(*b),
        Value::Number(n) => {
            if let Some(u) = n.as_u64() {
                Json::Number(Number::PosInt(u))
            } else if let Some(i) = n.as_i64() {
                Json::Number(Number::NegInt(i))
            } else {
                Json::Number(Number::Float(n.as_f64().unwrap().to_bits()))
            }
        }
        Value::String(s) => Json::String(s.clone()),
        Value::Array(a) => Json::Array(a.iter().map(op_value).collect()),
        Value::Object(m) => Json::Object(m.iter().map(|(k, v)| (k.clone(), op_value(v))).collect()),
    }
}

fn doc(text: &str) -> Json {
    op_value(&serde_json::from_str::<Value>(text).unwrap())
}

#[test]
fn split_root() {
    let (parent, child) = pointer_split(&Pointer::new(""));
    assert_eq!(parent, Pointer::new(""));
    assert_eq!(child, None::<&str>.map(Pointer::new));
}

#[test]
fn split_root_member() {
    let (parent, child) = pointer_split(&Pointer::new("/foo"));
    assert_eq!(parent, Pointer::new(""));
    assert_eq!(child, Some("/foo").map(Pointer::new));
}

#[test]
fn split_nested_member() {
    let (parent, child) = pointer_split(&Pointer::new("/foo/bar"));
    assert_eq!(parent, Pointer::new("/foo"));
    assert_eq!(child, Some("/bar").map(Pointer::new));
}

#[test]
fn split_array_index() {
    let (parent, child) = pointer_split(&Pointer::new("/foo/0"));
    assert_eq!(parent, Pointer::new("/foo"));
    assert_eq!(child, Some("/0").map(Pointer::new));
}

#[test]
fn split_array_append() {
    let (parent, child) = pointer_split(&Pointer::new("/foo/-"));
    assert_eq!(parent, Pointer::new("/foo"));
    assert_eq!(child, Some("/-").map(Pointer::new));
}

#[test]
fn split_empty_member_at_root() {
    let (parent, child) = pointer_split(&Pointer::new("/"));
    assert_eq!(parent, Pointer::new(""));
    assert_eq!(child, Some("/").map(Pointer::new));
}

#[test]
fn split_empty_nested_member() {
    let (parent, child) = pointer_split(&Pointer::new("/foo/"));
    assert_eq!(parent, Pointer::new("/foo"));
    assert_eq!(child, Some("/").map(Pointer::new));
}

#[test]
fn split_escaped_tokens() {
    let (parent, child) = pointer_split(&Pointer::new("/a~1b/c~0d"));
    assert_eq!(parent, Pointer::new("/a~1b"));
    assert_eq!(child, Some("/c~0d").map(Pointer::new));
}

#[test]
fn add_to_end_of_array() {
    let op = PatchOperation::Add { path: Pointer::new("/arr/-"), value: doc(r#"4"#) };
    let mut target = doc(r#"{"arr": [1,2,3]}"#);
    op.apply(&mut target).expect("Testing Expect");
    assert_eq!(target, doc(r#"{"arr": [1,2,3,4]}"#));
}

#[test]
fn add_other_type_to_end_of_array() {
    let op = PatchOperation::Add { path: Pointer::new("/arr/-"), value: doc(r#"true"#) };
    let mut target = doc(r#"{"arr": [1,2,3]}"#);
    op.apply(&mut target).expect("Testing Expect");
    assert_eq!(target, doc(r#"{"arr": [1,2,3,true]}"#));
}

#[test]
fn add_at_start_of_array() {
    let op = PatchOperation::Add { path: Pointer::new("/arr/0"), value: doc(r#"0"#) };
    let mut target = doc(r#"{"arr": [1,2,3]}"#);
    op.apply(&mut target).expect("Testing Expect");
    assert_eq!(target, doc(r#"{"arr": [0,1,2,3]}"#));
}

#[test]
fn add_in_middle_of_array() {
    let op = PatchOperation::Add { path: Pointer::new("/arr/1"), value: doc(r#"1.5"#) };
    let mut target = doc(r#"{"arr": [1,2,3]}"#);
    op.apply(&mut target).expect("Testing Expect");
    assert_eq!(target, doc(r#"{"arr": [1,1.5,2,3]}"#));
}

#[test]
fn add_to_array_at_root() {
    let op = PatchOperation::Add { path: Pointer::new("/-"), value: doc(r#"4"#) };
    let mut target = doc(r#"[1,2,3]"#);
    op.apply(&mut target).expect("Testing Expect");
    assert_eq!(target, doc(r#"[1,2,3,4]"#));
}

#[test]
fn add_to_object() {
    let op = PatchOperation::Add { path: Pointer::new("/foo"), value: doc(r#"1"#) };
    let mut target = doc(r#"{}"#);
    op.apply(&mut target).expect("Testing Expect");
    assert_eq!(target, doc(r#"{"foo": 1}"#));
}

#[test]
fn add_object_member_rfc() {
    let op = PatchOperation::Add { path: Pointer::new("/baz"), value: doc(r#""qux""#) };
    let mut target = doc(r#"{"foo": "bar"}"#);
    op.apply(&mut target).expect("Testing Expect");
    assert_eq!(target, doc(r#"{"foo": "bar", "baz": "qux"}"#));
}

#[test]
fn add_replaces_existing_object_member() {
    let op = PatchOperation::Add { path: Pointer::new("/foo"), value: doc(r#""qux""#) };
    let mut target = doc(r#"{"foo": "bar"}"#);
    op.apply(&mut target).expect("Testing Expect");
    assert_eq!(target, doc(r#"{"foo": "qux"}"#));
}

#[test]
fn add_to_nested_object() {
    let op = PatchOperation::Add { path: Pointer::new("/foo/baz"), value: doc(r#""qux""#) };
    let mut target = doc(r#"{"foo": {"bar": 1}}"#);
    op.apply(&mut target).expect("Testing Expect");
    assert_eq!(target, doc(r#"{"foo": {"bar": 1, "baz": "qux"}}"#));
}

#[test]
fn add_nested_member_object_rfc() {
    let op = PatchOperation::Add { path: Pointer::new("/child"), value: doc(r#"{"grandchild": {}}"#) };
    let mut target = doc(r#"{"foo": "bar"}"#);
    op.apply(&mut target).expect("Testing Expect");
    assert_eq!(target, doc(r#"{"foo": "bar", "child": {"grandchild": {}}}"#));
}

#[test]
fn add_replace_root() {
    let op = PatchOperation::Add { path: Pointer::new(""), value: doc(r#"1"#) };
    let mut target = doc(r#"{}"#);
    op.apply(&mut target).expect("Testing Expect");
    assert_eq!(target, doc(r#"1"#));
}

#[test]
fn add_replaces_root_string() {
    let op = PatchOperation::Add { path: Pointer::new(""), value: doc(r#""qux""#) };
    let mut target = doc(r#""bar""#);
    op.apply(&mut target).expect("Testing Expect");
    assert_eq!(target, doc(r#""qux""#));
}

#[test]
fn add_replaces_root_bool() {
    let op = PatchOperation::Add { path: Pointer::new(""), value: doc(r#"false"#) };
    let mut target = doc(r#"true"#);
    op.apply(&mut target).expect("Testing Expect");
    assert_eq!(target, doc(r#"false"#));
}

#[test]
fn add_replaces_root_null() {
    let op = PatchOperation::Add { path: Pointer::new(""), value: doc(r#"{"foo": "bar"}"#) };
    let mut target = doc(r#"null"#);
    op.apply(&mut target).expect("Testing Expect");
    assert_eq!(target, doc(r#"{"foo": "bar"}"#));
}

#[test]
fn remove_object_member() {
    let op = PatchOperation::Remove { path: Pointer::new("/foo") };
    let mut target = doc(r#"{"foo": "bar", "baz": "qux"}"#);
    op.apply(&mut target).expect("Testing Expect");
    assert_eq!(target, doc(r#"{"baz": "qux"}"#));
}

#[test]
fn remove_object_member_rfc() {
    let op = PatchOperation::Remove { path: Pointer::new("/baz") };
    let mut target = doc(r#"{"baz": "qux", "foo": "bar"}"#);
    op.apply(&mut target).expect("Testing Expect");
    assert_eq!(target, doc(r#"{"foo": "bar"}"#));
}

#[test]
fn remove_nested_member_rfc() {
    let op = PatchOperation::Remove { path: Pointer::new("/a/b/c") };
    let mut target = doc(r#"{"a": {"b": {"c": "foo", "d": "bar"}}}"#);
    op.apply(&mut target).expect("Testing Expect");
    assert_eq!(target, doc(r#"{"a": {"b": {"d": "bar"}}}"#));
}

#[test]
fn remove_nested_object_member() {
    let op = PatchOperation::Remove { path: Pointer::new("/foo/bar") };
    let mut target = doc(r#"{"foo": {"bar": true, "baz": false}}"#);
    op.apply(&mut target).expect("Testing Expect");
    assert_eq!(target, doc(r#"{"foo": {"baz": false}}"#));
}

#[test]
fn remove_empty_object_member_name() {
    let op = PatchOperation::Remove { path: Pointer::new("/") };
    let mut target = doc(r#"{"": "empty", "foo": "bar"}"#);
    op.apply(&mut target).expect("Testing Expect");
    assert_eq!(target, doc(r#"{"foo": "bar"}"#));
}

#[test]
fn remove_escaped_object_member_name() {
    let op = PatchOperation::Remove { path: Pointer::new("/a~1b/c~0d") };
    let mut target = doc(r#"{"a/b": {"c~d": 1, "e": 2}}"#);
    op.apply(&mut target).expect("Testing Expect");
    assert_eq!(target, doc(r#"{"a/b": {"e": 2}}"#));
}

#[test]
fn remove_first_array_item() {
    let op = PatchOperation::Remove { path: Pointer::new("/arr/0") };
    let mut target = doc(r#"{"arr": [1, 2, 3]}"#);
    op.apply(&mut target).expect("Testing Expect");
    assert_eq!(target, doc(r#"{"arr": [2, 3]}"#));
}

#[test]
fn remove_middle_array_item() {
    let op = PatchOperation::Remove { path: Pointer::new("/arr/1") };
    let mut target = doc(r#"{"arr": [1, 2, 3]}"#);
    op.apply(&mut target).expect("Testing Expect");
    assert_eq!(target, doc(r#"{"arr": [1, 3]}"#));
}

#[test]
fn remove_array_element_rfc() {
    let op = PatchOperation::Remove { path: Pointer::new("/foo/1") };
    let mut target = doc(r#"{"foo": ["bar", "qux", "baz"]}"#);
    op.apply(&mut target).expect("Testing Expect");
    assert_eq!(target, doc(r#"{"foo": ["bar", "baz"]}"#));
}

#[test]
fn remove_last_array_item() {
    let op = PatchOperation::Remove { path: Pointer::new("/arr/2") };
    let mut target = doc(r#"{"arr": [1, 2, 3]}"#);
    op.apply(&mut target).expect("Testing Expect");
    assert_eq!(target, doc(r#"{"arr": [1, 2]}"#));
}

#[test]
fn remove_array_item_at_root() {
    let op = PatchOperation::Remove { path: Pointer::new("/1") };
    let mut target = doc(r#"["foo", "bar", "baz"]"#);
    op.apply(&mut target).expect("Testing Expect");
    assert_eq!(target, doc(r#"["foo", "baz"]"#));
}

#[test]
fn replace_object_member_rfc() {
    let op = PatchOperation::Replace { path: Pointer::new("/baz"), value: doc(r#""boo""#) };
    let mut target = doc(r#"{"baz": "qux", "foo": "bar"}"#);
    op.apply(&mut target).expect("Testing Expect");
    assert_eq!(target, doc(r#"{"baz": "boo", "foo": "bar"}"#));
}

#[test]
fn replace_nested_member_rfc() {
    let op = PatchOperation::Replace { path: Pointer::new("/a/b/c"), value: doc(r#"42"#) };
    let mut target = doc(r#"{"a": {"b": {"c": "foo", "d": "bar"}}}"#);
    op.apply(&mut target).expect("Testing Expect");
    assert_eq!(target, doc(r#"{"a": {"b": {"c": 42, "d": "bar"}}}"#));
}

#[test]
fn replace_object_member_with_object() {
    let op = PatchOperation::Replace { path: Pointer::new("/foo"), value: doc(r#"{"bar": true}"#) };
    let mut target = doc(r#"{"foo": "bar", "baz": "qux"}"#);
    op.apply(&mut target).expect("Testing Expect");
    assert_eq!(target, doc(r#"{"foo": {"bar": true}, "baz": "qux"}"#));
}

#[test]
fn replace_empty_object_member_name() {
    let op = PatchOperation::Replace { path: Pointer::new("/"), value: doc(r#""replaced""#) };
    let mut target = doc(r#"{"": "empty", "foo": "bar"}"#);
    op.apply(&mut target).expect("Testing Expect");
    assert_eq!(target, doc(r#"{"": "replaced", "foo": "bar"}"#));
}

#[test]
fn replace_escaped_object_member_name() {
    let op = PatchOperation::Replace { path: Pointer::new("/a~1b/c~0d"), value: doc(r#"false"#) };
    let mut target = doc(r#"{"a/b": {"c~d": true, "e": 2}}"#);
    op.apply(&mut target).expect("Testing Expect");
    assert_eq!(target, doc(r#"{"a/b": {"c~d": false, "e": 2}}"#));
}

#[test]
fn replace_array_element() {
    let op = PatchOperation::Replace { path: Pointer::new("/arr/1"), value: doc(r#""two""#) };
    let mut target = doc(r#"{"arr": [1, 2, 3]}"#);
    op.apply(&mut target).expect("Testing Expect");
    assert_eq!(target, doc(r#"{"arr": [1, "two", 3]}"#));
}

#[test]
fn replace_array_element_with_array() {
    let op = PatchOperation::Replace { path: Pointer::new("/arr/0"), value: doc(r#"["nested"]"#) };
    let mut target = doc(r#"{"arr": [1, 2, 3]}"#);
    op.apply(&mut target).expect("Testing Expect");
    assert_eq!(target, doc(r#"{"arr": [["nested"], 2, 3]}"#));
}

#[test]
fn replace_array_element_at_root() {
    let op = PatchOperation::Replace { path: Pointer::new("/1"), value: doc(r#""bar""#) };
    let mut target = doc(r#"["foo", "qux", "baz"]"#);
    op.apply(&mut target).expect("Testing Expect");
    assert_eq!(target, doc(r#"["foo", "bar", "baz"]"#));
}

#[test]
fn replace_root_with_string() {
    let op = PatchOperation::Replace { path: Pointer::new(""), value: doc(r#""root""#) };
    let mut target = doc(r#"{"foo": "bar"}"#);
    op.apply(&mut target).expect("Testing Expect");
    assert_eq!(target, doc(r#""root""#));
}

#[test]
fn replace_root_with_number() {
    let op = PatchOperation::Replace { path: Pointer::new(""), value: doc(r#"42"#) };
    let mut target = doc(r#"{"foo": "bar"}"#);
    op.apply(&mut target).expect("Testing Expect");
    assert_eq!(target, doc(r#"42"#));
}

#[test]
fn replace_root_with_bool() {
    let op = PatchOperation::Replace { path: Pointer::new(""), value: doc(r#"false"#) };
    let mut target = doc(r#"{"foo": "bar"}"#);
    op.apply(&mut target).expect("Testing Expect");
    assert_eq!(target, doc(r#"false"#));
}

#[test]
fn replace_root_with_null() {
    let op = PatchOperation::Replace { path: Pointer::new(""), value: doc(r#"null"#) };
    let mut target = doc(r#"{"foo": "bar"}"#);
    op.apply(&mut target).expect("Testing Expect");
    assert_eq!(target, doc(r#"null"#));
}

#[test]
fn replace_array_root_with_string() {
    let op = PatchOperation::Replace { path: Pointer::new(""), value: doc(r#""root""#) };
    let mut target = doc(r#"[1, 2, 3]"#);
    op.apply(&mut target).expect("Testing Expect");
    assert_eq!(target, doc(r#""root""#));
}

#[test]
fn move_object_member_rfc() {
    let op = PatchOperation::Move { from: Pointer::new("/foo/waldo"), path: Pointer::new("/qux/thud") };
    let mut target = doc(r#"{"foo": {"bar": "baz", "waldo": "fred"}, "qux": {"corge": "grault"}}"#);
    op.apply(&mut target).expect("Testing Expect");
    assert_eq!(target, doc(r#"{"foo": {"bar": "baz"}, "qux": {"corge": "grault", "thud": "fred"}}"#));
}

#[test]
fn move_array_element_rfc() {
    let op = PatchOperation::Move { from: Pointer::new("/foo/1"), path: Pointer::new("/foo/3") };
    let mut target = doc(r#"{"foo": ["all", "grass", "cows", "eat"]}"#);
    op.apply(&mut target).expect("Testing Expect");
    assert_eq!(target, doc(r#"{"foo": ["all", "cows", "eat", "grass"]}"#));
}

#[test]
fn move_object_member_to_new_member() {
    let op = PatchOperation::Move { from: Pointer::new("/foo"), path: Pointer::new("/baz") };
    let mut target = doc(r#"{"foo": "bar"}"#);
    op.apply(&mut target).expect("Testing Expect");
    assert_eq!(target, doc(r#"{"baz": "bar"}"#));
}

#[test]
fn move_object_member_replaces_existing_member() {
    let op = PatchOperation::Move { from: Pointer::new("/foo"), path: Pointer::new("/baz") };
    let mut target = doc(r#"{"foo": "bar", "baz": "qux"}"#);
    op.apply(&mut target).expect("Testing Expect");
    assert_eq!(target, doc(r#"{"baz": "bar"}"#));
}

#[test]
fn move_nested_object_member() {
    let op = PatchOperation::Move { from: Pointer::new("/foo/bar"), path: Pointer::new("/baz/qux") };
    let mut target = doc(r#"{"foo": {"bar": true}, "baz": {}}"#);
    op.apply(&mut target).expect("Testing Expect");
    assert_eq!(target, doc(r#"{"foo": {}, "baz": {"qux": true}}"#));
}

#[test]
fn move_escaped_object_member_name() {
    let op = PatchOperation::Move { from: Pointer::new("/a~1b/c~0d"), path: Pointer::new("/target") };
    let mut target = doc(r#"{"a/b": {"c~d": 1, "e": 2}}"#);
    op.apply(&mut target).expect("Testing Expect");
    assert_eq!(target, doc(r#"{"a/b": {"e": 2}, "target": 1}"#));
}

#[test]
fn move_array_element_to_start() {
    let op = PatchOperation::Move { from: Pointer::new("/arr/2"), path: Pointer::new("/arr/0") };
    let mut target = doc(r#"{"arr": [1, 2, 3]}"#);
    op.apply(&mut target).expect("Testing Expect");
    assert_eq!(target, doc(r#"{"arr": [3, 1, 2]}"#));
}

#[test]
fn move_array_element_to_end() {
    let op = PatchOperation::Move { from: Pointer::new("/arr/0"), path: Pointer::new("/arr/-") };
    let mut target = doc(r#"{"arr": [1, 2, 3]}"#);
    op.apply(&mut target).expect("Testing Expect");
    assert_eq!(target, doc(r#"{"arr": [2, 3, 1]}"#));
}

#[test]
fn move_child_replaces_parent() {
    let op = PatchOperation::Move { from: Pointer::new("/foo/bar"), path: Pointer::new("/foo") };
    let mut target = doc(r#"{"foo": {"bar": "baz"}, "qux": true}"#);
    op.apply(&mut target).expect("Testing Expect");
    assert_eq!(target, doc(r#"{"foo": "baz", "qux": true}"#));
}

#[test]
fn move_array_child_replaces_parent_element() {
    let op = PatchOperation::Move { from: Pointer::new("/arr/0/1"), path: Pointer::new("/arr/0") };
    let mut target = doc(r#"{"arr": [[1, 2], 3]}"#);
    op.apply(&mut target).expect("Testing Expect");
    assert_eq!(target, doc(r#"{"arr": [2, [1], 3]}"#));
}

#[test]
fn move_root_replaced_by_child() {
    let op = PatchOperation::Move { from: Pointer::new("/foo"), path: Pointer::new("") };
    let mut target = doc(r#"{"foo": {"bar": "baz"}, "qux": true}"#);
    op.apply(&mut target).expect("Testing Expect");
    assert_eq!(target, doc(r#"{"bar": "baz"}"#));
}

#[test]
fn move_root_replaced_by_primitive_child() {
    let op = PatchOperation::Move { from: Pointer::new("/foo"), path: Pointer::new("") };
    let mut target = doc(r#"{"foo": "bar", "qux": true}"#);
    op.apply(&mut target).expect("Testing Expect");
    assert_eq!(target, doc(r#""bar""#));
}

#[test]
fn move_root_replaced_by_array_child_primitive() {
    let op = PatchOperation::Move { from: Pointer::new("/arr/0"), path: Pointer::new("") };
    let mut target = doc(r#"{"arr": [1, 2, 3]}"#);
    op.apply(&mut target).expect("Testing Expect");
    assert_eq!(target, doc(r#"1"#));
}

#[test]
fn copy_object_member_rfc() {
    let op = PatchOperation::Copy { from: Pointer::new("/a/b/c"), path: Pointer::new("/a/b/e") };
    let mut target = doc(r#"{"a": {"b": {"c": "foo", "d": "bar"}}}"#);
    op.apply(&mut target).expect("Testing Expect");
    assert_eq!(target, doc(r#"{"a": {"b": {"c": "foo", "d": "bar", "e": "foo"}}}"#));
}

#[test]
fn copy_object_member_to_new_member() {
    let op = PatchOperation::Copy { from: Pointer::new("/foo"), path: Pointer::new("/baz") };
    let mut target = doc(r#"{"foo": "bar"}"#);
    op.apply(&mut target).expect("Testing Expect");
    assert_eq!(target, doc(r#"{"foo": "bar", "baz": "bar"}"#));
}

#[test]
fn copy_object_member_replaces_existing_member() {
    let op = PatchOperation::Copy { from: Pointer::new("/foo"), path: Pointer::new("/baz") };
    let mut target = doc(r#"{"foo": "bar", "baz": "qux"}"#);
    op.apply(&mut target).expect("Testing Expect");
    assert_eq!(target, doc(r#"{"foo": "bar", "baz": "bar"}"#));
}

#[test]
fn copy_nested_object_member() {
    let op = PatchOperation::Copy { from: Pointer::new("/foo/bar"), path: Pointer::new("/baz/qux") };
    let mut target = doc(r#"{"foo": {"bar": true}, "baz": {}}"#);
    op.apply(&mut target).expect("Testing Expect");
    assert_eq!(target, doc(r#"{"foo": {"bar": true}, "baz": {"qux": true}}"#));
}

#[test]
fn copy_escaped_object_member_name() {
    let op = PatchOperation::Copy { from: Pointer::new("/a~1b/c~0d"), path: Pointer::new("/target") };
    let mut target = doc(r#"{"a/b": {"c~d": 1, "e": 2}}"#);
    op.apply(&mut target).expect("Testing Expect");
    assert_eq!(target, doc(r#"{"a/b": {"c~d": 1, "e": 2}, "target": 1}"#));
}

#[test]
fn copy_array_element_to_start() {
    let op = PatchOperation::Copy { from: Pointer::new("/arr/2"), path: Pointer::new("/arr/0") };
    let mut target = doc(r#"{"arr": [1, 2, 3]}"#);
    op.apply(&mut target).expect("Testing Expect");
    assert_eq!(target, doc(r#"{"arr": [3, 1, 2, 3]}"#));
}

#[test]
fn copy_array_element_to_end() {
    let op = PatchOperation::Copy { from: Pointer::new("/arr/0"), path: Pointer::new("/arr/-") };
    let mut target = doc(r#"{"arr": [1, 2, 3]}"#);
    op.apply(&mut target).expect("Testing Expect");
    assert_eq!(target, doc(r#"{"arr": [1, 2, 3, 1]}"#));
}

#[test]
fn copy_array_element_to_index_at_end() {
    let op = PatchOperation::Copy { from: Pointer::new("/arr/0"), path: Pointer::new("/arr/3") };
    let mut target = doc(r#"{"arr": [1, 2, 3]}"#);
    op.apply(&mut target).expect("Testing Expect");
    assert_eq!(target, doc(r#"{"arr": [1, 2, 3, 1]}"#));
}

#[test]
fn copy_child_to_root() {
    let op = PatchOperation::Copy { from: Pointer::new("/foo"), path: Pointer::new("") };
    let mut target = doc(r#"{"foo": {"bar": "baz"}, "qux": true}"#);
    op.apply(&mut target).expect("Testing Expect");
    assert_eq!(target, doc(r#"{"bar": "baz"}"#));
}

#[test]
fn copy_primitive_child_to_root() {
    let op = PatchOperation::Copy { from: Pointer::new("/foo"), path: Pointer::new("") };
    let mut target = doc(r#"{"foo": "bar", "qux": true}"#);
    op.apply(&mut target).expect("Testing Expect");
    assert_eq!(target, doc(r#""bar""#));
}

#[test]
fn copy_root_to_object_member() {
    let op = PatchOperation::Copy { from: Pointer::new(""), path: Pointer::new("/copy") };
    let mut target = doc(r#"{"foo": "bar"}"#);
    op.apply(&mut target).expect("Testing Expect");
    assert_eq!(target, doc(r#"{"foo": "bar", "copy": {"foo": "bar"}}"#));
}

#[test]
fn test_object_member_rfc() {
    let op = PatchOperation::Test { path: Pointer::new("/baz"), value: doc(r#""qux""#) };
    let mut target = doc(r#"{"baz": "qux", "foo": [ "a", 2, "c" ]}"#);
    let expected = target.clone();
    op.apply(&mut target).expect("Testing Expect");
    assert_eq!(target, expected);
}

#[test]
fn test_array_element_rfc() {
    let op = PatchOperation::Test { path: Pointer::new("/foo/1"), value: doc(r#"2"#) };
    let mut target = doc(r#"{"baz": "qux", "foo": [ "a", 2, "c" ]}"#);
    let expected = target.clone();
    op.apply(&mut target).expect("Testing Expect");
    assert_eq!(target, expected);
}

#[test]
fn test_root_object() {
    let op = PatchOperation::Test { path: Pointer::new(""), value: doc(r#"{"foo": "bar"}"#) };
    let mut target = doc(r#"{"foo": "bar"}"#);
    let expected = target.clone();
    op.apply(&mut target).expect("Testing Expect");
    assert_eq!(target, expected);
}

#[test]
fn test_root_string() {
    let op = PatchOperation::Test { path: Pointer::new(""), value: doc(r#""foo""#) };
    let mut target = doc(r#""foo""#);
    let expected = target.clone();
    op.apply(&mut target).expect("Testing Expect");
    assert_eq!(target, expected);
}

#[test]
fn test_root_number() {
    let op = PatchOperation::Test { path: Pointer::new(""), value: doc(r#"42"#) };
    let mut target = doc(r#"42"#);
    let expected = target.clone();
    op.apply(&mut target).expect("Testing Expect");
    assert_eq!(target, expected);
}

#[test]
fn test_root_bool() {
    let op = PatchOperation::Test { path: Pointer::new(""), value: doc(r#"true"#) };
    let mut target = doc(r#"true"#);
    let expected = target.clone();
    op.apply(&mut target).expect("Testing Expect");
    assert_eq!(target, expected);
}

#[test]
fn test_root_null() {
    let op = PatchOperation::Test { path: Pointer::new(""), value: doc(r#"null"#) };
    let mut target = doc(r#"null"#);
    let expected = target.clone();
    op.apply(&mut target).expect("Testing Expect");
    assert_eq!(target, expected);
}

#[test]
fn test_array_deep_equal() {
    let op = PatchOperation::Test { path: Pointer::new("/foo"), value: doc(r#"["a", {"b": [1, true, null]}]"#) };
    let mut target = doc(r#"{"foo": ["a", {"b": [1, true, null]}]}"#);
    let expected = target.clone();
    op.apply(&mut target).expect("Testing Expect");
    assert_eq!(target, expected);
}

#[test]
fn test_object_deep_equal() {
    let op = PatchOperation::Test { path: Pointer::new("/foo"), value: doc(r#"{"bar": {"baz": [1, 2]}}"#) };
    let mut target = doc(r#"{"foo": {"bar": {"baz": [1, 2]}}}"#);
    let expected = target.clone();
    op.apply(&mut target).expect("Testing Expect");
    assert_eq!(target, expected);
}

#[test]
fn test_escaped_object_member_name() {
    let op = PatchOperation::Test { path: Pointer::new("/a~1b/c~0d"), value: doc(r#"1"#) };
    let mut target = doc(r#"{"a/b": {"c~d": 1}}"#);
    let expected = target.clone();
    op.apply(&mut target).expect("Testing Expect");
    assert_eq!(target, expected);
}

#[test]
fn test_strings_and_numbers_rfc_number() {
    let op = PatchOperation::Test { path: Pointer::new("/~01"), value: doc(r#"10"#) };
    let mut target = doc(r#"{"/": 9, "~1": 10}"#);
    let expected = target.clone();
    op.apply(&mut target).expect("Testing Expect");
    assert_eq!(target, expected);
}

#[test]
fn test_strings_and_numbers_rfc_string() {
    let op = PatchOperation::Test { path: Pointer::new("/~01"), value: doc(r#""10""#) };
    let mut target = doc(r#"{"/": 9, "~1": "10"}"#);
    let expected = target.clone();
    op.apply(&mut target).expect("Testing Expect");
    assert_eq!(target, expected);
}

#[test]
fn add_to_missing_array() {
    let op = PatchOperation::Add { path: Pointer::new("/missing/0"), value: doc(r#"4"#) };
    let mut target = doc(r#"{"arr": [1,2,3]}"#);
    let result = op.apply(&mut target);
    assert!(result.is_err());
    let error = result.err().unwrap();
    assert_eq!(error, ApplicationError::PathNotFound(Pointer::new("/missing")));
}

#[test]
fn add_to_missing_nested_array() {
    let op = PatchOperation::Add { path: Pointer::new("/parent/missing/0"), value: doc(r#"4"#) };
    let mut target = doc(r#"{"parent": {"arr": [1,2,3]}}"#);
    let result = op.apply(&mut target);
    assert!(result.is_err());
    let error = result.err().unwrap();
    assert_eq!(error, ApplicationError::PathNotFound(Pointer::new("/parent/missing")));
}

#[test]
fn add_to_missing_object_parent_rfc() {
    let op = PatchOperation::Add { path: Pointer::new("/baz/bat"), value: doc(r#""qux""#) };
    let mut target = doc(r#"{"foo": "bar"}"#);
    let result = op.apply(&mut target);
    assert!(result.is_err());
    let error = result.err().unwrap();
    assert_eq!(error, ApplicationError::PathNotFound(Pointer::new("/baz")));
}

#[test]
fn add_to_missing_nested_object_parent() {
    let op = PatchOperation::Add { path: Pointer::new("/foo/baz/bat"), value: doc(r#""qux""#) };
    let mut target = doc(r#"{"foo": {}}"#);
    let result = op.apply(&mut target);
    assert!(result.is_err());
    let error = result.err().unwrap();
    assert_eq!(error, ApplicationError::PathNotFound(Pointer::new("/foo/baz")));
}

#[test]
fn add_with_missing_array_index() {
    let op = PatchOperation::Add { path: Pointer::new(""), value: doc(r#"4"#) };
    let mut target = doc(r#"[1,2,3]"#);
    let result = op.apply(&mut target);
    assert!(result.is_err());
    let error = result.err().unwrap();
    assert_eq!(error, ApplicationError::ArraySyntaxError(Pointer::new("")));
}

#[test]
fn add_with_non_numeric_array_index() {
    let op = PatchOperation::Add { path: Pointer::new("/arr/foo"), value: doc(r#"4"#) };
    let mut target = doc(r#"{"arr": [1,2,3]}"#);
    let result = op.apply(&mut target);
    assert!(result.is_err());
    let error = result.err().unwrap();
    assert_eq!(error, ApplicationError::ArraySyntaxError(Pointer::new("/arr/foo")));
}

#[test]
fn add_with_negative_array_index() {
    let op = PatchOperation::Add { path: Pointer::new("/arr/-1"), value: doc(r#"4"#) };
    let mut target = doc(r#"{"arr": [1,2,3]}"#);
    let result = op.apply(&mut target);
    assert!(result.is_err());
    let error = result.err().unwrap();
    assert_eq!(error, ApplicationError::ArraySyntaxError(Pointer::new("/arr/-1")));
}

#[test]
fn add_past_array_end() {
    let op = PatchOperation::Add { path: Pointer::new("/arr/4"), value: doc(r#"4"#) };
    let mut target = doc(r#"{"arr": [1,2,3]}"#);
    let result = op.apply(&mut target);
    assert!(result.is_err());
    let error = result.err().unwrap();
    assert_eq!(error, ApplicationError::ArrayOutOfBounds(Pointer::new("/arr/4")));
}

#[test]
fn remove_missing_object_member() {
    let op = PatchOperation::Remove { path: Pointer::new("/missing") };
    let mut target = doc(r#"{"foo": "bar"}"#);
    let result = op.apply(&mut target);
    assert!(result.is_err());
    let error = result.err().unwrap();
    assert_eq!(error, ApplicationError::PathNotFound(Pointer::new("/missing")));
}

#[test]
fn remove_missing_nested_object_member() {
    let op = PatchOperation::Remove { path: Pointer::new("/foo/missing") };
    let mut target = doc(r#"{"foo": {"bar": "baz"}}"#);
    let result = op.apply(&mut target);
    assert!(result.is_err());
    let error = result.err().unwrap();
    assert_eq!(error, ApplicationError::PathNotFound(Pointer::new("/foo/missing")));
}

#[test]
fn remove_from_missing_parent() {
    let op = PatchOperation::Remove { path: Pointer::new("/missing/foo") };
    let mut target = doc(r#"{"foo": "bar"}"#);
    let result = op.apply(&mut target);
    assert!(result.is_err());
    let error = result.err().unwrap();
    assert_eq!(error, ApplicationError::PathNotFound(Pointer::new("/missing")));
}

#[test]
fn remove_from_empty_path_in_array() {
    let op = PatchOperation::Remove { path: Pointer::new("") };
    let mut target = doc(r#"[1, 2, 3]"#);
    let result = op.apply(&mut target);
    assert!(result.is_err());
    let error = result.err().unwrap();
    assert_eq!(error, ApplicationError::ArraySyntaxError(Pointer::new("")));
}

#[test]
fn remove_with_non_numeric_array_index() {
    let op = PatchOperation::Remove { path: Pointer::new("/arr/foo") };
    let mut target = doc(r#"{"arr": [1, 2, 3]}"#);
    let result = op.apply(&mut target);
    assert!(result.is_err());
    let error = result.err().unwrap();
    assert_eq!(error, ApplicationError::ArraySyntaxError(Pointer::new("/arr/foo")));
}

#[test]
fn remove_with_append_array_index() {
    let op = PatchOperation::Remove { path: Pointer::new("/arr/-") };
    let mut target = doc(r#"{"arr": [1, 2, 3]}"#);
    let result = op.apply(&mut target);
    assert!(result.is_err());
    let error = result.err().unwrap();
    assert_eq!(error, ApplicationError::ArraySyntaxError(Pointer::new("/arr/-")));
}

#[test]
fn remove_with_negative_array_index() {
    let op = PatchOperation::Remove { path: Pointer::new("/arr/-1") };
    let mut target = doc(r#"{"arr": [1, 2, 3]}"#);
    let result = op.apply(&mut target);
    assert!(result.is_err());
    let error = result.err().unwrap();
    assert_eq!(error, ApplicationError::ArraySyntaxError(Pointer::new("/arr/-1")));
}

#[test]
fn remove_past_array_end() {
    let op = PatchOperation::Remove { path: Pointer::new("/arr/3") };
    let mut target = doc(r#"{"arr": [1, 2, 3]}"#);
    let result = op.apply(&mut target);
    assert!(result.is_err());
    let error = result.err().unwrap();
    assert_eq!(error, ApplicationError::ArrayOutOfBounds(Pointer::new("/arr/3")));
}

#[test]
fn remove_from_object_root() {
    let op = PatchOperation::Remove { path: Pointer::new("") };
    let mut target = doc(r#"{"foo": "bar"}"#);
    let result = op.apply(&mut target);
    assert!(result.is_err());
    let error = result.err().unwrap();
    assert_eq!(error, ApplicationError::PathNotFound(Pointer::new("")));
}

#[test]
fn remove_from_string() {
    let op = PatchOperation::Remove { path: Pointer::new("/foo") };
    let mut target = doc(r#""bar""#);
    let result = op.apply(&mut target);
    assert!(result.is_err());
    let error = result.err().unwrap();
    assert_eq!(error, ApplicationError::NotApplicable(PatchOperation::Remove { path: Pointer::new("/foo") }));
}

#[test]
fn replace_missing_object_member() {
    let op = PatchOperation::Replace { path: Pointer::new("/missing"), value: doc(r#""bar""#) };
    let mut target = doc(r#"{"foo": "bar"}"#);
    let result = op.apply(&mut target);
    assert!(result.is_err());
    let error = result.err().unwrap();
    assert_eq!(error, ApplicationError::PathNotFound(Pointer::new("/missing")));
}

#[test]
fn replace_missing_nested_object_member() {
    let op = PatchOperation::Replace { path: Pointer::new("/foo/missing"), value: doc(r#""bar""#) };
    let mut target = doc(r#"{"foo": {"bar": "baz"}}"#);
    let result = op.apply(&mut target);
    assert!(result.is_err());
    let error = result.err().unwrap();
    assert_eq!(error, ApplicationError::PathNotFound(Pointer::new("/foo/missing")));
}

#[test]
fn replace_from_missing_parent() {
    let op = PatchOperation::Replace { path: Pointer::new("/missing/foo"), value: doc(r#""bar""#) };
    let mut target = doc(r#"{"foo": "bar"}"#);
    let result = op.apply(&mut target);
    assert!(result.is_err());
    let error = result.err().unwrap();
    assert_eq!(error, ApplicationError::PathNotFound(Pointer::new("/missing")));
}

#[test]
fn replace_with_non_numeric_array_index() {
    let op = PatchOperation::Replace { path: Pointer::new("/arr/foo"), value: doc(r#""bar""#) };
    let mut target = doc(r#"{"arr": [1, 2, 3]}"#);
    let result = op.apply(&mut target);
    assert!(result.is_err());
    let error = result.err().unwrap();
    assert_eq!(error, ApplicationError::PathNotFound(Pointer::new("/arr/foo")));
}

#[test]
fn replace_with_append_array_index() {
    let op = PatchOperation::Replace { path: Pointer::new("/arr/-"), value: doc(r#""bar""#) };
    let mut target = doc(r#"{"arr": [1, 2, 3]}"#);
    let result = op.apply(&mut target);
    assert!(result.is_err());
    let error = result.err().unwrap();
    assert_eq!(error, ApplicationError::PathNotFound(Pointer::new("/arr/-")));
}

#[test]
fn replace_with_negative_array_index() {
    let op = PatchOperation::Replace { path: Pointer::new("/arr/-1"), value: doc(r#""bar""#) };
    let mut target = doc(r#"{"arr": [1, 2, 3]}"#);
    let result = op.apply(&mut target);
    assert!(result.is_err());
    let error = result.err().unwrap();
    assert_eq!(error, ApplicationError::PathNotFound(Pointer::new("/arr/-1")));
}

#[test]
fn replace_past_array_end() {
    let op = PatchOperation::Replace { path: Pointer::new("/arr/3"), value: doc(r#""bar""#) };
    let mut target = doc(r#"{"arr": [1, 2, 3]}"#);
    let result = op.apply(&mut target);
    assert!(result.is_err());
    let error = result.err().unwrap();
    assert_eq!(error, ApplicationError::PathNotFound(Pointer::new("/arr/3")));
}

#[test]
fn replace_child_of_string() {
    let op = PatchOperation::Replace { path: Pointer::new("/foo"), value: doc(r#""bar""#) };
    let mut target = doc(r#""qux""#);
    let result = op.apply(&mut target);
    assert!(result.is_err());
    let error = result.err().unwrap();
    assert_eq!(error, ApplicationError::PathNotFound(Pointer::new("/foo")));
}

#[test]
fn move_from_missing_source() {
    let op = PatchOperation::Move { from: Pointer::new("/missing"), path: Pointer::new("/foo") };
    let mut target = doc(r#"{"foo": "bar"}"#);
    let result = op.apply(&mut target);
    assert!(result.is_err());
    let error = result.err().unwrap();
    assert_eq!(error, ApplicationError::PathNotFound(Pointer::new("/missing")));
}

#[test]
fn move_to_missing_parent() {
    let op = PatchOperation::Move { from: Pointer::new("/foo"), path: Pointer::new("/missing/bar") };
    let mut target = doc(r#"{"foo": "bar"}"#);
    let result = op.apply(&mut target);
    assert!(result.is_err());
    let error = result.err().unwrap();
    assert_eq!(error, ApplicationError::PathNotFound(Pointer::new("/missing")));
}

#[test]
fn move_to_child_of_source() {
    let op = PatchOperation::Move { from: Pointer::new("/foo"), path: Pointer::new("/foo/bar") };
    let mut target = doc(r#"{"foo": {"baz": "qux"}}"#);
    let result = op.apply(&mut target);
    assert!(result.is_err());
    let error = result.err().unwrap();
    assert_eq!(error, ApplicationError::NotApplicable(PatchOperation::Move {
                from: Pointer::new("/foo"),
                path: Pointer::new("/foo/bar")
            }));
}

#[test]
fn move_with_non_numeric_array_destination() {
    let op = PatchOperation::Move { from: Pointer::new("/foo"), path: Pointer::new("/arr/foo") };
    let mut target = doc(r#"{"foo": "bar", "arr": [1, 2, 3]}"#);
    let result = op.apply(&mut target);
    assert!(result.is_err());
    let error = result.err().unwrap();
    assert_eq!(error, ApplicationError::ArraySyntaxError(Pointer::new("/arr/foo")));
}

#[test]
fn move_past_array_end() {
    let op = PatchOperation::Move { from: Pointer::new("/foo"), path: Pointer::new("/arr/4") };
    let mut target = doc(r#"{"foo": "bar", "arr": [1, 2, 3]}"#);
    let result = op.apply(&mut target);
    assert!(result.is_err());
    let error = result.err().unwrap();
    assert_eq!(error, ApplicationError::ArrayOutOfBounds(Pointer::new("/arr/4")));
}

#[test]
fn copy_from_missing_source() {
    let op = PatchOperation::Copy { from: Pointer::new("/missing"), path: Pointer::new("/foo") };
    let mut target = doc(r#"{"foo": "bar"}"#);
    let result = op.apply(&mut target);
    assert!(result.is_err());
    let error = result.err().unwrap();
    assert_eq!(error, ApplicationError::PathNotFound(Pointer::new("/missing")));
}

#[test]
fn copy_to_missing_parent() {
    let op = PatchOperation::Copy { from: Pointer::new("/foo"), path: Pointer::new("/missing/bar") };
    let mut target = doc(r#"{"foo": "bar"}"#);
    let result = op.apply(&mut target);
    assert!(result.is_err());
    let error = result.err().unwrap();
    assert_eq!(error, ApplicationError::PathNotFound(Pointer::new("/missing")));
}

#[test]
fn copy_with_non_numeric_array_destination() {
    let op = PatchOperation::Copy { from: Pointer::new("/foo"), path: Pointer::new("/arr/foo") };
    let mut target = doc(r#"{"foo": "bar", "arr": [1, 2, 3]}"#);
    let result = op.apply(&mut target);
    assert!(result.is_err());
    let error = result.err().unwrap();
    assert_eq!(error, ApplicationError::ArraySyntaxError(Pointer::new("/arr/foo")));
}

#[test]
fn copy_past_array_end() {
    let op = PatchOperation::Copy { from: Pointer::new("/foo"), path: Pointer::new("/arr/4") };
    let mut target = doc(r#"{"foo": "bar", "arr": [1, 2, 3]}"#);
    let result = op.apply(&mut target);
    assert!(result.is_err());
    let error = result.err().unwrap();
    assert_eq!(error, ApplicationError::ArrayOutOfBounds(Pointer::new("/arr/4")));
}

#[test]
fn test_missing_path() {
    let op = PatchOperation::Test { path: Pointer::new("/missing"), value: doc(r#""bar""#) };
    let mut target = doc(r#"{"foo": "bar"}"#);
    let result = op.apply(&mut target);
    assert!(result.is_err());
    let error = result.err().unwrap();
    assert_eq!(error, ApplicationError::PathNotFound(Pointer::new("/missing")));
}

#[test]
fn test_object_member_rfc_failure() {
    let op = PatchOperation::Test { path: Pointer::new("/baz"), value: doc(r#""bar""#) };
    let mut target = doc(r#"{"baz": "qux"}"#);
    let result = op.apply(&mut target);
    assert!(result.is_err());
    let error = result.err().unwrap();
    assert_eq!(error, ApplicationError::TestFailed {
                path: Pointer::new("/baz"),
                value: doc(r#""qux""#),
                test_value: doc(r#""bar""#)
            });
}

#[test]
fn test_string_number_mismatch() {
    let op = PatchOperation::Test { path: Pointer::new("/foo"), value: doc(r#""1""#) };
    let mut target = doc(r#"{"foo": 1}"#);
    let result = op.apply(&mut target);
    assert!(result.is_err());
    let error = result.err().unwrap();
    assert_eq!(error, ApplicationError::TestFailed {
                path: Pointer::new("/foo"),
                value: doc(r#"1"#),
                test_value: doc(r#""1""#)
            });
}

#[test]
fn test_bool_mismatch() {
    let op = PatchOperation::Test { path: Pointer::new("/foo"), value: doc(r#"false"#) };
    let mut target = doc(r#"{"foo": true}"#);
    let result = op.apply(&mut target);
    assert!(result.is_err());
    let error = result.err().unwrap();
    assert_eq!(error, ApplicationError::TestFailed {
                path: Pointer::new("/foo"),
                value: doc(r#"true"#),
                test_value: doc(r#"false"#)
            });
}

#[test]
fn test_null_mismatch() {
    let op = PatchOperation::Test { path: Pointer::new("/foo"), value: doc(r#"false"#) };
    let mut target = doc(r#"{"foo": null}"#);
    let result = op.apply(&mut target);
    assert!(result.is_err());
    let error = result.err().unwrap();
    assert_eq!(error, ApplicationError::TestFailed {
                path: Pointer::new("/foo"),
                value: doc(r#"null"#),
                test_value: doc(r#"false"#)
            });
}

#[test]
fn test_array_length_mismatch() {
    let op = PatchOperation::Test { path: Pointer::new("/foo"), value: doc(r#"[1, 2]"#) };
    let mut target = doc(r#"{"foo": [1, 2, 3]}"#);
    let result = op.apply(&mut target);
    assert!(result.is_err());
    let error = result.err().unwrap();
    assert_eq!(error, ApplicationError::TestFailed {
                path: Pointer::new("/foo"),
                value: doc(r#"[1, 2, 3]"#),
                test_value: doc(r#"[1, 2]"#)
            });
}

#[test]
fn test_array_value_mismatch() {
    let op = PatchOperation::Test { path: Pointer::new("/foo"), value: doc(r#"[1, 3]"#) };
    let mut target = doc(r#"{"foo": [1, 2]}"#);
    let result = op.apply(&mut target);
    assert!(result.is_err());
    let error = result.err().unwrap();
    assert_eq!(error, ApplicationError::TestFailed {
                path: Pointer::new("/foo"),
                value: doc(r#"[1, 2]"#),
                test_value: doc(r#"[1, 3]"#)
            });
}

#[test]
fn test_object_value_mismatch() {
    let op = PatchOperation::Test { path: Pointer::new("/foo"), value: doc(r#"{"bar": 2}"#) };
    let mut target = doc(r#"{"foo": {"bar": 1}}"#);
    let result = op.apply(&mut target);
    assert!(result.is_err());
    let error = result.err().unwrap();
    assert_eq!(error, ApplicationError::TestFailed {
                path: Pointer::new("/foo"),
                value: doc(r#"{"bar": 1}"#),
                test_value: doc(r#"{"bar": 2}"#)
            });
}

#[test]
fn test_object_missing_key_mismatch() {
    let op = PatchOperation::Test { path: Pointer::new("/foo"), value: doc(r#"{"bar": 1}"#) };
    let mut target = doc(r#"{"foo": {"bar": 1, "baz": 2}}"#);
    let result = op.apply(&mut target);
    assert!(result.is_err());
    let error = result.err().unwrap();
    assert_eq!(error, ApplicationError::TestFailed {
                path: Pointer::new("/foo"),
                value: doc(r#"{"bar": 1, "baz": 2}"#),
                test_value: doc(r#"{"bar": 1}"#)
            });
}

#[test]
fn add_child_to_string() {
    let op = PatchOperation::Add { path: Pointer::new("/foo"), value: doc(r#""qux""#) };
    let target = doc(r#""bar""#);
    assert!(op.panics_on(&target));
}

#[test]
fn add_child_to_number() {
    let op = PatchOperation::Add { path: Pointer::new("/foo"), value: doc(r#""qux""#) };
    let target = doc(r#"1"#);
    assert!(op.panics_on(&target));
}

#[test]
fn add_child_to_bool() {
    let op = PatchOperation::Add { path: Pointer::new("/foo"), value: doc(r#""qux""#) };
    let target = doc(r#"true"#);
    assert!(op.panics_on(&target));
}

#![allow(unused_imports, dead_code)]
use spatch::diff::{diff, diff_recursive, DiffError, DiffErrorSummary, Patch};
use spatch::operation::PatchOp;
use spatch::parser::{parse_condition, parse_filter_segment, parse_ident, parse_key_segment, parse_path, parse_value, UNEXPECTED_SQ_BRACKET_MSG};
use spatch::patch::{add, apply, copy, move_op, remove, replace, PatchError};
use spatch::path::{PathError, Segment, Spath};
use spatch::resolve::{resolve_ref, value_match_bool, value_matches_filter, ResolveError};
use spatch::value::{Number, Value};

fn to_value(v: &serde_json::Value) -> Value {
    match v {
        serde_json::Value::Null => Value::Null,
        serde_json::Value::Bool(b) => Value::Bool(*b),
        serde_json::Value::Number(n) => Value::Number(to_number(n)),
        serde_json::Value::String(s) => Value::String(s.clone()),
        serde_json::Value::Array(xs) => Value::Array(xs.iter().map(to_value).collect()),
        serde_json::Value::Object(ms) => Value::Object(
            ms.iter().map(|(k, v)| (k.clone(), to_value(v))).collect(),
        ),
    }
}

fn to_number(n: &serde_json::Number) -> Number {
    if let Some(u) = n.as_u64() {
        Number::PosInt(u)
    } else if let Some(i) = n.as_i64() {
        Number::NegInt(i)
    } else {
        Number::Float(n.to_string())
    }
}

fn j(text: &str) -> Value {
    to_value(&serde_json::from_str(text).unwrap())
}

fn path(raw: &str) -> Spath {
    Spath::parse(raw).unwrap()
}

const SIMPLE_SCHEMA: &str = r#"{
    "type": "object",
    "properties": {
        "foo": {
            "type": "array",
            "indexKey": "id",
            "items": {
                "type": "object",
                "properties": {
                    "id": {"type": "string"},
                    "count": {"type": "integer"}
                }
            }
        }
    }
}"#;

#[test]
fn add_an_object_at_root() {
    let mut doc: Value = j(r#"{"a":1}"#);

    add(&mut doc, Spath::parse("").unwrap(), j(r#"{"foo": "bar"}"#)).unwrap();

    assert!(doc == j(r#"{"foo": "bar"}"#));
}

#[test]
fn add_an_object_at_member_with_empty_name() {
    let mut doc = j(r#"{"a": 1}"#);

    add(&mut doc, Spath::parse("/").unwrap(), j(r#"{"foo": "bar"}"#)).unwrap();

    assert!(doc == j(r#"{"a": 1, "": {"foo": "bar"}}"#));
}

#[test]
fn add_an_object_at_a_path() {
    let mut doc: Value = j(r#"{"a":1}"#);

    add(&mut doc, Spath::parse("/a").unwrap(), j(r#"{"foo": "bar"}"#)).unwrap();

    assert!(doc == j(r#"{"a": {"foo": "bar"}}"#));
}

#[test]
fn add_an_object_at_a_missing_path_with_existing_parent() {
    let mut doc: Value = j(r#"{"a": {"foo": 1}}"#);

    add(&mut doc, Spath::parse("/a/b").unwrap(), j(r#"{"foo": "bar"}"#)).unwrap();

    assert!(doc == j(r#"{"a": {"b": {"foo": "bar"},"foo": 1}}"#));
}

#[test]
fn add_an_object_at_an_existing_path_with_existing_parent() {
    let mut doc: Value = j(r#"{"a": {"foo": 1, "bar": 123}}"#);

    add(
        &mut doc,
        Spath::parse("/a/bar").unwrap(),
        j(r#"{"foo": "bar"}"#),
    )
    .unwrap();

    assert!(doc == j(r#"{"a": {"foo": 1, "bar": {"foo": "bar"}}}"#));
}

#[test]
fn add_an_object_at_a_missing_path_with_empty_field() {
    let mut doc: Value = j(r#"{"a": {"foo": 1}}"#);

    add(&mut doc, Spath::parse("/a/").unwrap(), j(r#"{"foo": "bar"}"#)).unwrap();

    assert!(doc == j(r#"{"a": {"foo": 1, "": {"foo": "bar"}}}"#));
}

#[test]
fn add_an_object_to_non_existent_path_should_fail() {
    let mut doc: Value = j(r#"{"a":1}"#);

    let result = add(&mut doc, Spath::parse("/b/c").unwrap(), j(r#"{"foo": "bar"}"#));

    let Err(PatchError::ResolveError(e)) = result else { panic!("unexpected result") };
    assert!(e.to_text() == "Field or item not found");
}

#[test]
fn add_to_array_at_specific_index() {
    let mut doc: Value = j(r#"{"a":[1,2,3]}"#);

    add(&mut doc, Spath::parse("/a/1").unwrap(), j(r#"99"#)).unwrap();

    assert!(doc == j(r#"{"a":[1,99,2,3]}"#));
}

#[test]
fn add_to_array_at_end() {
    let mut doc: Value = j(r#"{"a":[1,2,3]}"#);

    add(&mut doc, Spath::parse("/a/3").unwrap(), j(r#"99"#)).unwrap();

    assert!(doc == j(r#"{"a":[1,2,3,99]}"#));
}

#[test]
fn add_to_array_using_append() {
    let mut doc: Value = j(r#"{"a":[1,2,3]}"#);

    add(&mut doc, Spath::parse("/a/-").unwrap(), j(r#"99"#)).unwrap();

    assert!(doc == j(r#"{"a":[1,2,3,99]}"#));
}

#[test]
fn add_to_array_at_out_of_bounds_index_should_fail() {
    let mut doc: Value = j(r#"{"a":[1,2,3]}"#);

    let result = add(&mut doc, Spath::parse("/a/5").unwrap(), j(r#"99"#));

    let Err(PatchError::ArrayIndexOutOfBounds { path, index, len }) = result else { panic!("unexpected result") };

    assert!(path == Spath::parse("/a/5").unwrap());
    assert!(index == 5);
    assert!(len == 3);
}

#[test]
fn add_with_empty_path_replaces_document() {
    let mut doc: Value = j(r#"{"a": 1}"#);

    add(&mut doc, Spath::parse("").unwrap(), j(r#"null"#)).unwrap();

    assert!(doc == j(r#"null"#));
}

#[test]
fn add_with_slash_path_adds_empty_key_on_object_root() {
    let mut doc: Value = j(r#"{"a": 1}"#);

    add(&mut doc, Spath::parse("/").unwrap(), j(r#"{"foo": "bar"}"#)).unwrap();

    // JSON Pointer "/" means token "" at root object
    assert!(doc == j(r#"{"a": 1, "": {"foo": "bar"}}"#));
}

#[test]
fn add_when_parent_is_scalar_should_fail() {
    let mut doc: Value = j(r#"{"a": 1}"#);

    // parent "/a" exists but is not object/array
    let result = add(&mut doc, Spath::parse("/a/b").unwrap(), j(r#"123"#));

    let Err(PatchError::NotAContainer { parent, actual }) = result else { panic!("unexpected result") };

    assert!(parent == Spath::parse("/a").unwrap());
    assert!(actual == "number(1)");
}

#[test]
fn add_to_root_when_doc_is_scalar_should_fail_for_non_empty_path() {
    let mut doc: Value = j(r#"1"#);

    let result = add(&mut doc, Spath::parse("/a").unwrap(), j(r#"2"#));

    assert!(result.is_err());
}

#[test]
fn add_with_sem_path_when_parent_is_scalar_should_fail() {
    let mut doc: Value = j(r#"[{"id": "foo", "value": 1}, {"id": "bar", "value": 2}]"#);

    // parent "/a" exists but is not object/array
    let result = add(
        &mut doc,
        Spath::parse("/[id=foo]/value/non-existing").unwrap(),
        j(r#"123"#),
    );

    let Err(PatchError::NotAContainer { parent, actual }) = result else { panic!("unexpected result") };

    assert!(parent == Spath::parse("/[id=foo]/value").unwrap());
    assert!(actual == "number(1)");
}

#[test]
fn add_object_key_named_dash_is_normal_key() {
    let mut doc: Value = j(r#"{}"#);

    add(&mut doc, Spath::parse("/-").unwrap(), j(r#"123"#)).unwrap();

    assert!(doc == j(r#"{"-": 123}"#));
}

#[test]
fn add_object_key_with_json_pointer_escaped_slash() {
    // key is literally "a/b"
    let mut doc: Value = j(r#"{}"#);

    add(&mut doc, Spath::parse("/a~1b").unwrap(), j(r#"1"#)).unwrap();

    assert!(doc == j(r#"{"a/b": 1}"#));
}

#[test]
fn add_object_key_with_json_pointer_escaped_tilde() {
    // key is literally "a~b"
    let mut doc: Value = j(r#"{}"#);

    add(&mut doc, Spath::parse("/a~0b").unwrap(), j(r#"1"#)).unwrap();

    assert!(doc == j(r#"{"a~b": 1}"#));
}

#[test]
fn add_to_array_at_index_zero_inserts_at_front() {
    let mut doc: Value = j(r#"{"a":[1,2,3]}"#);

    add(&mut doc, Spath::parse("/a/0").unwrap(), j(r#"99"#)).unwrap();

    assert!(doc == j(r#"{"a":[99,1,2,3]}"#));
}

#[test]
fn add_to_empty_array_at_index_zero_is_ok() {
    let mut doc: Value = j(r#"{"a":[]}"#);

    add(&mut doc, Spath::parse("/a/0").unwrap(), j(r#"99"#)).unwrap();

    assert!(doc == j(r#"{"a":[99]}"#));
}

#[test]
fn add_to_empty_array_using_append_is_ok() {
    let mut doc: Value = j(r#"{"a":[]}"#);

    add(&mut doc, Spath::parse("/a/-").unwrap(), j(r#"99"#)).unwrap();

    assert!(doc == j(r#"{"a":[99]}"#));
}

#[test]
fn add_to_array_with_negative_index_should_fail() {
    let mut doc: Value = j(r#"{"a":[1,2,3]}"#);

    let result = add(&mut doc, Spath::parse("/a/-1").unwrap(), j(r#"99"#));

    let Err(PatchError::InvalidArrayIndexToken { path, token }) = result else { panic!("unexpected result") };

    assert!(path == Spath::parse("/a/-1").unwrap());
    assert!(token == "-1");
}

#[test]
fn add_to_array_with_non_numeric_index_should_fail() {
    let mut doc: Value = j(r#"{"a":[1,2,3]}"#);

    let result = add(&mut doc, Spath::parse("/a/notanumber").unwrap(), j(r#"99"#));

    let Err(PatchError::InvalidArrayIndexToken { path, token }) = result else { panic!("unexpected result") };

    assert!(path == Spath::parse("/a/notanumber").unwrap());
    assert!(token == "notanumber");
}

#[test]
fn add_to_array_with_float_index_should_fail() {
    let mut doc: Value = j(r#"{"a":[1,2,3]}"#);

    let result = add(&mut doc, Spath::parse("/a/1.0").unwrap(), j(r#"99"#));

    let Err(PatchError::InvalidArrayIndexToken { path, token }) = result else { panic!("unexpected result") };

    assert!(path == Spath::parse("/a/1.0").unwrap());
    assert!(token == "1.0");
}

#[test]
fn add_to_array_using_dash_not_at_last_segment_should_fail() {
    let mut doc: Value = j(r#"{"a":[{"b": 1}]}"#);

    // "-” only makes sense as the final token of the path.
    // Here parent resolution will likely fail trying to resolve index "-"
    let result = add(&mut doc, Spath::parse("/a/-/b").unwrap(), j(r#"99"#));

    assert!(result.is_err());
}

#[test]
fn add_to_array_parent_is_object_element() {
    let mut doc: Value = j(r#"{"a":[{"b": 1}]}"#);

    add(&mut doc, Spath::parse("/a/0/c").unwrap(), j(r#"2"#)).unwrap();

    assert!(doc == j(r#"{"a":[{"b": 1, "c": 2}]}"#));
}

#[test]
fn add_to_array_element_parent_is_scalar_should_fail() {
    let mut doc: Value = j(r#"{"a":[1]}"#);

    // parent "/a/0" exists but is scalar
    let result = add(&mut doc, Spath::parse("/a/0/b").unwrap(), j(r#"2"#));

    let Err(PatchError::NotAContainer { parent, actual }) = result else { panic!("unexpected result") };

    assert!(parent == Spath::parse("/a/0").unwrap());
    assert!(actual == "number(1)");
}

#[test]
fn add_empty_field_key_under_object() {
    let mut doc: Value = j(r#"{"a": {}}"#);

    add(&mut doc, Spath::parse("/a/").unwrap(), j(r#"1"#)).unwrap();

    assert!(doc == j(r#"{"a": {"": 1}}"#));
}

#[test]
fn add_double_slash_creates_empty_key_then_key() {
    // Path "/a//b" => tokens ["a", "", "b"]
    let mut doc: Value = j(r#"{"a": { "": {} }}"#);

    add(&mut doc, Spath::parse("/a//b").unwrap(), j(r#"1"#)).unwrap();

    assert!(doc == j(r#"{"a": { "": { "b": 1 }}}"#));
}

#[test]
fn add_using_semantic_path_should_succeed() {
    let mut doc: Value = j(r#"{
        "items": [
            { "id": "foo", "value": 1 },
            { "id": "bar", "value": 2 }
        ]
    }"#);

    add(
        &mut doc,
        Spath::parse("/items/[id=foo]/new_field").unwrap(),
        j(r#"99"#),
    )
    .unwrap();

    assert!(
        doc == j(r#"{
            "items": [
                { "id": "foo", "value": 1, "new_field": 99 },
                { "id": "bar", "value": 2 }
            ]
        }"#)
    );
}

#[test]
fn add_to_array_using_semantic_path_with_non_existing_array_member_should_fail() {
    let mut doc: Value = j(r#"{
        "items": [
            { "id": "foo", "value": 1 },
            { "id": "bar", "value": 2 }
        ]
    }"#);

    let result = add(
        &mut doc,
        Spath::parse("/items/[id=baz]/new_field").unwrap(),
        j(r#"99"#),
    );

    let Err(PatchError::ResolveError(ResolveError::NotFound)) = result else { panic!("unexpected result") };
}

#[test]
fn add_using_semantic_path_with_non_existing_array_member_should_fail() {
    let mut doc: Value = j(r#"{
        "items": [
            { "id": "foo", "value": 1 },
            { "id": "bar", "value": 2 }
        ]
    }"#);

    let result = add(&mut doc, Spath::parse("/items/[id=baz]").unwrap(), j(r#"99"#));

    let Err(PatchError::MissingFinalToken { path }) = result else { panic!("unexpected result") };

    assert!(path == Spath::parse("/items/[id=baz]").unwrap());
}

#[test]
fn add_using_semantic_path_with_multiple_filters_should_succeed() {
    let mut doc: Value = j(r#"{
        "items": [
            { "id": "foo", "value": 1 },
            { "id": "bar", "value": 2 }
        ]
    }"#);

    let result = add(
        &mut doc,
        Spath::parse("/items/[id=foo, value=1]/baz").unwrap(),
        j(r#"99"#),
    );

    let Ok(()) = result else { panic!("unexpected result") };
    assert!(
        doc == j(r#"{
            "items": [
                { "id": "foo", "value": 1, "baz": 99 },
                { "id": "bar", "value": 2 }
            ]
        }"#)
    );
}

#[test]
fn add_using_semantic_path_with_multiple_filters_should_fail() {
    let mut doc: Value = j(r#"{
        "items": [
            { "id": "foo", "value": 1 },
            { "id": "bar", "value": 2 }
        ]
    }"#);

    let result = add(
        &mut doc,
        Spath::parse("/items/[id=foo, value=2]/baz").unwrap(),
        j(r#"99"#),
    );

    let Err(PatchError::ResolveError(ResolveError::NotFound)) = result else { panic!("unexpected result") };
}

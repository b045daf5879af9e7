#![allow(unused_imports, dead_code)]
use spatch::diff::{diff, diff_recursive, DiffError, DiffErrorSummary, Patch};
use spatch::operation::PatchOp;
use spatch::parser::{parse_condition, parse_filter_segment, parse_ident, parse_key_segment, parse_path, parse_value, UNEXPECTED_SQ_BRACKET_MSG};
use spatch::patch::{add, apply, copy, move_op, remove, replace, PatchError};
use spatch::path::{PathError, Segment, Spath};
use spatch::resolve::{resolve_ref, value_match_bool, value_matches_filter, ResolveError};
use spatch::value::{Number, Value};

fn to_value(v: &serde_json::Value) -> Value {
    match v {
        serde_json::Value::Null => Value::Null,
        serde_json::Value::Bool(b) => Value::Bool(*b),
        serde_json::Value::Number(n) => Value::Number(to_number(n)),
        serde_json::Value::String(s) => Value::String(s.clone()),
        serde_json::Value::Array(xs) => Value::Array(xs.iter().map(to_value).collect()),
        serde_json::Value::Object(ms) => Value::Object(
            ms.iter().map(|(k, v)| (k.clone(), to_value(v))).collect(),
        ),
    }
}

fn to_number(n: &serde_json::Number) -> Number {
    if let Some(u) = n.as_u64() {
        Number::PosInt(u)
    } else if let Some(i) = n.as_i64() {
        Number::NegInt(i)
    } else {
        Number::Float(n.to_string())
    }
}

fn j(text: &str) -> Value {
    to_value(&serde_json::from_str(text).unwrap())
}

fn path(raw: &str) -> Spath {
    Spath::parse(raw).unwrap()
}

const SIMPLE_SCHEMA: &str = r#"{
    "type": "object",
    "properties": {
        "foo": {
            "type": "array",
            "indexKey": "id",
            "items": {
                "type": "object",
                "properties": {
                    "id": {"type": "string"},
                    "count": {"type": "integer"}
                }
            }
        }
    }
}"#;

#[test]
fn remove_empty_path_should_fail() {
    let mut doc = j(r#"{"a": 1, "b": 2}"#);

    let Err(PatchError::CannotRemoveRoot) = remove(&mut doc, Spath::parse("").unwrap()) else { panic!("unexpected result") };
}

#[test]
fn remove_root_path_should_remove_a_document_at_empty_key() {
    let mut doc = j(r#"{"a": 1, "b": 2, "": 3}"#);

    let Ok(()) = remove(&mut doc, Spath::parse("/").unwrap()) else { panic!("unexpected result") };

    assert!(doc == j(r#"{"a": 1, "b": 2}"#));
}

#[test]
fn remove_existing_field_should_succeed() {
    let mut doc = j(r#"{"a": 1, "b": 2}"#);

    let Ok(()) = remove(&mut doc, Spath::parse("/a").unwrap()) else { panic!("unexpected result") };

    assert!(doc == j(r#"{"b": 2}"#));
}

#[test]
fn remove_non_existing_field_should_fail() {
    let mut doc = j(r#"{"a": 1, "b": 2}"#);

    let Err(PatchError::TargetNotFound { path }) = remove(&mut doc, Spath::parse("/c").unwrap()) else { panic!("unexpected result") };

    assert!(path == Spath::parse("/c").unwrap());

    assert!(doc == j(r#"{"a": 1, "b": 2}"#));
}

#[test]
fn remove_field_from_non_object_should_fail() {
    let mut doc = j(r#"{"a": [1, 2, 3]}"#);

    let Err(PatchError::InvalidArrayIndexToken { path, token }) = remove(&mut doc, Spath::parse("/a/b").unwrap()) else { panic!("unexpected result") };

    assert!(path == Spath::parse("/a/b").unwrap());
    assert!(token == "b");

    assert!(doc == j(r#"{"a": [1, 2, 3]}"#));
}

#[test]
fn remove_field_from_nested_object_should_succeed() {
    let mut doc = j(r#"{"a": {"b": {"c": 3, "d": 4}}, "e": 5}"#);

    let Ok(()) = remove(&mut doc, Spath::parse("/a/b/c").unwrap()) else { panic!("unexpected result") };

    assert!(doc == j(r#"{"a": {"b": {"d": 4}}, "e": 5}"#));
}

#[test]
fn remove_field_with_filter_should_succeed() {
    let mut doc = j(r#"{
        "items": [
            {"id": "item1", "value": 10},
            {"id": "item2", "value": 20}
        ]
    }"#);

    let Ok(()) = remove(&mut doc, Spath::parse("/items/[id=item1]/value").unwrap()) else { panic!("unexpected result") };

    assert!(
        doc == j(r#"{
            "items": [
                {"id": "item1"},
                {"id": "item2", "value": 20}
            ]
        }"#)
    );
}

#[test]
fn remove_field_with_non_matching_filter_should_fail() {
    let mut doc = j(r#"{
        "items": [
            {"id": "item1", "value": 10},
            {"id": "item2", "value": 20}
        ]
    }"#);

    let Err(PatchError::ResolveError(ResolveError::NotFound)) = remove(&mut doc, Spath::parse("/items/[id=item3]/value").unwrap()) else { panic!("unexpected result") };

    assert!(
        doc == j(r#"{
            "items": [
                {"id": "item1", "value": 10},
                {"id": "item2", "value": 20}
            ]
        }"#)
    );
}

#[test]
fn remove_from_empty_document_should_fail() {
    let mut doc = j(r#"{}"#);

    let Err(PatchError::TargetNotFound { path }) = remove(&mut doc, Spath::parse("/a").unwrap()) else { panic!("unexpected result") };

    assert!(path == Spath::parse("/a").unwrap());

    assert!(doc == j(r#"{}"#));
}

#[test]
fn remove_from_array_should_succeed() {
    let mut doc = j(r#"[1, 2, 3]"#);

    let Ok(()) = remove(&mut doc, Spath::parse("/0").unwrap()) else { panic!("unexpected result") };

    assert!(doc == j(r#"[2, 3]"#));
}

#[test]
fn remove_from_array_out_of_bounds_should_fail() {
    let mut doc = j(r#"[1, 2, 3]"#);

    let Err(PatchError::ArrayIndexOutOfBounds { path, index, len }) = remove(&mut doc, Spath::parse("/3").unwrap()) else { panic!("unexpected result") };

    assert!(path == Spath::parse("/3").unwrap());
    assert!(index == 3);
    assert!(len == 3);

    assert!(doc == j(r#"[1, 2, 3]"#));
}

#[test]
fn remove_from_non_array_should_fail() {
    let mut doc = j(r#"{"a": 1, "b": 2}"#);

    let Err(PatchError::NotAContainer { parent, actual }) = remove(&mut doc, Spath::parse("/a/0").unwrap()) else { panic!("unexpected result") };

    assert!(parent == Spath::parse("/a").unwrap());
    assert!(actual == "number(1)");

    assert!(doc == j(r#"{"a": 1, "b": 2}"#));
}

#[test]
fn remove_with_empty_key_and_nested_path_should_succeed() {
    let mut doc = j(r#"{"a": {"": {"b": 1}}, "b": 2}"#);

    let Ok(()) = remove(&mut doc, Spath::parse("/a//b").unwrap()) else { panic!("unexpected result") };

    assert!(doc == j(r#"{"a": {"": {}}, "b": 2}"#));
}

#[test]
fn remove_with_special_characters_in_key_should_succeed() {
    let mut doc = j(r#"{"a/b": {"c~d": 1}, "e": 2}"#);

    let Ok(()) = remove(&mut doc, Spath::parse("/a~1b/c~0d").unwrap()) else { panic!("unexpected result") };

    assert!(doc == j(r#"{"a/b": {}, "e": 2}"#));
}

#[test]
fn remove_with_semantic_filter_should_succeed() {
    let mut doc = j(r#"{
        "items": [
            {"id": "item1", "value": 10},
            {"id": "item2", "value": 20}
        ]
    }"#);

    let Ok(()) = remove(&mut doc, Spath::parse("/items/[id=item2]").unwrap()) else { panic!("unexpected result") };

    assert!(
        doc == j(r#"{
            "items": [
                {"id": "item1", "value": 10}
            ]
        }"#)
    );
}

#[test]
fn remove_nested_with_semantic_filter_should_succeed() {
    let mut doc = j(r#"{
        "items": [
            {"id": "item1", "value": 10},
            {"id": "item2", "value": 20}
        ]
    }"#);

    let Ok(()) = remove(&mut doc, Spath::parse("/items/[id=item2]/value").unwrap()) else { panic!("unexpected result") };
    assert!(
        doc == j(r#"{
            "items": [
                {"id": "item1", "value": 10},
                {"id": "item2"}
            ]
        }"#)
    );
}

#[test]
fn remove_non_existing_with_semantic_filter_should_fail() {
    let mut doc = j(r#"{
        "items": [
            {"id": "item1", "value": 10},
            {"id": "item2", "value": 20}
        ]
    }"#);

    let Err(PatchError::ResolveError(ResolveError::NotFound)) = remove(&mut doc, Spath::parse("/items/[id=item3]").unwrap()) else { panic!("unexpected result") };

    assert!(
        doc == j(r#"{
            "items": [
                {"id": "item1", "value": 10},
                {"id": "item2", "value": 20}
            ]
        }"#)
    );
}

#[test]
fn remove_with_multiple_filters_should_succeed() {
    let mut doc = j(r#"{
        "items": [
            {"id": "item1", "type": "A", "value": 10},
            {"id": "item2", "type": "B", "value": 20},
            {"id": "item3", "type": "A", "value": 30}
        ]
    }"#);

    let Ok(()) = remove(
            &mut doc,
            Spath::parse("/items/[type=A, id=item3]/value").unwrap()
        ) else { panic!("unexpected result") };

    assert!(
        doc == j(r#"{
            "items": [
                {"id": "item1", "type": "A", "value": 10},
                {"id": "item2", "type": "B", "value": 20},
                {"id": "item3", "type": "A"}
            ]
        }"#)
    );
}

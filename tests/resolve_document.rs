#![allow(unused_imports, dead_code)]
use spatch::diff::{diff, diff_recursive, DiffError, DiffErrorSummary, Patch};
use spatch::operation::PatchOp;
use spatch::parser::{parse_condition, parse_filter_segment, parse_ident, parse_key_segment, parse_path, parse_value, UNEXPECTED_SQ_BRACKET_MSG};
use spatch::patch::{add, apply, copy, move_op, remove, replace, PatchError};
use spatch::path::{PathError, Segment, Spath};
use spatch::resolve::{resolve_ref, value_match_bool, value_matches_filter, ResolveError};
use spatch::value::{Number, Value};

fn to_value(v: &serde_json::Value) -> Value {
    match v {
        serde_json::Value::Null => Value::Null,
        serde_json::Value::Bool(b) => Value::Bool(*b),
        serde_json::Value::Number(n) => Value::Number(to_number(n)),
        serde_json::Value::String(s) => Value::String(s.clone()),
        serde_json::Value::Array(xs) => Value::Array(xs.iter().map(to_value).collect()),
        serde_json::Value::Object(ms) => Value::Object(
            ms.iter().map(|(k, v)| (k.clone(), to_value(v))).collect(),
        ),
    }
}

fn to_number(n: &serde_json::Number) -> Number {
    if let Some(u) = n.as_u64() {
        Number::PosInt(u)
    } else if let Some(i) = n.as_i64() {
        Number::NegInt(i)
    } else {
        Number::Float(n.to_string())
    }
}

fn j(text: &str) -> Value {
    to_value(&serde_json::from_str(text).unwrap())
}

fn path(raw: &str) -> Spath {
    Spath::parse(raw).unwrap()
}

const SIMPLE_SCHEMA: &str = r#"{
    "type": "object",
    "properties": {
        "foo": {
            "type": "array",
            "indexKey": "id",
            "items": {
                "type": "object",
                "properties": {
                    "id": {"type": "string"},
                    "count": {"type": "integer"}
                }
            }
        }
    }
}"#;

#[test]
fn get_value_at_should_return_value_at_path() {
    let json: Value = j(r#"
    {
        "a": {
            "b": [1, 2, 3],
            "c": "hello"
        },
        "d": true
    }
    "#);

    let value = json.get_value_at("/a/b/1").unwrap();
    assert_eq!(value, &j("2"));

    let value = json.get_value_at("/a/c").unwrap();
    assert_eq!(value, &j(r#""hello""#));

    let value = json.get_value_at("/d").unwrap();
    assert_eq!(value, &j("true"));
}

#[test]
fn get_value_at_should_return_error_for_invalid_path() {
    let json: Value = j(r#"
    {
        "a": {
            "b": [1, 2, 3],
            "c": "hello"
        },
        "d": true
    }
    "#);

    let err = json.get_value_at("/a/b/10").unwrap_err();
    assert!(err == ResolveError::NotFound);

    let err = json.get_value_at("/a/x").unwrap_err();
    assert!(err == ResolveError::NotFound);

    let err = json.get_value_at("invalid_path").unwrap_err();
    assert!(
        err == ResolveError::InvalidPath(PathError::invalid_syntax(
            0,
            "expected a path starting with '/' or empty input"
        ))
    );
}

#[test]
fn apply_at_should_modify_the_value_at_the_specified_path() {
    let mut json: Value = j(r#"
    {
        "a": {
            "b": [1, 2, 3],
            "c": "hello"
        },
        "d": true
    }
    "#);

    json.apply_at("/a/c", j(r#""world""#))
        .unwrap();

    assert!(json.get_value_at("/a/c").unwrap() == &j(r#""world""#));
}

#[test]
fn apply_at_should_modify_the_value_at_the_specified_semantic_path() {
    let mut json: Value = j(r#"
    {
        "list": [
            {"id": "item1", "value": "hello"},
            {"id": "item2", "value": "world"}
        ]
    }
    "#);

    json.apply_at("/list/[id=item2]/value", j(r#""foo""#))
        .unwrap();

    assert!(
        json.get_value_at("/list/[id=item2]/value").unwrap() == &j(r#""foo""#)
    );
}

#[test]
fn apply_at_should_modify_the_value_at_the_specified_index_path() {
    let mut json: Value = j(r#"
    {
        "list": [
            {"id": "item1", "value": "hello"},
            {"id": "item2", "value": "world"}
        ]
    }
    "#);

    json.apply_at("/list/0/value", j(r#""foo""#))
        .unwrap();

    assert!(
        json.get_value_at("/list/[id=item1]/value").unwrap() == &j(r#""foo""#)
    );
}

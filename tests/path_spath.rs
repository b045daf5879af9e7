#![allow(unused_imports, dead_code)]
use spatch::diff::{diff, diff_recursive, DiffError, DiffErrorSummary, Patch};
use spatch::operation::PatchOp;
use spatch::parser::{parse_condition, parse_filter_segment, parse_ident, parse_key_segment, parse_path, parse_value, UNEXPECTED_SQ_BRACKET_MSG};
use spatch::patch::{add, apply, copy, move_op, remove, replace, PatchError};
use spatch::path::{PathError, Segment, Spath};
use spatch::resolve::{resolve_ref, value_match_bool, value_matches_filter, ResolveError};
use spatch::value::{Number, Value};

fn to_value(v: &serde_json::Value) -> Value {
    match v {
        serde_json::Value::Null => Value::Null,
        serde_json::Value::Bool(b) => Value::Bool(*b),
        serde_json::Value::Number(n) => Value::Number(to_number(n)),
        serde_json::Value::String(s) => Value::String(s.clone()),
        serde_json::Value::Array(xs) => Value::Array(xs.iter().map(to_value).collect()),
        serde_json::Value::Object(ms) => Value::Object(
            ms.iter().map(|(k, v)| (k.clone(), to_value(v))).collect(),
        ),
    }
}

fn to_number(n: &serde_json::Number) -> Number {
    if let Some(u) = n.as_u64() {
        Number::PosInt(u)
    } else if let Some(i) = n.as_i64() {
        Number::NegInt(i)
    } else {
        Number::Float(n.to_string())
    }
}

fn j(text: &str) -> Value {
    to_value(&serde_json::from_str(text).unwrap())
}

fn path(raw: &str) -> Spath {
    Spath::parse(raw).unwrap()
}

const SIMPLE_SCHEMA: &str = r#"{
    "type": "object",
    "properties": {
        "foo": {
            "type": "array",
            "indexKey": "id",
            "items": {
                "type": "object",
                "properties": {
                    "id": {"type": "string"},
                    "count": {"type": "integer"}
                }
            }
        }
    }
}"#;

#[test]
fn test_spath_try_from_str() {
    let path_str = "/field1/field2/[filterKey=filterValue]/field3";
    let spath = Spath::parse(path_str).unwrap();

    let expected_spath = Spath {
        segments: vec![
            Segment::Field("field1".to_string()),
            Segment::Field("field2".to_string()),
            Segment::Filter(vec![("filterKey".to_string(), "filterValue".to_string())]),
            Segment::Field("field3".to_string()),
        ],
    };

    assert!(spath == expected_spath);
}

#[test]
fn test_spath_try_from_with_invalid_format_should_fail() {
    assert!(
        Spath::parse("/foo[bar=baz]/field3")
            == Err(PathError::invalid_syntax(4, UNEXPECTED_SQ_BRACKET_MSG))
    );
    assert!(
        Spath::parse("/foo[bar=baz")
            == Err(PathError::invalid_syntax(4, UNEXPECTED_SQ_BRACKET_MSG))
    );
    assert!(
        Spath::parse("fooba/rbaz")
            == Err(PathError::invalid_syntax(
                0,
                "expected a path starting with '/' or empty input"
            ))
    );
}

#[test]
fn test_spath_display() {
    let spath = Spath {
        segments: vec![
            Segment::Field("field1".to_string()),
            Segment::Field("field2".to_string()),
            Segment::Filter(vec![("filterKey".to_string(), "filterValue".to_string())]),
            Segment::Field("field3".to_string()),
        ],
    };

    let path_str = spath.to_text();

    assert!(path_str == "/field1/field2/[filterKey=filterValue]/field3");
}

#[test]
fn spath_parent_should_return_parent_path() {
    let spath = Spath {
        segments: vec![
            Segment::Field("a".to_string()),
            Segment::Field("b".to_string()),
            Segment::Field("c".to_string()),
        ],
    };

    let parent = spath.parent().unwrap();

    let expected_parent = Spath {
        segments: vec![
            Segment::Field("a".to_string()),
            Segment::Field("b".to_string()),
        ],
    };

    assert!(parent == expected_parent);
}

#[test]
fn spath_parent_of_root_should_be_none() {
    let spath = Spath { segments: vec![] };

    let parent = spath.parent();

    assert!(parent == None);
}

use spatch::operation::PatchOp;
use spatch::patch::{apply, PatchError};
use spatch::path::Spath;
use spatch::value::{Number, Value};

fn to_value(v: &serde_json::Value) -> Value {
    match v {
        serde_json::Value::Null => Value::Null,
        serde_json::Value::Bool(b) => Value::Bool(*b),
        serde_json::Value::Number(n) => Value::Number(if let Some(u) = n.as_u64() {
            Number::PosInt(u)
        } else if let Some(i) = n.as_i64() {
            Number::NegInt(i)
        } else {
            Number::Float(n.to_string())
        }),
        serde_json::Value::String(s) => Value::String(s.clone()),
        serde_json::Value::Array(xs) => Value::Array(xs.iter().map(to_value).collect()),
        serde_json::Value::Object(ms) => Value::Object(
            ms.iter().map(|(k, v)| (k.clone(), to_value(v))).collect(),
        ),
    }
}

fn j(text: &str) -> Value {
    to_value(&serde_json::from_str(text).unwrap())
}

fn path(raw: &str) -> Spath {
    Spath::parse(raw).unwrap()
}

#[test]
fn applying_patch_with_failing_test_should_not_apply_any_changes() {
    let doc = j(r#"{"a": 1, "b": 2}"#);
    let patch = vec![
        PatchOp::add(path("/c"), j(r#"{"foo": "bar"}"#)),
        PatchOp::test(path("/a"), j("2")),
    ];
    let result = apply(&doc, &patch);
    match result {
        Err(PatchError::MultipleErrors(errors)) => {
            assert_eq!(errors, vec![PatchError::ValuesNotEqual]);
        }
        other => panic!("unexpected result {:?}", other),
    }
    assert!(doc == j(r#"{"a": 1, "b": 2}"#));
}

#[test]
fn apply_add_test_replace_in_sequence() {
    let doc = j(r#"{"a": 1, "b": 2}"#);
    let patch = vec![
        PatchOp::add(path("/c"), j(r#"{"foo": "bar"}"#)),
        PatchOp::test(path("/a"), j("1")),
        PatchOp::replace(path("/b"), j(r#"{"baz": [1, 2, 3]}"#)),
    ];
    let result = apply(&doc, &patch).unwrap();
    assert!(result == j(r#"{"a": 1, "b": {"baz": [1, 2, 3]}, "c": {"foo": "bar"}}"#));
}

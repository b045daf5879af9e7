#![allow(unused_imports, dead_code)]
use spatch::diff::{diff, diff_recursive, DiffError, DiffErrorSummary, Patch};
use spatch::operation::PatchOp;
use spatch::parser::{parse_condition, parse_filter_segment, parse_ident, parse_key_segment, parse_path, parse_value, UNEXPECTED_SQ_BRACKET_MSG};
use spatch::patch::{add, apply, copy, move_op, remove, replace, PatchError};
use spatch::path::{PathError, Segment, Spath};
use spatch::resolve::{resolve_ref, value_match_bool, value_matches_filter, ResolveError};
use spatch::value::{Number, Value};

fn to_value(v: &serde_json::Value) -> Value {
    match v {
        serde_json::Value::Null => Value::Null,
        serde_json::Value::Bool(b) => Value::Bool(*b),
        serde_json::Value::Number(n) => Value::Number(to_number(n)),
        serde_json::Value::String(s) => Value::String(s.clone()),
        serde_json::Value::Array(xs) => Value::Array(xs.iter().map(to_value).collect()),
        serde_json::Value::Object(ms) => Value::Object(
            ms.iter().map(|(k, v)| (k.clone(), to_value(v))).collect(),
        ),
    }
}

fn to_number(n: &serde_json::Number) -> Number {
    if let Some(u) = n.as_u64() {
        Number::PosInt(u)
    } else if let Some(i) = n.as_i64() {
        Number::NegInt(i)
    } else {
        Number::Float(n.to_string())
    }
}

fn j(text: &str) -> Value {
    to_value(&serde_json::from_str(text).unwrap())
}

fn path(raw: &str) -> Spath {
    Spath::parse(raw).unwrap()
}

const SIMPLE_SCHEMA: &str = r#"{
    "type": "object",
    "properties": {
        "foo": {
            "type": "array",
            "indexKey": "id",
            "items": {
                "type": "object",
                "properties": {
                    "id": {"type": "string"},
                    "count": {"type": "integer"}
                }
            }
        }
    }
}"#;

fn ops(p: &Patch) -> Vec<Value> {
    p.0.iter().map(|op| op.to_value()).collect()
}

#[test]
fn filter_resolution_takes_first_match() {
    let doc = j(r#"[{"id":"a","n":0},{"id":"b","n":1},{"id":"a","n":2}]"#);
    let found = resolve_ref(&doc, &path("/[id=a]")).unwrap();
    assert!(found == &j(r#"{"id":"a","n":0}"#));
}

#[test]
fn keyed_array_diff_removes_by_key() {
    let schema = j(SIMPLE_SCHEMA);
    let left = j(r#"{"foo":[{"id":"abc","count":2},{"id":"bla","count":3}]}"#);
    let right = j(r#"{"foo":[{"id":"abc","count":2}]}"#);
    let (patch, errors) = diff(&left, &right, Some(&schema));
    assert!(errors.is_empty());
    assert_eq!(ops(&patch), vec![j(r#"{"op":"remove","path":"/foo/[id=bla]"}"#)]);
}

#[test]
fn indexed_truncate_removes_from_the_end() {
    let (patch, errors) = diff(&j(r#"["a","b","c","d"]"#), &j(r#"["a","b"]"#), None);
    assert!(errors.is_empty());
    assert_eq!(
        ops(&patch),
        vec![j(r#"{"op":"remove","path":"/3"}"#), j(r#"{"op":"remove","path":"/2"}"#)]
    );
}

#[test]
fn mostly_changed_object_is_replaced_whole() {
    let right = j(r#"{"a":10,"b":20,"c":30,"d":4}"#);
    let (patch, _) = diff(&j(r#"{"a":1,"b":2,"c":3,"d":4}"#), &right, None);
    assert_eq!(patch, Patch::new(vec![PatchOp::replace(Spath::default(), right.clone())]));
}

#[test]
fn parse_error_reports_bracket_position() {
    assert_eq!(
        Spath::parse("/foo[bar=baz]/field3"),
        Err(PathError::invalid_syntax(4, UNEXPECTED_SQ_BRACKET_MSG))
    );
}

#[test]
fn parse_error_position_counts_bytes() {
    assert_eq!(
        Spath::parse("/é[x"),
        Err(PathError::invalid_syntax(3, UNEXPECTED_SQ_BRACKET_MSG))
    );
}

#[test]
fn parse_error_on_stray_tilde() {
    assert_eq!(
        Spath::parse("/a~2"),
        Err(PathError::invalid_syntax(
            2,
            "unexpected character '~'. Fix: remove it or check the segment syntax at this position."
        ))
    );
}

#[test]
fn diff_of_equal_documents_is_empty_patch() {
    let schema = j(SIMPLE_SCHEMA);
    let x = j(r#"{"foo":[{"id":"x","count":1},{"id":"y"}],"bar":[1,{"z":null}],"s":"t"}"#);
    let (patch, _) = diff(&x, &x, Some(&schema));
    assert_eq!(patch.len(), 0);
    let (patch, _) = diff(&x, &x, None);
    assert_eq!(patch.len(), 0);
}

#[test]
fn add_then_remove_gives_back_the_document() {
    let original = j(r#"{"a":{"b":[1,2]}}"#);
    let mut doc = original.clone();
    add(&mut doc, path("/a/c"), j("true")).unwrap();
    remove(&mut doc, path("/a/c")).unwrap();
    assert!(doc == original);
    add(&mut doc, path("/a/b/1"), j("5")).unwrap();
    assert!(doc == j(r#"{"a":{"b":[1,5,2]}}"#));
    remove(&mut doc, path("/a/b/1")).unwrap();
    assert!(doc == original);
}

#[test]
fn failed_move_leaves_document_unchanged() {
    let mut doc = j(r#"{"a":{"b":1},"c":2}"#);
    assert!(move_op(&mut doc, path("/c"), path("/x/y")).is_err());
    assert!(doc == j(r#"{"a":{"b":1},"c":2}"#));
}

#[test]
fn round_trip_on_examples() {
    let schema = j(SIMPLE_SCHEMA);
    let cases = [
        (r#"{"a":1,"b":[1,2,3]}"#, r#"{"a":2,"b":[1,3],"c":{"d":null}}"#),
        (r#"[1,2,3]"#, r#"[0,1,2,3]"#),
        (r#"{"foo":[{"id":"a","count":1}]}"#, r#"{"foo":[{"id":"a","count":2}]}"#),
        (r#""x""#, r#"{"y":[true,false]}"#),
    ];
    for (l, r) in cases {
        let (left, right) = (j(l), j(r));
        let (patch, errors) = diff(&left, &right, Some(&schema));
        assert!(errors.is_empty());
        let result = apply(&left, &patch.0).unwrap();
        assert!(result == right, "{} -> {}", l, r);
    }
}

#[test]
fn apply_collects_every_failure() {
    let doc = j(r#"{"a":1}"#);
    let patch = vec![
        PatchOp::remove(path("/x")),
        PatchOp::add(path("/b"), j("2")),
        PatchOp::test(path("/a"), j("3")),
    ];
    match apply(&doc, &patch) {
        Err(PatchError::MultipleErrors(errors)) => {
            assert_eq!(errors.len(), 2);
            assert_eq!(errors[0], PatchError::target_not_found(&path("/x")));
            assert_eq!(errors[1], PatchError::ValuesNotEqual);
        }
        other => panic!("unexpected {:?}", other),
    }
}

#[test]
fn number_filters_compare_numerically() {
    let doc = j(r#"[{"n":1.5},{"n":-7},{"n":10}]"#);
    assert!(resolve_ref(&doc, &path("/[n=1.50]")).unwrap() == &j(r#"{"n":1.5}"#));
    assert!(resolve_ref(&doc, &path("/[n=-7]")).unwrap() == &j(r#"{"n":-7}"#));
    assert!(resolve_ref(&doc, &path("/[n=1e1]")).is_err());
    assert!(resolve_ref(&doc, &path("/[n=010]")).is_err());
}

#[test]
fn boolean_filters_ignore_case() {
    assert!(value_match_bool(&true, "TRUE"));
    assert!(value_match_bool(&false, "fAlSe"));
    assert!(!value_match_bool(&true, "yes"));
}

#[test]
fn type_mismatch_quotes_strings() {
    let doc = j(r#"{"s":"a\"b"}"#);
    assert_eq!(
        resolve_ref(&doc, &path("/s/x")).unwrap_err(),
        ResolveError::type_mismatch("object or array", "string(\"a\\\"b\")")
    );
    let arr = j("[1]");
    assert_eq!(
        resolve_ref(&arr, &path("/x")).unwrap_err(),
        ResolveError::type_mismatch("number", "string(\"x\")")
    );
}

#[test]
fn index_tokens_follow_usize_parsing() {
    let doc = j("[10,20,30]");
    assert!(resolve_ref(&doc, &path("/+1")).unwrap() == &j("20"));
    assert!(resolve_ref(&doc, &path("/02")).unwrap() == &j("30"));
    assert_eq!(resolve_ref(&doc, &path("/3")).unwrap_err(), ResolveError::NotFound);
}

#[test]
fn patch_error_variants() {
    let mut doc = j(r#"{"a":[1],"s":"t"}"#);
    assert_eq!(remove(&mut doc, path("")), Err(PatchError::CannotRemoveRoot));
    assert_eq!(
        add(&mut doc, path("/a/x"), j("1")),
        Err(PatchError::invalid_array_index_token(&path("/a/x"), "x"))
    );
    assert_eq!(
        add(&mut doc, path("/a/2"), j("1")),
        Err(PatchError::index_out_of_bounds(&path("/a/2"), 2, 1))
    );
    assert_eq!(
        add(&mut doc, path("/s/x"), j("1")),
        Err(PatchError::not_a_container(&path("/s"), "string(\"t\")"))
    );
    assert_eq!(
        add(&mut doc, path("/a/[k=v]"), j("1")),
        Err(PatchError::missing_final_token(&path("/a/[k=v]")))
    );
    assert_eq!(remove(&mut doc, path("/b")), Err(PatchError::target_not_found(&path("/b"))));
    assert_eq!(
        move_op(&mut doc, path("/a"), path("/a/0")),
        Err(PatchError::CannotMoveIntoChild)
    );
    assert!(doc == j(r#"{"a":[1],"s":"t"}"#));
}

#[test]
fn keyed_diff_reports_flaws() {
    let schema = j(SIMPLE_SCHEMA);
    let left = j(r#"{"foo":[{"count":1},{"id":5},{"id":"a"},{"id":"a"},7]}"#);
    let right = j(r#"{"foo":[]}"#);
    let (patch, errors) = diff(&left, &right, Some(&schema));
    assert_eq!(
        errors.left,
        vec![
            DiffError::missing_index_key(&path("/foo/0"), "id"),
            DiffError::non_string_index_key(&path("/foo/1"), &j("5")),
            DiffError::duplicate_index_key(&path("/foo/3"), "id", "a"),
            DiffError::missing_index_key(&path("/foo/4"), "id"),
        ]
    );
    assert!(errors.right.is_empty());
    assert_eq!(ops(&patch), vec![j(r#"{"op":"remove","path":"/foo/[id=a]"}"#)]);
}

#[test]
fn wire_form_of_operations() {
    let op = PatchOp::move_op(path("/a/b"), path("/c"));
    assert!(op.to_value() == j(r#"{"op":"move","from":"/a/b","path":"/c"}"#));
    let op = PatchOp::copy(path("/a"), path("/[k=v,x=y]"));
    assert!(op.to_value() == j(r#"{"op":"copy","from":"/a","path":"/[k=v,x=y]"}"#));
}

#[test]
fn path_text_round_trip() {
    let p = path("/a/ [ k = v , x=y ] /0");
    assert_eq!(p.to_text(), "/a/[k=v,x=y]/0");
    assert_eq!(Spath::parse(&p.to_text()).unwrap(), p);
}

#[test]
fn front_insert_and_front_removal() {
    let (patch, _) = diff(&j(r#"["c","d"]"#), &j(r#"["a","b","c","d"]"#), None);
    assert_eq!(
        ops(&patch),
        vec![j(r#"{"op":"add","path":"/0","value":"b"}"#), j(r#"{"op":"add","path":"/0","value":"a"}"#)]
    );
    let (patch, _) = diff(&j(r#"["a","b","c"]"#), &j(r#"["c"]"#), None);
    assert_eq!(
        ops(&patch),
        vec![j(r#"{"op":"remove","path":"/0"}"#), j(r#"{"op":"remove","path":"/0"}"#)]
    );
}

#[test]
fn apply_at_and_get_value_at() {
    let mut doc = j(r#"{"list":[{"id":"x","v":1}]}"#);
    doc.apply_at("/list/[id=x]/v", j("2")).unwrap();
    assert!(doc.get_value_at("/list/0/v").unwrap() == &j("2"));
    assert_eq!(doc.apply_at("/nope/v", j("3")), Err(ResolveError::NotFound));
    assert_eq!(ResolveError::NotFound.to_text(), "Field or item not found");
}

#[test]
fn duplicate_index_key_last_element_wins() {
    let schema = j(SIMPLE_SCHEMA);
    let left = j(r#"{"foo":[{"id":"a"},{"id":"a","x":1}]}"#);
    let right = j(r#"{"foo":[{"id":"a","x":1}]}"#);
    let (patch, errors) = diff(&left, &right, Some(&schema));
    assert_eq!(patch.len(), 0);
    assert_eq!(errors.left, vec![DiffError::duplicate_index_key(&path("/foo/1"), "id", "a")]);
    assert!(errors.right.is_empty());
}

#[test]
fn move_onto_itself_changes_nothing() {
    let mut doc = j(r#"{"items":[{"id":"x","v":1}]}"#);
    assert_eq!(move_op(&mut doc, path(""), path("")), Ok(()));
    assert_eq!(move_op(&mut doc, path("/items/[id=x]"), path("/items/[id=x]")), Ok(()));
    assert!(doc == j(r#"{"items":[{"id":"x","v":1}]}"#));
    assert!(move_op(&mut doc, path("/nope"), path("/nope")).is_err());
}

#[test]
fn path_text_escapes_field_names() {
    let p = path("/a~1b/c~0d/[k=v]");
    assert_eq!(p.segments[0], Segment::Field("a/b".to_string()));
    assert_eq!(p.to_text(), "/a~1b/c~0d/[k=v]");
    assert_eq!(path(&p.to_text()), p);
}

#[test]
fn negative_zero_equals_zero() {
    let zero = Value::Number(Number::Float("0.0".to_string()));
    let minus_zero = Value::Number(Number::Float("-0.0".to_string()));
    assert!(zero == minus_zero);
    assert!(value_matches_filter(&zero, "-0.0"));
    assert!(value_matches_filter(&minus_zero, "0.000"));
    assert!(!value_matches_filter(&zero, "0"));
}

#[test]
fn add_then_remove_under_a_filter() {
    let original = j(r#"{"items":[{"id":"x","v":1},{"id":"y"}],"o":{}}"#);
    let mut doc = original.clone();
    add(&mut doc, path("/items/[id=y]/w"), j("[1]")).unwrap();
    assert!(doc == j(r#"{"items":[{"id":"x","v":1},{"id":"y","w":[1]}],"o":{}}"#));
    remove(&mut doc, path("/items/[id=y]/w")).unwrap();
    assert!(doc == original);
    add(&mut doc, path("/o/-"), j("2")).unwrap();
    remove(&mut doc, path("/o/-")).unwrap();
    assert!(doc == original);
}

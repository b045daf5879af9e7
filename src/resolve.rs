use vstd::prelude::*;
use crate::chars::alphanumeric;
use crate::parser::at;
use crate::path::{PathError, Seg, Segment, Spath};
use crate::text::{chars_of, push_chars, string_from_chars};
use crate::value::{Json, Num, Number, Value, dec, find_key, find_member, model, model_members, model_seq, num_text, lemma_find_key, lemma_model_members, lemma_model_seq};

verus! {

/// A path that does not lead to a value.
#[derive(Debug, PartialEq, Eq)]
pub enum ResolveError {
    /// The path text could not be parsed.
    InvalidPath(PathError),
    /// A segment names a member, index or element that is not there.
    NotFound,
    /// A segment does not apply to the value it meets.
    TypeMismatch { expected: String, actual: String },
}

/// The mathematical form of a resolution error.
pub enum RErr {
    InvalidPath(usize, Seq<char>),
    NotFound,
    TypeMismatch(Seq<char>, Seq<char>),
}

impl View for ResolveError {
    type V = RErr;

    open spec fn view(&self) -> RErr {
        match self {
            ResolveError::InvalidPath(PathError::InvalidSyntax { position, message }) => RErr::InvalidPath(*position, message@),
            ResolveError::NotFound => RErr::NotFound,
            ResolveError::TypeMismatch { expected, actual } => RErr::TypeMismatch(expected@, actual@),
        }
    }
}

impl ResolveError {
    /// The message that describes the error.
    pub fn to_text(&self) -> (r: String)
        ensures
            self is InvalidPath ==> r@ == "Invalid path format"@,
            self is NotFound ==> r@ == "Field or item not found"@,
            self is TypeMismatch ==> r@ == "Type mismatch encountered during resolution, expected "@
                + self->expected@ + ", found "@ + self->actual@,
    {
        match self {
            ResolveError::InvalidPath(_) => "Invalid path format".to_owned(),
            ResolveError::NotFound => "Field or item not found".to_owned(),
            ResolveError::TypeMismatch { expected, actual } => {
                let mut out: Vec<char> = Vec::new();
                push_chars(&mut out, "Type mismatch encountered during resolution, expected ");
                push_chars(&mut out, expected.as_str());
                push_chars(&mut out, ", found ");
                push_chars(&mut out, actual.as_str());
                string_from_chars(&out)
            },
        }
    }

    pub fn type_mismatch(expected: &str, found: &str) -> (r: Self)
        ensures
            r@ == RErr::TypeMismatch(expected@, found@),
    {
        ResolveError::TypeMismatch { expected: expected.to_owned(), actual: found.to_owned() }
    }
}

// ---------------------------------------------------------------------------
// Values read from filter text

/// What `str::to_lowercase` makes of a text.
pub uninterp spec fn lower_of(s: Seq<char>) -> Seq<char>;

/// Relies on `str::to_lowercase`: the lowercase form depends on the
/// characters alone.
#[verifier::external_body]
fn lowercase(s: &str) -> (r: String)
    ensures
        r@ == lower_of(s@),
{
    s.to_lowercase()
}

/// What `{:?}` writes for a text: the text quoted, with escapes.
pub uninterp spec fn debug_text(s: Seq<char>) -> Seq<char>;

/// Relies on `Debug` for `str`: the quoted, escaped form depends on the
/// characters alone.
#[verifier::external_body]
fn debug_quoted(s: &str) -> (r: String)
    ensures
        r@ == debug_text(s@),
{
    format!("{:?}", s)
}

pub open spec fn is_digit(c: char) -> bool {
    '0' <= c && c <= '9'
}

/// The end of the run of decimal digits that starts at `p`.
pub open spec fn digits_end(s: Seq<char>, p: int) -> int
    decreases s.len() - p,
{
    if 0 <= p < s.len() && is_digit(s[p]) {
        digits_end(s, p + 1)
    } else {
        p
    }
}

/// Whether `s` is a number in JSON's grammar:
/// `-? (0 | [1-9][0-9]*) (. [0-9]+)? ([eE] [+-]? [0-9]+)?`.
pub open spec fn json_number(s: Seq<char>) -> bool {
    let sign_end: int = if at(s, 0, '-') { 1 } else { 0 };
    let lead: int = if at(s, sign_end, '0') {
        sign_end + 1
    } else if 0 <= sign_end < s.len() && is_digit(s[sign_end]) {
        digits_end(s, sign_end)
    } else {
        -1
    };
    let mid: int = if lead >= 0 && at(s, lead, '.') {
        if digits_end(s, lead + 1) == lead + 1 {
            -1
        } else {
            digits_end(s, lead + 1)
        }
    } else {
        lead
    };
    let q: int = if at(s, mid + 1, '+') || at(s, mid + 1, '-') {
        mid + 2
    } else {
        mid + 1
    };
    let tail: int = if mid >= 0 && (at(s, mid, 'e') || at(s, mid, 'E')) {
        if digits_end(s, q) == q {
            -1
        } else {
            digits_end(s, q)
        }
    } else {
        mid
    };
    lead >= 0 && mid >= 0 && tail == s.len()
}

/// The value of a run of decimal digits.
pub open spec fn digits_value(s: Seq<char>) -> nat
    decreases s.len(),
{
    if s.len() == 0 {
        0
    } else {
        digits_value(s.drop_last()) * 10 + (s.last() as nat - '0' as nat) as nat
    }
}

pub open spec fn all_digits(s: Seq<char>) -> bool {
    forall|i: int| 0 <= i < s.len() ==> is_digit(#[trigger] s[i])
}

/// What serde_json's `Number::from_str` makes of a text, where it accepts it.
pub uninterp spec fn number_of(s: Seq<char>) -> Option<Num>;

/// Relies on serde_json's `Number::from_str`: it accepts only JSON's number
/// grammar, reads an integer without fraction or exponent as that integer
/// where it fits `u64` (non-negative) or `i64` (negative), and otherwise
/// gives the nearest double, written in its shortest form.
#[verifier::external_body]
fn parse_number(s: &str) -> (r: Option<Number>)
    ensures
        match r {
            Some(n) => number_of(s@) == Some(n@),
            None => number_of(s@) is None,
        },
        !json_number(s@) ==> r is None,
        s@.len() > 0 && all_digits(s@) && (s@[0] != '0' || s@.len() == 1) && digits_value(s@)
            <= u64::MAX ==> r is Some && r->0@ == Num::Pos(digits_value(s@) as u64),
        s@.len() > 1 && s@[0] == '-' && all_digits(s@.drop_first()) && (s@[1] != '0' || s@.len()
            == 2) && 1 <= digits_value(s@.drop_first()) <= 9223372036854775808 ==> r is Some
            && r->0@ == Num::Neg((-digits_value(s@.drop_first())) as i64),
{
    match <serde_json::Number as std::str::FromStr>::from_str(s) {
        Ok(n) => Some(
            if let Some(u) = n.as_u64() {
                Number::PosInt(u)
            } else if let Some(i) = n.as_i64() {
                Number::NegInt(i)
            } else {
                Number::Float(n.to_string())
            },
        ),
        Err(_) => None,
    }
}

// ---------------------------------------------------------------------------
// Filter matching

/// Whether a boolean matches the lowercased text of a filter value.
pub open spec fn bool_matches(b: bool, lowered: Seq<char>) -> bool {
    (b && lowered == "true"@) || (!b && lowered == "false"@)
}

/// Whether a member value matches the text of a filter value: a string
/// exactly, a number as the number the text denotes, a boolean as `true` or
/// `false` in any case; nothing else matches.
pub open spec fn filter_matches(v: Json, text: Seq<char>) -> bool {
    match v {
        Json::Str(s) => s == text,
        Json::Num(n) => match number_of(text) {
            Some(m) => crate::value::num_same(m, n),
            None => false,
        },
        Json::Bool(b) => bool_matches(b, lower_of(text)),
        _ => false,
    }
}

/// Whether a boolean matches an already lowercased filter text.
pub fn matches_lowered_bool(value: bool, lowered: &str) -> (r: bool)
    ensures
        r == bool_matches(value, lowered@),
{
    let t = chars_of(lowered);
    proof {
        reveal_strlit("true");
        reveal_strlit("false");
    }
    if value {
        t.len() == 4 && t[0] == 't' && t[1] == 'r' && t[2] == 'u' && t[3] == 'e' && {
            assert(t@ =~= "true"@);
            true
        }
    } else {
        let r = t.len() == 5 && t[0] == 'f' && t[1] == 'a' && t[2] == 'l' && t[3] == 's' && t[4]
            == 'e';
        if r {
            assert(t@ =~= "false"@);
        }
        r
    }
}

/// Whether a boolean matches a filter value, compared without regard to case.
pub fn value_match_bool(value: &bool, filter_value: &str) -> (r: bool)
    ensures
        r == bool_matches(*value, lower_of(filter_value@)),
{
    let lowered = lowercase(filter_value);
    matches_lowered_bool(*value, lowered.as_str())
}

/// Whether a number equals an already parsed filter value.
pub fn matches_parsed_number(value: &Number, parsed: &Option<Number>) -> (r: bool)
    ensures
        r == (parsed is Some && crate::value::num_same(parsed->0@, value@)),
{
    match parsed {
        Some(p) => p.same(value),
        None => false,
    }
}

/// Whether a number equals the number a filter value denotes.
pub fn value_match_number(value: &Number, filter_value: &str) -> (r: bool)
    ensures
        r == match number_of(filter_value@) {
            Some(m) => crate::value::num_same(m, value@),
            None => false,
        },
{
    let parsed = parse_number(filter_value);
    matches_parsed_number(value, &parsed)
}

/// Whether a member value matches the text of a filter value.
pub fn value_matches_filter(val: &Value, filter_value: &str) -> (r: bool)
    ensures
        r == filter_matches(val@, filter_value@),
{
    match val {
        Value::String(s) => {
            let t = chars_of(filter_value);
            let u = chars_of(s.as_str());
            if t.len() != u.len() {
                return false;
            }
            let mut i: usize = 0;
            while i < t.len()
                invariant
                    t.len() == u.len(),
                    t@ == filter_value@,
                    u@ == s@,
                    val@ == Json::Str(s@),
                    i <= t.len(),
                    forall|j: int| 0 <= j < i ==> t@[j] == u@[j],
                decreases t.len() - i,
            {
                if t[i] != u[i] {
                    assert(t@[i as int] != u@[i as int]);
                    return false;
                }
                i += 1;
            }
            assert(t@ =~= u@);
            true
        },
        Value::Number(n) => value_match_number(n, filter_value),
        Value::Bool(b) => value_match_bool(b, filter_value),
        _ => false,
    }
}

// ---------------------------------------------------------------------------
// Array indices written as text

/// The index a segment names, as `usize::from_str` reads it: an optional `+`
/// and at least one decimal digit, with a value that fits `usize`.
pub open spec fn parse_index(f: Seq<char>) -> Option<nat> {
    let d = if f.len() > 0 && f[0] == '+' { f.drop_first() } else { f };
    if d.len() > 0 && all_digits(d) && digits_value(d) <= usize::MAX {
        Some(digits_value(d))
    } else {
        None
    }
}

pub proof fn lemma_digits_value_prefix(d: Seq<char>, i: int)
    requires
        0 <= i < d.len(),
    ensures
        digits_value(d.subrange(0, i + 1)) == digits_value(d.subrange(0, i)) * 10 + (d[i] as nat
            - '0' as nat) as nat,
{
    assert(d.subrange(0, i + 1).drop_last() =~= d.subrange(0, i));
    assert(d.subrange(0, i + 1).last() == d[i]);
}

pub proof fn lemma_digits_value_mono(d: Seq<char>, i: int)
    requires
        0 <= i <= d.len(),
        all_digits(d),
    ensures
        digits_value(d.subrange(0, i)) <= digits_value(d),
    decreases d.len() - i,
{
    if i < d.len() {
        lemma_digits_value_prefix(d, i);
        lemma_digits_value_mono(d, i + 1);
    } else {
        assert(d.subrange(0, i) =~= d);
    }
}

/// Reads an array index from a segment's name.
pub fn index_of(f: &str) -> (r: Option<usize>)
    ensures
        match parse_index(f@) {
            Some(i) => r == Some(i as usize),
            None => r is None,
        },
{
    let t = chars_of(f);
    let start: usize = if t.len() > 0 && t[0] == '+' { 1 } else { 0 };
    let ghost d = if f@.len() > 0 && f@[0] == '+' { f@.drop_first() } else { f@ };
    assert(d =~= t@.subrange(start as int, t@.len() as int));
    if start >= t.len() {
        return None;
    }
    let mut v: usize = 0;
    let mut i = start;
    while i < t.len()
        invariant
            start <= i <= t@.len(),
            t@ == f@,
            d == t@.subrange(start as int, t@.len() as int),
            d == (if f@.len() > 0 && f@[0] == '+' { f@.drop_first() } else { f@ }),
            forall|j: int| 0 <= j < i - start ==> is_digit(#[trigger] d[j]),
            v == digits_value(d.subrange(0, i - start)),
        decreases t.len() - i,
    {
        let c = t[i];
        assert(d[i - start] == t@[i as int]);
        if !('0' <= c && c <= '9') {
            assert(!is_digit(d[i - start]));
            assert(!all_digits(d));
            return None;
        }
        proof {
            lemma_digits_value_prefix(d, i - start);
        }
        let dv = (c as u32 - '0' as u32) as usize;
        match v.checked_mul(10) {
            None => {
                proof {
                    assert(all_digits(d) ==> digits_value(d.subrange(0, i - start + 1)) <= digits_value(d)) by {
                        if all_digits(d) {
                            lemma_digits_value_mono(d, i - start + 1);
                        }
                    }
                }
                return None;
            },
            Some(m) => match m.checked_add(dv) {
                None => {
                    proof {
                        assert(all_digits(d) ==> digits_value(d.subrange(0, i - start + 1)) <= digits_value(d)) by {
                            if all_digits(d) {
                                lemma_digits_value_mono(d, i - start + 1);
                            }
                        }
                    }
                    return None;
                },
                Some(n) => {
                    v = n;
                },
            },
        }
        i += 1;
    }
    assert(d.subrange(0, i - start) =~= d);
    Some(v)
}

// ---------------------------------------------------------------------------
// One step of a path

/// How a value is named in a type mismatch.
pub open spec fn type_desc(v: Json) -> Seq<char> {
    match v {
        Json::Null => "null"@,
        Json::Bool(b) => "boolean("@ + (if b { "true"@ } else { "false"@ }) + ")"@,
        Json::Num(n) => "number("@ + num_text(n) + ")"@,
        Json::Str(s) => "string("@ + debug_text(s) + ")"@,
        Json::Arr(_) => "array"@,
        Json::Obj(_) => "object"@,
    }
}

/// The text `type_desc` gives for a value.
pub fn value_type_desc(val: &Value) -> (r: String)
    ensures
        r@ == type_desc(val@),
{
    let mut out: Vec<char> = Vec::new();
    match val {
        Value::Null => {
            push_chars(&mut out, "null");
        },
        Value::Bool(b) => {
            push_chars(&mut out, "boolean(");
            if *b {
                push_chars(&mut out, "true");
            } else {
                push_chars(&mut out, "false");
            }
            push_chars(&mut out, ")");
        },
        Value::Number(n) => {
            push_chars(&mut out, "number(");
            let t = n.to_text();
            let ghost before = out@;
            let mut k: usize = 0;
            while k < t.len()
                invariant
                    k <= t.len(),
                    out@ == before + t@.subrange(0, k as int),
                decreases t.len() - k,
            {
                out.push(t[k]);
                k += 1;
                assert(out@ =~= before + t@.subrange(0, k as int));
            }
            assert(t@.subrange(0, k as int) =~= t@);
            push_chars(&mut out, ")");
        },
        Value::String(s) => {
            push_chars(&mut out, "string(");
            let q = debug_quoted(s.as_str());
            push_chars(&mut out, q.as_str());
            push_chars(&mut out, ")");
        },
        Value::Array(_) => {
            push_chars(&mut out, "array");
        },
        Value::Object(_) => {
            push_chars(&mut out, "object");
        },
    }
    assert(out@ =~= type_desc(val@));
    string_from_chars(&out)
}

/// Whether an element satisfies one condition of a filter: it is an object
/// with that member, and the member's value matches.
pub open spec fn cond_holds(e: Json, c: (Seq<char>, Seq<char>)) -> bool {
    match e {
        Json::Obj(ms) => find_key(ms, c.0) >= 0 && filter_matches(ms[find_key(ms, c.0)].1, c.1),
        _ => false,
    }
}

/// Whether an element satisfies every condition of a filter.
pub open spec fn elem_matches(e: Json, cs: Seq<(Seq<char>, Seq<char>)>) -> bool {
    forall|i: int| 0 <= i < cs.len() ==> #[trigger] cond_holds(e, cs[i])
}

/// The position of the first element that satisfies a filter, or -1.
pub open spec fn first_match(xs: Seq<Json>, cs: Seq<(Seq<char>, Seq<char>)>) -> int
    decreases xs.len(),
{
    if xs.len() == 0 {
        -1
    } else if elem_matches(xs[0], cs) {
        0
    } else {
        let r = first_match(xs.drop_first(), cs);
        if r < 0 {
            -1
        } else {
            r + 1
        }
    }
}

pub proof fn lemma_first_match(xs: Seq<Json>, cs: Seq<(Seq<char>, Seq<char>)>)
    ensures
        first_match(xs, cs) < 0 <==> forall|j: int| 0 <= j < xs.len() ==> !elem_matches(#[trigger] xs[j], cs),
        first_match(xs, cs) >= 0 ==> first_match(xs, cs) < xs.len() && elem_matches(xs[first_match(xs, cs)], cs)
            && forall|j: int| 0 <= j < first_match(xs, cs) ==> !elem_matches(#[trigger] xs[j], cs),
    decreases xs.len(),
{
    if xs.len() > 0 && !elem_matches(xs[0], cs) {
        lemma_first_match(xs.drop_first(), cs);
        assert forall|j: int| 0 <= j < xs.len() && elem_matches(xs[j], cs) implies first_match(xs, cs) >= 0 by {
            assert(xs.drop_first()[j - 1] == xs[j]);
        }
        if first_match(xs, cs) >= 0 {
            assert forall|j: int| 0 <= j < first_match(xs, cs) implies !elem_matches(#[trigger] xs[j], cs) by {
                if j > 0 {
                    assert(xs.drop_first()[j - 1] == xs[j]);
                }
            }
        }
    }
}

/// The child a value holds at position `i`: an array element or an object
/// member's value.
pub open spec fn child(v: Json, i: int) -> Json {
    match v {
        Json::Arr(xs) => xs[i],
        Json::Obj(ms) => ms[i].1,
        _ => v,
    }
}

/// `v` with its child at position `i` replaced by `c`.
pub open spec fn set_child(v: Json, i: int, c: Json) -> Json {
    match v {
        Json::Arr(xs) => Json::Arr(xs.update(i, c)),
        Json::Obj(ms) => Json::Obj(ms.update(i, (ms[i].0, c))),
        _ => v,
    }
}

/// Where one segment leads from a value: the position of the child it
/// selects, or why it selects none.
pub open spec fn step_index(v: Json, seg: Seg) -> Result<int, RErr> {
    match seg {
        Seg::Field(f) => match v {
            Json::Obj(ms) => if find_key(ms, f) >= 0 {
                Ok(find_key(ms, f))
            } else {
                Err(RErr::NotFound)
            },
            Json::Arr(xs) => match parse_index(f) {
                Some(i) => if i < xs.len() {
                    Ok(i as int)
                } else {
                    Err(RErr::NotFound)
                },
                None => Err(RErr::TypeMismatch("number"@, "string("@ + debug_text(f) + ")"@)),
            },
            _ => Err(RErr::TypeMismatch("object or array"@, type_desc(v))),
        },
        Seg::Filter(cs) => match v {
            Json::Arr(xs) => if first_match(xs, cs) >= 0 {
                Ok(first_match(xs, cs))
            } else {
                Err(RErr::NotFound)
            },
            _ => Err(RErr::TypeMismatch("array"@, type_desc(v))),
        },
    }
}

/// The value a path leads to from `v`, or why it leads nowhere.
pub open spec fn resolve(v: Json, path: Seq<Seg>) -> Result<Json, RErr>
    decreases path.len(),
{
    if path.len() == 0 {
        Ok(v)
    } else {
        match step_index(v, path[0]) {
            Ok(i) => resolve(child(v, i), path.drop_first()),
            Err(e) => Err(e),
        }
    }
}

/// `v` with the value that `path` leads to replaced by `new`; unchanged
/// where the path leads nowhere.
pub open spec fn update(v: Json, path: Seq<Seg>, new: Json) -> Json
    decreases path.len(),
{
    if path.len() == 0 {
        new
    } else {
        match step_index(v, path[0]) {
            Ok(i) => set_child(v, i, update(child(v, i), path.drop_first(), new)),
            Err(_) => v,
        }
    }
}

/// Whether an element satisfies every condition of a filter.
fn element_matches(e: &Value, cs: &Vec<(String, String)>) -> (r: bool)
    ensures
        r == elem_matches(e@, crate::path::conds_view(cs@)),
{
    let ghost gcs = crate::path::conds_view(cs@);
    let mut i: usize = 0;
    while i < cs.len()
        invariant
            i <= cs.len(),
            gcs == crate::path::conds_view(cs@),
            forall|j: int| 0 <= j < i ==> #[trigger] cond_holds(e@, gcs[j]),
        decreases cs.len() - i,
    {
        let ok = match e {
            Value::Object(ms) => {
                proof {
                    lemma_model_members(ms@);
                }
                match find_member(ms, &cs[i].0) {
                    Some(j) => {
                        proof {
                            lemma_find_key(model_members(ms@), cs@[i as int].0@);
                        }
                        value_matches_filter(&ms[j].1, cs[i].1.as_str())
                    },
                    None => false,
                }
            },
            _ => false,
        };
        if !ok {
            assert(!cond_holds(e@, gcs[i as int]));
            return false;
        }
        assert(cond_holds(e@, gcs[i as int]));
        i += 1;
    }
    true
}

/// The position of the first element that satisfies a filter.
pub fn find_element(xs: &Vec<Value>, cs: &Vec<(String, String)>) -> (r: Option<usize>)
    ensures
        match r {
            Some(k) => first_match(model_seq(xs@), crate::path::conds_view(cs@)) == k,
            None => first_match(model_seq(xs@), crate::path::conds_view(cs@)) < 0,
        },
{
    proof {
        lemma_model_seq(xs@);
        lemma_first_match(model_seq(xs@), crate::path::conds_view(cs@));
    }
    let mut k: usize = 0;
    while k < xs.len()
        invariant
            k <= xs.len(),
            model_seq(xs@).len() == xs@.len(),
            forall|j: int| 0 <= j < xs@.len() ==> #[trigger] model_seq(xs@)[j] == model(xs@[j]),
            forall|j: int| 0 <= j < k ==> !elem_matches(#[trigger] model_seq(xs@)[j], crate::path::conds_view(cs@)),
        decreases xs.len() - k,
    {
        if element_matches(&xs[k], cs) {
            proof {
                lemma_first_match(model_seq(xs@), crate::path::conds_view(cs@));
                assert(elem_matches(model_seq(xs@)[k as int], crate::path::conds_view(cs@)));
                let fm = first_match(model_seq(xs@), crate::path::conds_view(cs@));
                if fm < k {
                    assert(!elem_matches(model_seq(xs@)[fm], crate::path::conds_view(cs@)));
                }
                if fm > k {
                    assert(!elem_matches(model_seq(xs@)[k as int], crate::path::conds_view(cs@)));
                }
            }
            return Some(k);
        }
        k += 1;
    }
    proof {
        lemma_first_match(model_seq(xs@), crate::path::conds_view(cs@));
    }
    None
}

/// Where one segment leads from a value, as `step_index` states it.
pub fn locate(v: &Value, seg: &Segment) -> (r: Result<usize, ResolveError>)
    ensures
        match step_index(v@, seg@) {
            Ok(i) => r is Ok && r->Ok_0 == i,
            Err(e) => r is Err && r->Err_0@ == e,
        },
{
    match seg {
        Segment::Field(f) => match v {
            Value::Object(ms) => {
                proof {
                    lemma_model_members(ms@);
                    lemma_find_key(model_members(ms@), f@);
                }
                match find_member(ms, f) {
                    Some(j) => Ok(j),
                    None => Err(ResolveError::NotFound),
                }
            },
            Value::Array(xs) => {
                proof {
                    lemma_model_seq(xs@);
                }
                match index_of(f.as_str()) {
                    Some(i) => if i < xs.len() {
                        Ok(i)
                    } else {
                        Err(ResolveError::NotFound)
                    },
                    None => {
                        let mut out: Vec<char> = Vec::new();
                        push_chars(&mut out, "string(");
                        let q = debug_quoted(f.as_str());
                        push_chars(&mut out, q.as_str());
                        push_chars(&mut out, ")");
                        let actual = string_from_chars(&out);
                        Err(ResolveError::type_mismatch("number", actual.as_str()))
                    },
                }
            },
            _ => {
                let d = value_type_desc(v);
                Err(ResolveError::type_mismatch("object or array", d.as_str()))
            },
        },
        Segment::Filter(cs) => match v {
            Value::Array(xs) => {
                proof {
                    lemma_model_seq(xs@);
                }
                match find_element(xs, cs) {
                    Some(k) => Ok(k),
                    None => Err(ResolveError::NotFound),
                }
            },
            _ => {
                let d = value_type_desc(v);
                Err(ResolveError::type_mismatch("array", d.as_str()))
            },
        },
    }
}

/// A step that succeeds selects a child that exists.
pub proof fn lemma_step_index_bounds(v: Json, seg: Seg)
    ensures
        step_index(v, seg) is Ok ==> match v {
            Json::Arr(xs) => 0 <= step_index(v, seg)->Ok_0 < xs.len(),
            Json::Obj(ms) => 0 <= step_index(v, seg)->Ok_0 < ms.len(),
            _ => false,
        },
{
    match v {
        Json::Arr(xs) => {
            if let Seg::Filter(cs) = seg {
                lemma_first_match(xs, cs);
            }
        },
        Json::Obj(ms) => {
            if let Seg::Field(f) = seg {
                lemma_find_key(ms, f);
            }
        },
        _ => {},
    }
}

/// The child of a container at position `i`.
fn child_ref(v: &Value, i: usize) -> (r: &Value)
    requires
        match v@ {
            Json::Arr(xs) => i < xs.len(),
            Json::Obj(ms) => i < ms.len(),
            _ => false,
        },
    ensures
        r@ == child(v@, i as int),
{
    match v {
        Value::Array(xs) => {
            proof {
                lemma_model_seq(xs@);
            }
            &xs[i]
        },
        Value::Object(ms) => {
            proof {
                lemma_model_members(ms@);
            }
            &ms[i].1
        },
        _ => {
            proof {
                assert(false);
            }
            v
        },
    }
}

/// The value `path` leads to within `doc`.
pub fn resolve_ref<'a>(doc: &'a Value, path: &Spath) -> (r: Result<&'a Value, ResolveError>)
    ensures
        match resolve(doc@, path@) {
            Ok(j) => r is Ok && r->Ok_0@ == j,
            Err(e) => r is Err && r->Err_0@ == e,
        },
{
    let mut cur: &Value = doc;
    let n = path.segments.len();
    let mut i: usize = 0;
    assert(path@.subrange(0, n as int) =~= path@);
    while i < n
        invariant
            n == path@.len(),
            i <= n,
            resolve(doc@, path@) == resolve(cur@, path@.subrange(i as int, n as int)),
        decreases n - i,
    {
        let ghost rest = path@.subrange(i as int, n as int);
        assert(rest[0] == path.segments@[i as int]@);
        assert(rest.drop_first() =~= path@.subrange(i as int + 1, n as int));
        let k = match locate(cur, &path.segments[i]) {
            Ok(k) => k,
            Err(e) => {
                return Err(e);
            },
        };
        proof {
            lemma_step_index_bounds(cur@, rest[0]);
        }
        cur = child_ref(cur, k);
        i += 1;
    }
    assert(path@.subrange(n as int, n as int).len() == 0);
    Ok(cur)
}

pub proof fn lemma_model_seq_update(xs: Seq<Value>, k: int)
    requires
        0 <= k < xs.len(),
    ensures
        forall|v: Value| #[trigger] model_seq(xs.update(k, v)) == model_seq(xs).update(k, model(v)),
        forall|v: Value| model(v) == model(xs[k]) ==> #[trigger] model_seq(xs.update(k, v)) == model_seq(xs),
{
    lemma_model_seq(xs);
    assert(model_seq(xs).update(k, model(xs[k])) =~= model_seq(xs));
    assert forall|v: Value| #[trigger] model_seq(xs.update(k, v)) == model_seq(xs).update(k, model(v)) by {
        lemma_model_seq(xs);
        lemma_model_seq(xs.update(k, v));
        assert(model_seq(xs.update(k, v)) =~= model_seq(xs).update(k, model(v)));
    }
}

pub proof fn lemma_model_members_update(ms: Seq<(String, Value)>, k: int)
    requires
        0 <= k < ms.len(),
    ensures
        forall|v: Value| #[trigger] model_members(ms.update(k, (ms[k].0, v))) == model_members(ms).update(k, (ms[k].0@, model(v))),
        forall|v: Value| model(v) == model(ms[k].1) ==> #[trigger] model_members(ms.update(k, (ms[k].0, v))) == model_members(ms),
{
    lemma_model_members(ms);
    assert(model_members(ms).update(k, (ms[k].0@, model(ms[k].1))) =~= model_members(ms));
    assert forall|v: Value| #[trigger] model_members(ms.update(k, (ms[k].0, v))) == model_members(ms).update(k, (ms[k].0@, model(v))) by {
        lemma_model_members(ms);
        lemma_model_members(ms.update(k, (ms[k].0, v)));
        assert(model_members(ms.update(k, (ms[k].0, v))) =~= model_members(ms).update(k, (ms[k].0@, model(v))));
    }
}

} // verus!

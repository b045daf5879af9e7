use vstd::prelude::*;
use crate::operation::{Op, PatchOp};
use crate::path::{Seg, path_text};
use crate::text::chars_of;
use crate::value::{Json, Num, Number, Value, lemma_model_members, lemma_model_seq, model, model_members, model_seq, num_text};

verus! {

/// How many bytes a character takes inside a JSON string: escapes for `"`,
/// `\` and control characters, else its UTF-8 length.
pub open spec fn char_len(c: char) -> nat {
    let u = c as u32;
    if c == '"' || c == '\\' || u == 8 || u == 9 || u == 10 || u == 12 || u == 13 {
        2
    } else if u < 0x20 {
        6
    } else if u < 0x80 {
        1
    } else if u < 0x800 {
        2
    } else if u < 0x10000 {
        3
    } else {
        4
    }
}

/// The bytes of the characters of `s` inside a JSON string.
pub open spec fn chars_len(s: Seq<char>) -> nat
    decreases s.len(),
{
    if s.len() == 0 {
        0
    } else {
        chars_len(s.drop_last()) + char_len(s.last())
    }
}

/// The length in bytes of a string written as JSON, quotes included.
pub open spec fn str_len(s: Seq<char>) -> nat {
    chars_len(s) + 2
}

/// The length in bytes of a document written as compact JSON.
pub open spec fn json_len(j: Json) -> nat
    decreases j,
{
    match j {
        Json::Null => 4,
        Json::Bool(b) => if b {
            4
        } else {
            5
        },
        Json::Num(n) => num_text(n).len(),
        Json::Str(s) => str_len(s),
        Json::Arr(xs) => 2 + elems_len(xs),
        Json::Obj(ms) => 2 + members_len(ms),
    }
}

/// The bytes of the elements of an array and the commas between them.
pub open spec fn elems_len(xs: Seq<Json>) -> nat
    decreases xs,
{
    if xs.len() == 0 {
        0
    } else if xs.len() == 1 {
        json_len(xs[0])
    } else {
        elems_len(xs.drop_last()) + 1 + json_len(xs.last())
    }
}

/// The bytes of the members of an object and the commas between them.
pub open spec fn members_len(ms: Seq<(Seq<char>, Json)>) -> nat
    decreases ms,
{
    if ms.len() == 0 {
        0
    } else if ms.len() == 1 {
        str_len(ms[0].0) + 1 + json_len(ms[0].1)
    } else {
        members_len(ms.drop_last()) + 1 + str_len(ms.last().0) + 1 + json_len(ms.last().1)
    }
}

/// `n`, or `u64::MAX` where it is larger.
pub open spec fn sat(n: nat) -> nat {
    if n <= u64::MAX {
        n
    } else {
        u64::MAX as nat
    }
}

proof fn lemma_sat_add(a: nat, b: nat)
    ensures
        sat((sat(a) + sat(b)) as nat) == sat(a + b),
{
}

fn sat_add(a: u64, b: u64) -> (r: u64)
    ensures
        r == sat((a + b) as nat),
{
    a.saturating_add(b)
}

/// The bytes of a text inside a JSON string, counted up to `u64::MAX`.
pub fn chars_size(s: &Vec<char>) -> (r: u64)
    ensures
        r == sat(chars_len(s@)),
{
    let mut total: u64 = 0;
    let mut i: usize = 0;
    while i < s.len()
        invariant
            i <= s.len(),
            total == sat(chars_len(s@.subrange(0, i as int))),
        decreases s.len() - i,
    {
        let c = s[i];
        let u = c as u32;
        let n: u64 = if c == '"' || c == '\\' || u == 8 || u == 9 || u == 10 || u == 12 || u == 13 {
            2
        } else if u < 0x20 {
            6
        } else if u < 0x80 {
            1
        } else if u < 0x800 {
            2
        } else if u < 0x10000 {
            3
        } else {
            4
        };
        proof {
            assert(s@.subrange(0, i + 1).drop_last() =~= s@.subrange(0, i as int));
            lemma_sat_add(chars_len(s@.subrange(0, i as int)), char_len(c));
        }
        total = sat_add(total, n);
        i += 1;
    }
    assert(s@.subrange(0, i as int) =~= s@);
    total
}

/// The length of a document written as compact JSON, counted up to `u64::MAX`.
pub fn json_size(v: &Value) -> (r: u64)
    ensures
        r == sat(json_len(v@)),
    decreases v,
{
    match v {
        Value::Null => 4,
        Value::Bool(b) => if *b {
            4
        } else {
            5
        },
        Value::Number(n) => {
            let t = n.to_text();
            t.len() as u64
        },
        Value::String(s) => {
            let t = chars_of(s.as_str());
            let n = chars_size(&t);
            proof {
                lemma_sat_add(chars_len(s@), 2);
            }
            sat_add(n, 2)
        },
        Value::Array(xs) => {
            proof {
                lemma_model_seq(xs@);
            }
            let mut total: u64 = 0;
            let mut i: usize = 0;
            while i < xs.len()
                invariant
                    i <= xs.len(),
                    *v == Value::Array(*xs),
                    model_seq(xs@).len() == xs@.len(),
                    forall|j: int| 0 <= j < xs@.len() ==> #[trigger] model_seq(xs@)[j] == model(xs@[j]),
                    total == sat(elems_len(model_seq(xs@).subrange(0, i as int))),
                decreases xs.len() - i,
            {
                proof {
                    assert(decreases_to!(*v => v->Array_0));
                    assert(decreases_to!(v->Array_0 => v->Array_0[i as int]));
                }
                let n = json_size(&xs[i]);
                let ghost pre = model_seq(xs@).subrange(0, i as int);
                let ghost next = model_seq(xs@).subrange(0, i as int + 1);
                proof {
                    assert(next.drop_last() =~= pre);
                    assert(next.last() == model(xs@[i as int]));
                }
                if i == 0 {
                    assert(next =~= seq![model(xs@[0])]);
                    total = n;
                } else {
                    proof {
                        lemma_sat_add(elems_len(pre), 1);
                        lemma_sat_add(elems_len(pre) + 1, json_len(model(xs@[i as int])));
                    }
                    total = sat_add(sat_add(total, 1), n);
                }
                i += 1;
            }
            assert(model_seq(xs@).subrange(0, i as int) =~= model_seq(xs@));
            proof {
                lemma_sat_add(2, elems_len(model_seq(xs@)));
            }
            sat_add(2, total)
        },
        Value::Object(ms) => {
            proof {
                lemma_model_members(ms@);
            }
            let mut total: u64 = 0;
            let mut i: usize = 0;
            while i < ms.len()
                invariant
                    i <= ms.len(),
                    *v == Value::Object(*ms),
                    model_members(ms@).len() == ms@.len(),
                    forall|j: int| 0 <= j < ms@.len() ==> #[trigger] model_members(ms@)[j] == (ms@[j].0@, model(ms@[j].1)),
                    total == sat(members_len(model_members(ms@).subrange(0, i as int))),
                decreases ms.len() - i,
            {
                proof {
                    assert(decreases_to!(*v => v->Object_0));
                    assert(decreases_to!(v->Object_0 => v->Object_0[i as int]));
                    assert(decreases_to!(ms[i as int] => ms[i as int].1));
                }
                let kt = chars_of(ms[i].0.as_str());
                let kn = chars_size(&kt);
                let vn = json_size(&ms[i].1);
                let ghost pre = model_members(ms@).subrange(0, i as int);
                let ghost next = model_members(ms@).subrange(0, i as int + 1);
                let ghost k = ms@[i as int].0@;
                let ghost jv = model(ms@[i as int].1);
                proof {
                    assert(next.drop_last() =~= pre);
                    assert(next.last() == (k, jv));
                    lemma_sat_add(chars_len(k), 2);
                    lemma_sat_add(str_len(k), 1);
                    lemma_sat_add(str_len(k) + 1, json_len(jv));
                }
                let entry = sat_add(sat_add(sat_add(kn, 2), 1), vn);
                if i == 0 {
                    assert(next =~= seq![(k, jv)]);
                    total = entry;
                } else {
                    proof {
                        lemma_sat_add(members_len(pre), 1);
                        lemma_sat_add(members_len(pre) + 1, str_len(k) + 1 + json_len(jv));
                    }
                    total = sat_add(sat_add(total, 1), entry);
                }
                i += 1;
            }
            assert(model_members(ms@).subrange(0, i as int) =~= model_members(ms@));
            proof {
                lemma_sat_add(2, members_len(model_members(ms@)));
            }
            sat_add(2, total)
        },
    }
}

/// The wire form of an operation: an object with `op`, then `from` where
/// the operation has one, then `path`, then `value` where it has one.
pub open spec fn op_json(op: Op) -> Json {
    match op {
        Op::Add(p, v) => Json::Obj(seq![("op"@, Json::Str("add"@)), ("path"@, Json::Str(path_text(p))), ("value"@, v)]),
        Op::Remove(p) => Json::Obj(seq![("op"@, Json::Str("remove"@)), ("path"@, Json::Str(path_text(p)))]),
        Op::Replace(p, v) => Json::Obj(seq![("op"@, Json::Str("replace"@)), ("path"@, Json::Str(path_text(p))), ("value"@, v)]),
        Op::Move(f, p) => Json::Obj(seq![("op"@, Json::Str("move"@)), ("from"@, Json::Str(path_text(f))), ("path"@, Json::Str(path_text(p)))]),
        Op::Copy(f, p) => Json::Obj(seq![("op"@, Json::Str("copy"@)), ("from"@, Json::Str(path_text(f))), ("path"@, Json::Str(path_text(p)))]),
        Op::Test(p, v) => Json::Obj(seq![("op"@, Json::Str("test"@)), ("path"@, Json::Str(path_text(p))), ("value"@, v)]),
    }
}

/// The wire form of a patch: the array of its operations' wire forms.
pub open spec fn patch_json(ops: Seq<Op>) -> Json {
    Json::Arr(ops.map_values(|o: Op| op_json(o)))
}

fn member(k: &str, v: Value) -> (r: (String, Value))
    ensures
        r.0@ == k@,
        model(r.1) == model(v),
{
    (k.to_owned(), v)
}

fn text_value(k: &str) -> (r: Value)
    ensures
        r@ == Json::Str(k@),
{
    Value::String(k.to_owned())
}

impl PatchOp {
    /// The wire form of the operation, as `op_json` gives it.
    pub fn to_value(&self) -> (r: Value)
        ensures
            r@ == op_json(self@),
    {
        let mut ms: Vec<(String, Value)> = Vec::new();
        match self {
            PatchOp::Add { path, value } => {
                ms.push(member("op", text_value("add")));
                ms.push(member("path", Value::String(path.to_text())));
                ms.push(member("value", value.clone()));
            },
            PatchOp::Remove { path } => {
                ms.push(member("op", text_value("remove")));
                ms.push(member("path", Value::String(path.to_text())));
            },
            PatchOp::Replace { path, value } => {
                ms.push(member("op", text_value("replace")));
                ms.push(member("path", Value::String(path.to_text())));
                ms.push(member("value", value.clone()));
            },
            PatchOp::Move { from, path } => {
                ms.push(member("op", text_value("move")));
                ms.push(member("from", Value::String(from.to_text())));
                ms.push(member("path", Value::String(path.to_text())));
            },
            PatchOp::Copy { from, path } => {
                ms.push(member("op", text_value("copy")));
                ms.push(member("from", Value::String(from.to_text())));
                ms.push(member("path", Value::String(path.to_text())));
            },
            PatchOp::Test { path, value } => {
                ms.push(member("op", text_value("test")));
                ms.push(member("path", Value::String(path.to_text())));
                ms.push(member("value", value.clone()));
            },
        }
        proof {
            lemma_model_members(ms@);
        }
        assert(model_members(ms@) =~= op_json(self@)->Obj_0);
        Value::Object(ms)
    }
}

/// The wire form of a patch, as `patch_json` gives it.
pub fn patch_value(ops: &Vec<PatchOp>) -> (r: Value)
    ensures
        r@ == patch_json(crate::operation::ops_view(ops@)),
{
    let mut out: Vec<Value> = Vec::new();
    let mut i: usize = 0;
    while i < ops.len()
        invariant
            i <= ops.len(),
            out@.len() == i,
            forall|j: int| 0 <= j < i ==> #[trigger] model(out@[j]) == op_json(ops@[j]@),
        decreases ops.len() - i,
    {
        out.push(ops[i].to_value());
        i += 1;
    }
    proof {
        lemma_model_seq(out@);
    }
    assert(model_seq(out@) =~= patch_json(crate::operation::ops_view(ops@))->Arr_0);
    Value::Array(out)
}

} // verus!

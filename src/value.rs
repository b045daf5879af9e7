use vstd::prelude::*;

verus! {

/// A JSON number, held as the integer it denotes or, for a number that is not
/// an integer in the 64-bit ranges, as the shortest text of the nearest double
/// (zero being written `0.0` or `-0.0`, which denote the same number).
#[derive(Debug, PartialEq, Eq)]
pub enum Number {
    /// A non-negative integer.
    PosInt(u64),
    /// A negative integer.
    NegInt(i64),
    /// Any other finite number, as its canonical text (for example `3.001`).
    Float(String),
}

/// A JSON document: objects keep their members in insertion order.
#[derive(Debug)]
pub enum Value {
    Null,
    Bool(bool),
    Number(Number),
    String(String),
    Array(Vec<Value>),
    Object(Vec<(String, Value)>),
}

/// The mathematical form of a number.
pub enum Num {
    Pos(u64),
    Neg(i64),
    Text(Seq<char>),
}

/// The mathematical form of a JSON document.
pub enum Json {
    Null,
    Bool(bool),
    Num(Num),
    Str(Seq<char>),
    Arr(Seq<Json>),
    Obj(Seq<(Seq<char>, Json)>),
}

impl View for Number {
    type V = Num;

    open spec fn view(&self) -> Num {
        match self {
            Number::PosInt(x) => Num::Pos(*x),
            Number::NegInt(x) => Num::Neg(*x),
            Number::Float(t) => Num::Text(t@),
        }
    }
}

pub open spec fn model(v: Value) -> Json
    decreases v,
{
    match v {
        Value::Null => Json::Null,
        Value::Bool(b) => Json::Bool(b),
        Value::Number(n) => Json::Num(n@),
        Value::String(s) => Json::Str(s@),
        Value::Array(xs) => Json::Arr(model_seq(xs@)),
        Value::Object(ms) => Json::Obj(model_members(ms@)),
    }
}

pub open spec fn model_seq(xs: Seq<Value>) -> Seq<Json>
    decreases xs,
{
    if xs.len() == 0 {
        Seq::empty()
    } else {
        model_seq(xs.drop_last()).push(model(xs.last()))
    }
}

pub open spec fn model_members(ms: Seq<(String, Value)>) -> Seq<(Seq<char>, Json)>
    decreases ms,
{
    if ms.len() == 0 {
        Seq::empty()
    } else {
        model_members(ms.drop_last()).push((ms.last().0@, model(ms.last().1)))
    }
}

impl View for Value {
    type V = Json;

    open spec fn view(&self) -> Json {
        model(*self)
    }
}


/// Index of the first member named `k`, or -1 where there is none.
pub open spec fn find_key(ms: Seq<(Seq<char>, Json)>, k: Seq<char>) -> int
    decreases ms.len(),
{
    if ms.len() == 0 {
        -1
    } else if ms[0].0 == k {
        0
    } else {
        let r = find_key(ms.drop_first(), k);
        if r < 0 {
            -1
        } else {
            r + 1
        }
    }
}

/// Equality of JSON documents: arrays compare element by element, objects
/// compare member by member whatever the order of their members.
pub open spec fn json_eq(a: Json, b: Json) -> bool
    decreases a,
{
    match a {
        Json::Arr(xs) => match b {
            Json::Arr(ys) => xs.len() == ys.len() && elems_eq(xs, ys),
            _ => false,
        },
        Json::Obj(xs) => match b {
            Json::Obj(ys) => xs.len() == ys.len() && members_in(xs, ys),
            _ => false,
        },
        Json::Num(x) => match b {
            Json::Num(y) => num_same(x, y),
            _ => false,
        },
        _ => a == b,
    }
}

/// The text of a floating zero, positive or negative.
pub open spec fn zero_text(t: Seq<char>) -> bool {
    t == seq!['0', '.', '0'] || t == seq!['-', '0', '.', '0']
}

/// Whether two numbers are the same number: equal integers, or equal texts
/// of doubles, `0.0` and `-0.0` being the same.
pub open spec fn num_same(a: Num, b: Num) -> bool {
    a == b || (a is Text && b is Text && zero_text(a->Text_0) && zero_text(b->Text_0))
}

/// A number held in its canonical form: a negative integer below zero, and a
/// double's text not that of an integer (it has a point or an exponent).
pub open spec fn num_valid(n: Num) -> bool {
    match n {
        Num::Pos(_) => true,
        Num::Neg(i) => i < 0,
        Num::Text(t) => exists|j: int| 0 <= j < t.len() && (t[j] == '.' || t[j] == 'e' || t[j] == 'E'),
    }
}

/// Elementwise equality of two sequences of documents of the same length.
pub open spec fn elems_eq(xs: Seq<Json>, ys: Seq<Json>) -> bool
    decreases xs,
{
    if xs.len() == 0 || ys.len() != xs.len() {
        xs.len() == ys.len()
    } else {
        json_eq(xs.last(), ys.last()) && elems_eq(xs.drop_last(), ys.drop_last())
    }
}

/// Each member of `xs` is found by name in `ys`, with an equal value.
pub open spec fn members_in(xs: Seq<(Seq<char>, Json)>, ys: Seq<(Seq<char>, Json)>) -> bool
    decreases xs,
{
    if xs.len() == 0 {
        true
    } else {
        0 <= find_key(ys, xs.last().0) && json_eq(xs.last().1, ys[find_key(ys, xs.last().0)].1)
            && members_in(xs.drop_last(), ys)
    }
}

pub proof fn lemma_find_key(ms: Seq<(Seq<char>, Json)>, k: Seq<char>)
    ensures
        find_key(ms, k) < 0 <==> forall|j: int| 0 <= j < ms.len() ==> ms[j].0 != k,
        find_key(ms, k) >= 0 ==> find_key(ms, k) < ms.len() && ms[find_key(ms, k)].0 == k
            && forall|j: int| 0 <= j < find_key(ms, k) ==> ms[j].0 != k,
    decreases ms.len(),
{
    if ms.len() > 0 && ms[0].0 != k {
        lemma_find_key(ms.drop_first(), k);
        assert forall|j: int| 0 <= j < ms.len() && ms[j].0 == k implies find_key(ms, k) >= 0 by {
            assert(ms.drop_first()[j - 1] == ms[j]);
        }
        if find_key(ms, k) >= 0 {
            assert forall|j: int| 0 <= j < find_key(ms, k) implies ms[j].0 != k by {
                if j > 0 {
                    assert(ms.drop_first()[j - 1] == ms[j]);
                }
            }
        }
    }
}

pub proof fn lemma_elems_eq(xs: Seq<Json>, ys: Seq<Json>)
    requires
        xs.len() == ys.len(),
    ensures
        elems_eq(xs, ys) <==> forall|i: int| 0 <= i < xs.len() ==> #[trigger] json_eq(xs[i], ys[i]),
    decreases xs.len(),
{
    if xs.len() > 0 {
        lemma_elems_eq(xs.drop_last(), ys.drop_last());
        if elems_eq(xs, ys) {
            assert forall|i: int| 0 <= i < xs.len() implies #[trigger] json_eq(xs[i], ys[i]) by {
                if i < xs.len() - 1 {
                    assert(xs.drop_last()[i] == xs[i]);
                    assert(ys.drop_last()[i] == ys[i]);
                }
            }
        }
        if forall|i: int| 0 <= i < xs.len() ==> #[trigger] json_eq(xs[i], ys[i]) {
            assert forall|i: int| 0 <= i < xs.len() - 1 implies #[trigger] json_eq(
                xs.drop_last()[i],
                ys.drop_last()[i],
            ) by {
                assert(json_eq(xs[i], ys[i]));
            }
            assert(json_eq(xs[xs.len() - 1], ys[ys.len() - 1]));
        }
    }
}

pub proof fn lemma_members_in(xs: Seq<(Seq<char>, Json)>, ys: Seq<(Seq<char>, Json)>)
    ensures
        members_in(xs, ys) <==> forall|i: int|
            0 <= i < xs.len() ==> 0 <= find_key(ys, #[trigger] xs[i].0) && json_eq(
                xs[i].1,
                ys[find_key(ys, xs[i].0)].1,
            ),
    decreases xs.len(),
{
    if xs.len() > 0 {
        lemma_members_in(xs.drop_last(), ys);
        if members_in(xs, ys) {
            assert forall|i: int| 0 <= i < xs.len() implies 0 <= find_key(ys, #[trigger] xs[i].0)
                && json_eq(xs[i].1, ys[find_key(ys, xs[i].0)].1) by {
                if i < xs.len() - 1 {
                    assert(xs.drop_last()[i] == xs[i]);
                }
            }
        }
        if forall|i: int|
            0 <= i < xs.len() ==> 0 <= find_key(ys, #[trigger] xs[i].0) && json_eq(
                xs[i].1,
                ys[find_key(ys, xs[i].0)].1,
            ) {
            assert forall|i: int| 0 <= i < xs.len() - 1 implies 0 <= find_key(
                ys,
                #[trigger] xs.drop_last()[i].0,
            ) && json_eq(xs.drop_last()[i].1, ys[find_key(ys, xs.drop_last()[i].0)].1) by {
                assert(xs.drop_last()[i] == xs[i]);
            }
            let k = xs.len() - 1;
            assert(0 <= find_key(ys, xs[k].0));
        }
    }
}

/// The members of an object have distinct names.
pub open spec fn keys_unique(ms: Seq<(Seq<char>, Json)>) -> bool {
    forall|i: int, j: int| 0 <= i < j < ms.len() ==> ms[i].0 != ms[j].0
}

/// A well-formed document: in each of its objects, member names are distinct,
/// and each of its numbers is in canonical form.
pub open spec fn wf(a: Json) -> bool
    decreases a,
{
    match a {
        Json::Arr(xs) => wf_elems(xs),
        Json::Obj(ms) => keys_unique(ms) && wf_members(ms),
        Json::Num(n) => num_valid(n),
        _ => true,
    }
}

pub open spec fn wf_elems(xs: Seq<Json>) -> bool
    decreases xs,
{
    xs.len() == 0 || (wf(xs.last()) && wf_elems(xs.drop_last()))
}

pub open spec fn wf_members(ms: Seq<(Seq<char>, Json)>) -> bool
    decreases ms,
{
    ms.len() == 0 || (wf(ms.last().1) && wf_members(ms.drop_last()))
}

pub proof fn lemma_wf_elems(xs: Seq<Json>)
    ensures
        wf_elems(xs) <==> forall|i: int| 0 <= i < xs.len() ==> #[trigger] wf(xs[i]),
    decreases xs.len(),
{
    if xs.len() > 0 {
        lemma_wf_elems(xs.drop_last());
        if wf_elems(xs) {
            assert forall|i: int| 0 <= i < xs.len() implies #[trigger] wf(xs[i]) by {
                if i < xs.len() - 1 {
                    assert(xs.drop_last()[i] == xs[i]);
                }
            }
        }
        if forall|i: int| 0 <= i < xs.len() ==> #[trigger] wf(xs[i]) {
            assert forall|i: int| 0 <= i < xs.len() - 1 implies #[trigger] wf(xs.drop_last()[i]) by {
                assert(wf(xs[i]));
            }
            assert(wf(xs[xs.len() - 1]));
        }
    }
}

pub proof fn lemma_wf_members(ms: Seq<(Seq<char>, Json)>)
    ensures
        wf_members(ms) <==> forall|i: int| 0 <= i < ms.len() ==> #[trigger] wf(ms[i].1),
    decreases ms.len(),
{
    if ms.len() > 0 {
        lemma_wf_members(ms.drop_last());
        if wf_members(ms) {
            assert forall|i: int| 0 <= i < ms.len() implies #[trigger] wf(ms[i].1) by {
                if i < ms.len() - 1 {
                    assert(ms.drop_last()[i] == ms[i]);
                }
            }
        }
        if forall|i: int| 0 <= i < ms.len() ==> #[trigger] wf(ms[i].1) {
            assert forall|i: int| 0 <= i < ms.len() - 1 implies #[trigger] wf(ms.drop_last()[i].1) by {
                assert(wf(ms[i].1));
            }
            assert(wf(ms[ms.len() - 1].1));
        }
    }
}

/// Every well-formed document equals itself.
pub proof fn lemma_json_eq_refl(a: Json)
    requires
        wf(a),
    ensures
        json_eq(a, a),
    decreases a,
{
    match a {
        Json::Arr(xs) => {
            lemma_wf_elems(xs);
            assert forall|i: int| 0 <= i < xs.len() implies #[trigger] json_eq(xs[i], xs[i]) by {
                lemma_json_eq_refl(xs[i]);
            }
            lemma_elems_eq(xs, xs);
        },
        Json::Obj(xs) => {
            lemma_wf_members(xs);
            assert forall|i: int| 0 <= i < xs.len() implies 0 <= find_key(xs, #[trigger] xs[i].0)
                && json_eq(xs[i].1, xs[find_key(xs, xs[i].0)].1) by {
                lemma_find_key(xs, xs[i].0);
                lemma_json_eq_refl(xs[i].1);
            }
            lemma_members_in(xs, xs);
        },
        _ => {},
    }
}

pub proof fn lemma_model_seq(xs: Seq<Value>)
    ensures
        model_seq(xs).len() == xs.len(),
        forall|i: int| 0 <= i < xs.len() ==> #[trigger] model_seq(xs)[i] == model(xs[i]),
    decreases xs.len(),
{
    if xs.len() > 0 {
        lemma_model_seq(xs.drop_last());
        assert forall|i: int| 0 <= i < xs.len() implies #[trigger] model_seq(xs)[i] == model(
            xs[i],
        ) by {
            if i < xs.len() - 1 {
                assert(xs.drop_last()[i] == xs[i]);
            }
        }
    }
}

pub proof fn lemma_model_members(ms: Seq<(String, Value)>)
    ensures
        model_members(ms).len() == ms.len(),
        forall|i: int|
            0 <= i < ms.len() ==> #[trigger] model_members(ms)[i] == (ms[i].0@, model(ms[i].1)),
    decreases ms.len(),
{
    if ms.len() > 0 {
        lemma_model_members(ms.drop_last());
        assert forall|i: int| 0 <= i < ms.len() implies #[trigger] model_members(ms)[i] == (
            ms[i].0@,
            model(ms[i].1),
        ) by {
            if i < ms.len() - 1 {
                assert(ms.drop_last()[i] == ms[i]);
            }
        }
    }
}

impl Clone for Number {
    fn clone(&self) -> (r: Self)
        ensures
            r@ == self@,
    {
        match self {
            Number::PosInt(x) => Number::PosInt(*x),
            Number::NegInt(x) => Number::NegInt(*x),
            Number::Float(t) => Number::Float(t.clone()),
        }
    }
}

impl Clone for Value {
    fn clone(&self) -> (r: Self)
        ensures
            r@ == self@,
        decreases self,
    {
        match self {
            Value::Null => Value::Null,
            Value::Bool(b) => Value::Bool(*b),
            Value::Number(n) => Value::Number(n.clone()),
            Value::String(s) => Value::String(s.clone()),
            Value::Array(xs) => {
                let mut out: Vec<Value> = Vec::new();
                let mut i: usize = 0;
                while i < xs.len()
                    invariant
                        i <= xs.len(),
                        out@.len() == i,
                        *self == Value::Array(*xs),
                        forall|j: int| 0 <= j < i ==> #[trigger] model(out@[j]) == model(xs@[j]),
                    decreases xs.len() - i,
                {
                    proof {
                        assert(decreases_to!(*self => self->Array_0));
                        assert(decreases_to!(self->Array_0 => self->Array_0[i as int]));
                    }
                    out.push(xs[i].clone());
                    i += 1;
                }
                let r = Value::Array(out);
                proof {
                    lemma_model_seq(out@);
                    lemma_model_seq(xs@);
                    assert(model_seq(out@) =~= model_seq(xs@));
                }
                r
            },
            Value::Object(ms) => {
                let mut out: Vec<(String, Value)> = Vec::new();
                let mut i: usize = 0;
                while i < ms.len()
                    invariant
                        i <= ms.len(),
                        out@.len() == i,
                        *self == Value::Object(*ms),
                        forall|j: int|
                            0 <= j < i ==> #[trigger] out@[j].0@ == ms@[j].0@ && model(out@[j].1)
                                == model(ms@[j].1),
                    decreases ms.len() - i,
                {
                    proof {
                        assert(decreases_to!(*self => self->Object_0));
                        assert(decreases_to!(self->Object_0 => self->Object_0[i as int]));
                        assert(decreases_to!(ms[i as int] => ms[i as int].1));
                    }
                    let k = ms[i].0.clone();
                    let v = ms[i].1.clone();
                    out.push((k, v));
                    i += 1;
                }
                let r = Value::Object(out);
                proof {
                    lemma_model_members(out@);
                    lemma_model_members(ms@);
                    assert(model_members(out@) =~= model_members(ms@));
                }
                r
            },
        }
    }
}

/// Position of the first member named `k`.
pub fn find_member(ms: &Vec<(String, Value)>, k: &String) -> (r: Option<usize>)
    ensures
        match r {
            Some(i) => find_key(model_members(ms@), k@) == i as int,
            None => find_key(model_members(ms@), k@) < 0,
        },
{
    proof {
        lemma_model_members(ms@);
        lemma_find_key(model_members(ms@), k@);
    }
    let mut i: usize = 0;
    while i < ms.len()
        invariant
            i <= ms.len(),
            model_members(ms@).len() == ms@.len(),
            forall|j: int| 0 <= j < ms@.len() ==> #[trigger] model_members(ms@)[j] == (ms@[j].0@, model(ms@[j].1)),
            forall|j: int| 0 <= j < i ==> ms@[j].0@ != k@,
            find_key(model_members(ms@), k@) < 0 <==> forall|j: int| 0 <= j < ms@.len() ==> model_members(ms@)[j].0 != k@,
            find_key(model_members(ms@), k@) >= 0 ==> find_key(model_members(ms@), k@) < ms@.len()
                && model_members(ms@)[find_key(model_members(ms@), k@)].0 == k@
                && forall|j: int| 0 <= j < find_key(model_members(ms@), k@) ==> model_members(ms@)[j].0 != k@,
        decreases ms.len() - i,
    {
        if ms[i].0 == *k {
            assert(model_members(ms@)[i as int].0 == k@);
            return Some(i);
        }
        i += 1;
    }
    None
}

/// Whether a text is that of a floating zero.
fn is_zero_text(t: &String) -> (r: bool)
    ensures
        r == zero_text(t@),
{
    let c = crate::text::chars_of(t.as_str());
    let r = (c.len() == 3 && c[0] == '0' && c[1] == '.' && c[2] == '0') || (c.len() == 4 && c[0]
        == '-' && c[1] == '0' && c[2] == '.' && c[3] == '0');
    proof {
        if c@.len() == 3 {
            assert(r ==> c@ =~= seq!['0', '.', '0']);
        }
        if c@.len() == 4 {
            assert(r ==> c@ =~= seq!['-', '0', '.', '0']);
        }
    }
    r
}

impl Number {
    /// Whether two numbers are the same number.
    pub fn same(&self, other: &Number) -> (r: bool)
        ensures
            r == num_same(self@, other@),
    {
        match (self, other) {
            (Number::PosInt(a), Number::PosInt(b)) => *a == *b,
            (Number::NegInt(a), Number::NegInt(b)) => *a == *b,
            (Number::Float(a), Number::Float(b)) => *a == *b || (is_zero_text(a) && is_zero_text(b)),
            _ => false,
        }
    }
}

/// Whether two documents are equal in the sense of `json_eq`.
pub fn values_equal(a: &Value, b: &Value) -> (r: bool)
    ensures
        r == json_eq(a@, b@),
    decreases a,
{
    match (a, b) {
        (Value::Null, Value::Null) => true,
        (Value::Bool(x), Value::Bool(y)) => *x == *y,
        (Value::Number(x), Value::Number(y)) => x.same(y),
        (Value::String(x), Value::String(y)) => *x == *y,
        (Value::Array(xs), Value::Array(ys)) => {
            proof {
                lemma_model_seq(xs@);
                lemma_model_seq(ys@);
            }
            if xs.len() != ys.len() {
                return false;
            }
            let mut i: usize = 0;
            while i < xs.len()
                invariant
                    i <= xs.len(),
                    xs.len() == ys.len(),
                    *a == Value::Array(*xs),
                    *b == Value::Array(*ys),
                    model_seq(xs@).len() == xs@.len(),
                    model_seq(ys@).len() == ys@.len(),
                    forall|j: int| 0 <= j < xs@.len() ==> #[trigger] model_seq(xs@)[j] == model(xs@[j]),
                    forall|j: int| 0 <= j < ys@.len() ==> #[trigger] model_seq(ys@)[j] == model(ys@[j]),
                    forall|j: int| 0 <= j < i ==> #[trigger] json_eq(model(xs@[j]), model(ys@[j])),
                decreases xs.len() - i,
            {
                proof {
                    assert(decreases_to!(*a => a->Array_0));
                    assert(decreases_to!(a->Array_0 => a->Array_0[i as int]));
                }
                if !values_equal(&xs[i], &ys[i]) {
                    proof {
                        lemma_elems_eq(model_seq(xs@), model_seq(ys@));
                        assert(!json_eq(model_seq(xs@)[i as int], model_seq(ys@)[i as int]));
                        assert(a@ == Json::Arr(model_seq(xs@)));
                        assert(b@ == Json::Arr(model_seq(ys@)));
                    }
                    return false;
                }
                i += 1;
            }
            proof {
                lemma_elems_eq(model_seq(xs@), model_seq(ys@));
                assert forall|j: int| 0 <= j < xs@.len() implies #[trigger] json_eq(
                    model_seq(xs@)[j],
                    model_seq(ys@)[j],
                ) by {
                    assert(json_eq(model(xs@[j]), model(ys@[j])));
                }
            }
            true
        },
        (Value::Object(xs), Value::Object(ys)) => {
            proof {
                lemma_model_members(xs@);
                lemma_model_members(ys@);
                lemma_members_in(model_members(xs@), model_members(ys@));
            }
            if xs.len() != ys.len() {
                return false;
            }
            let ghost mx = model_members(xs@);
            let ghost my = model_members(ys@);
            let mut i: usize = 0;
            while i < xs.len()
                invariant
                    i <= xs.len(),
                    xs.len() == ys.len(),
                    *a == Value::Object(*xs),
                    *b == Value::Object(*ys),
                    mx == model_members(xs@),
                    my == model_members(ys@),
                    mx.len() == xs@.len(),
                    my.len() == ys@.len(),
                    forall|j: int| 0 <= j < xs@.len() ==> #[trigger] mx[j] == (xs@[j].0@, model(xs@[j].1)),
                    forall|j: int| 0 <= j < ys@.len() ==> #[trigger] my[j] == (ys@[j].0@, model(ys@[j].1)),
                    members_in(mx, my) <==> forall|j: int|
                        0 <= j < mx.len() ==> 0 <= find_key(my, #[trigger] mx[j].0) && json_eq(
                            mx[j].1,
                            my[find_key(my, mx[j].0)].1,
                        ),
                    forall|j: int|
                        0 <= j < i ==> 0 <= find_key(my, #[trigger] mx[j].0) && json_eq(
                            mx[j].1,
                            my[find_key(my, mx[j].0)].1,
                        ),
                decreases xs.len() - i,
            {
                proof {
                    assert(decreases_to!(*a => a->Object_0));
                    assert(decreases_to!(a->Object_0 => a->Object_0[i as int]));
                    assert(decreases_to!(xs[i as int] => xs[i as int].1));
                }
                proof {
                    lemma_find_key(my, xs@[i as int].0@);
                    assert(mx[i as int].0 == xs@[i as int].0@);
                }
                match find_member(ys, &xs[i].0) {
                    None => {
                        assert(!(0 <= find_key(my, mx[i as int].0)));
                        assert(a@ == Json::Obj(mx));
                        assert(b@ == Json::Obj(my));
                        return false;
                    },
                    Some(j) => {
                        if !values_equal(&xs[i].1, &ys[j].1) {
                            assert(!json_eq(mx[i as int].1, my[find_key(my, mx[i as int].0)].1));
                            assert(a@ == Json::Obj(mx));
                            assert(b@ == Json::Obj(my));
                            return false;
                        }
                    },
                }
                i += 1;
            }
            true
        },
        _ => false,
    }
}

} // verus!

verus! {

pub open spec fn digit_char(d: nat) -> char {
    seq!['0', '1', '2', '3', '4', '5', '6', '7', '8', '9'][d as int]
}

/// The decimal digits of `n`.
pub open spec fn dec(n: nat) -> Seq<char>
    decreases n,
{
    if n < 10 {
        seq![digit_char(n)]
    } else {
        dec(n / 10).push(digit_char(n % 10))
    }
}

/// The text of a number as JSON writes it.
pub open spec fn num_text(n: Num) -> Seq<char> {
    match n {
        Num::Pos(u) => dec(u as nat),
        Num::Neg(i) => if i < 0 {
            seq!['-'] + dec((-i) as nat)
        } else {
            dec(i as nat)
        },
        Num::Text(t) => t,
    }
}

/// The decimal digits of `n`.
pub fn dec_chars(n: u64) -> (r: Vec<char>)
    ensures
        r@ == dec(n as nat),
{
    let digits = vec!['0', '1', '2', '3', '4', '5', '6', '7', '8', '9'];
    assert(digits@ == seq!['0', '1', '2', '3', '4', '5', '6', '7', '8', '9']);
    let mut acc: Vec<char> = Vec::new();
    let mut q = n;
    while q >= 10
        invariant
            digits@ == seq!['0', '1', '2', '3', '4', '5', '6', '7', '8', '9'],
            dec(n as nat) == dec(q as nat) + acc@,
        decreases q,
    {
        let ghost before = acc@;
        let d = (q % 10) as usize;
        acc.insert(0, digits[d]);
        assert(dec(q as nat) == dec((q / 10) as nat).push(digit_char((q % 10) as nat)));
        assert(dec((q / 10) as nat).push(digit_char((q % 10) as nat)) + before =~= dec(
            (q / 10) as nat,
        ) + acc@);
        q = q / 10;
    }
    let ghost before = acc@;
    acc.insert(0, digits[q as usize]);
    assert(acc@ =~= dec(q as nat) + before);
    acc
}

impl Number {
    /// The text of the number, as `num_text` gives it.
    pub fn to_text(&self) -> (r: Vec<char>)
        ensures
            r@ == num_text(self@),
    {
        match self {
            Number::PosInt(u) => {
                return dec_chars(*u);
            },
            Number::NegInt(i) => {
                return neg_chars(*i);
            },
            Number::Float(t) => {
                return crate::text::chars_of(t.as_str());
            },
        }
    }
}

/// `-` followed by the digits of `-i`.
fn neg_chars(i: i64) -> (r: Vec<char>)
    ensures
        i < 0 ==> r@ == seq!['-'] + dec((-i) as nat),
        i >= 0 ==> r@ == dec(i as nat),
{
    if i >= 0 {
        return dec_chars(i as u64);
    }
    let m: u64 = if i == i64::MIN {
        9223372036854775808u64
    } else {
        (-i) as u64
    };
    let mut out = vec!['-'];
    let d = dec_chars(m);
    let mut k: usize = 0;
    while k < d.len()
        invariant
            k <= d.len(),
            out@ == seq!['-'] + d@.subrange(0, k as int),
        decreases d.len() - k,
    {
        out.push(d[k]);
        k += 1;
        assert(out@ =~= seq!['-'] + d@.subrange(0, k as int));
    }
    assert(d@.subrange(0, k as int) =~= d@);
    out
}

} // verus!

verus! {

impl PartialEq for Value {
    fn eq(&self, other: &Value) -> (r: bool) {
        values_equal(self, other)
    }
}

impl vstd::std_specs::cmp::PartialEqSpecImpl for Value {
    open spec fn obeys_eq_spec() -> bool {
        true
    }

    open spec fn eq_spec(&self, other: &Value) -> bool {
        json_eq(self@, other@)
    }
}

} // verus!

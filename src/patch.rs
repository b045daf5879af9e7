use vstd::prelude::*;
use crate::operation::{Op, PatchOp, ops_view};
use crate::path::{Seg, Segment, Spath, proper_prefix};
use crate::resolve::{
    RErr, ResolveError, child, find_element, first_match, index_of, lemma_model_members_update,
    lemma_model_seq_update, lemma_step_index_bounds, locate, parse_index, resolve, resolve_ref,
    set_child, step_index,
    type_desc, update, value_type_desc,
};
use crate::value::{
    Json, Value, find_key, find_member, json_eq, keys_unique, lemma_find_key, lemma_model_members,
    lemma_model_seq, lemma_wf_elems, lemma_wf_members, model, model_members, model_seq,
    values_equal, wf,
};

verus! {

/// Why an operation cannot be applied.
#[derive(Debug, PartialEq, Eq)]
pub enum PatchError {
    ResolveError(ResolveError),
    MissingParent { path: Spath },
    MissingFinalToken { path: Spath },
    NotAContainer { parent: Spath, actual: String },
    InvalidArrayIndexToken { path: Spath, token: String },
    ArrayIndexOutOfBounds { path: Spath, index: usize, len: usize },
    TargetNotFound { path: Spath },
    CannotRemoveRoot,
    CannotMoveIntoChild,
    ValuesNotEqual,
    MultipleErrors(Vec<PatchError>),
}

/// The mathematical form of a patch error.
pub enum PErr {
    Resolve(RErr),
    MissingParent(Seq<Seg>),
    MissingFinalToken(Seq<Seg>),
    NotAContainer(Seq<Seg>, Seq<char>),
    InvalidArrayIndexToken(Seq<Seg>, Seq<char>),
    ArrayIndexOutOfBounds(Seq<Seg>, usize, usize),
    TargetNotFound(Seq<Seg>),
    CannotRemoveRoot,
    CannotMoveIntoChild,
    ValuesNotEqual,
    Multiple(Seq<PErr>),
}

pub open spec fn perr(e: PatchError) -> PErr
    decreases e,
{
    match e {
        PatchError::ResolveError(r) => PErr::Resolve(r@),
        PatchError::MissingParent { path } => PErr::MissingParent(path@),
        PatchError::MissingFinalToken { path } => PErr::MissingFinalToken(path@),
        PatchError::NotAContainer { parent, actual } => PErr::NotAContainer(parent@, actual@),
        PatchError::InvalidArrayIndexToken { path, token } => PErr::InvalidArrayIndexToken(
            path@,
            token@,
        ),
        PatchError::ArrayIndexOutOfBounds { path, index, len } => PErr::ArrayIndexOutOfBounds(
            path@,
            index,
            len,
        ),
        PatchError::TargetNotFound { path } => PErr::TargetNotFound(path@),
        PatchError::CannotRemoveRoot => PErr::CannotRemoveRoot,
        PatchError::CannotMoveIntoChild => PErr::CannotMoveIntoChild,
        PatchError::ValuesNotEqual => PErr::ValuesNotEqual,
        PatchError::MultipleErrors(es) => PErr::Multiple(perr_seq(es@)),
    }
}

pub open spec fn perr_seq(es: Seq<PatchError>) -> Seq<PErr>
    decreases es,
{
    if es.len() == 0 {
        Seq::empty()
    } else {
        perr_seq(es.drop_last()).push(perr(es.last()))
    }
}

impl View for PatchError {
    type V = PErr;

    open spec fn view(&self) -> PErr {
        perr(*self)
    }
}

impl PatchError {
    pub fn missing_parent(path: &Spath) -> (r: Self)
        ensures
            r@ == PErr::MissingParent(path@),
    {
        PatchError::MissingParent { path: path.duplicate() }
    }

    pub fn missing_final_token(path: &Spath) -> (r: Self)
        ensures
            r@ == PErr::MissingFinalToken(path@),
    {
        PatchError::MissingFinalToken { path: path.duplicate() }
    }

    pub fn invalid_array_index_token(path: &Spath, token: &str) -> (r: Self)
        ensures
            r@ == PErr::InvalidArrayIndexToken(path@, token@),
    {
        PatchError::InvalidArrayIndexToken { path: path.duplicate(), token: token.to_owned() }
    }

    pub fn index_out_of_bounds(path: &Spath, index: usize, len: usize) -> (r: Self)
        ensures
            r@ == PErr::ArrayIndexOutOfBounds(path@, index, len),
    {
        PatchError::ArrayIndexOutOfBounds { path: path.duplicate(), index, len }
    }

    pub fn not_a_container(path: &Spath, actual: &str) -> (r: Self)
        ensures
            r@ == PErr::NotAContainer(path@, actual@),
    {
        PatchError::NotAContainer { parent: path.duplicate(), actual: actual.to_owned() }
    }

    pub fn target_not_found(path: &Spath) -> (r: Self)
        ensures
            r@ == PErr::TargetNotFound(path@),
    {
        PatchError::TargetNotFound { path: path.duplicate() }
    }
}

// ---------------------------------------------------------------------------
// What each operation does

/// An object's members with `k` set to `v`: in place where `k` is a member,
/// else appended.
pub open spec fn obj_insert(ms: Seq<(Seq<char>, Json)>, k: Seq<char>, v: Json) -> Seq<(Seq<char>, Json)> {
    if find_key(ms, k) >= 0 {
        ms.update(find_key(ms, k), (k, v))
    } else {
        ms.push((k, v))
    }
}

/// What adding `v` at `path` makes of the container `t` that the path's
/// parent leads to.
pub open spec fn add_into(t: Json, path: Seq<Seg>, v: Json) -> Result<Json, PErr> {
    match path.last() {
        Seg::Filter(_) => Err(PErr::MissingFinalToken(path)),
        Seg::Field(f) => match t {
            Json::Obj(ms) => Ok(Json::Obj(obj_insert(ms, f, v))),
            Json::Arr(xs) => if f == seq!['-'] {
                Ok(Json::Arr(xs.push(v)))
            } else {
                match parse_index(f) {
                    None => Err(PErr::InvalidArrayIndexToken(path, f)),
                    Some(i) => if i > xs.len() {
                        Err(PErr::ArrayIndexOutOfBounds(path, i as usize, xs.len() as usize))
                    } else {
                        Ok(Json::Arr(xs.insert(i as int, v)))
                    },
                }
            },
            _ => Err(PErr::NotAContainer(path.drop_last(), type_desc(t))),
        },
    }
}

/// What removing the element at `path` makes of the container `t` that the
/// path's parent leads to.
pub open spec fn remove_from(t: Json, path: Seq<Seg>) -> Result<Json, PErr> {
    match t {
        Json::Obj(ms) => match path.last() {
            Seg::Filter(_) => Err(PErr::MissingFinalToken(path)),
            Seg::Field(f) => if find_key(ms, f) >= 0 {
                Ok(Json::Obj(ms.remove(find_key(ms, f))))
            } else {
                Err(PErr::TargetNotFound(path))
            },
        },
        Json::Arr(xs) => {
            let idx: Result<int, PErr> = match path.last() {
                Seg::Field(f) => match parse_index(f) {
                    Some(i) => Ok(i as int),
                    None => Err(PErr::InvalidArrayIndexToken(path, f)),
                },
                Seg::Filter(cs) => if first_match(xs, cs) >= 0 {
                    Ok(first_match(xs, cs))
                } else {
                    Err(PErr::Resolve(RErr::NotFound))
                },
            };
            match idx {
                Ok(i) => if i >= xs.len() {
                    Err(PErr::ArrayIndexOutOfBounds(path, i as usize, xs.len() as usize))
                } else {
                    Ok(Json::Arr(xs.remove(i)))
                },
                Err(e) => Err(e),
            }
        },
        _ => Err(PErr::NotAContainer(path.drop_last(), type_desc(t))),
    }
}

/// The document after adding `v` at `path`, or why that fails.
pub open spec fn add_spec(doc: Json, path: Seq<Seg>, v: Json) -> Result<Json, PErr> {
    if path.len() == 0 {
        Ok(v)
    } else {
        match resolve(doc, path.drop_last()) {
            Err(e) => Err(PErr::Resolve(e)),
            Ok(t) => match add_into(t, path, v) {
                Ok(n) => Ok(update(doc, path.drop_last(), n)),
                Err(e) => Err(e),
            },
        }
    }
}

/// The document after removing the value at `path`, or why that fails.
pub open spec fn remove_spec(doc: Json, path: Seq<Seg>) -> Result<Json, PErr> {
    if path.len() == 0 {
        Err(PErr::CannotRemoveRoot)
    } else {
        match resolve(doc, path.drop_last()) {
            Err(e) => Err(PErr::Resolve(e)),
            Ok(t) => match remove_from(t, path) {
                Ok(n) => Ok(update(doc, path.drop_last(), n)),
                Err(e) => Err(e),
            },
        }
    }
}

/// The document after replacing the value at `path` by `v`, or why that fails.
pub open spec fn replace_spec(doc: Json, path: Seq<Seg>, v: Json) -> Result<Json, PErr> {
    if path.len() == 0 {
        Ok(v)
    } else {
        match resolve(doc, path) {
            Err(e) => Err(PErr::Resolve(e)),
            Ok(_) => Ok(update(doc, path, v)),
        }
    }
}

/// The document after checking that the value at `path` equals `v`.
pub open spec fn test_spec(doc: Json, path: Seq<Seg>, v: Json) -> Result<Json, PErr> {
    match resolve(doc, path) {
        Err(e) => Err(PErr::Resolve(e)),
        Ok(t) => if json_eq(t, v) {
            Ok(doc)
        } else {
            Err(PErr::ValuesNotEqual)
        },
    }
}

/// The document after copying the value at `from` to `path`.
pub open spec fn copy_spec(doc: Json, from: Seq<Seg>, path: Seq<Seg>) -> Result<Json, PErr> {
    match resolve(doc, from) {
        Err(e) => Err(PErr::Resolve(e)),
        Ok(t) => add_spec(doc, path, t),
    }
}

/// The document after moving the value at `from` to `path`: unchanged where
/// the two paths are the same, else a removal followed by an addition,
/// refused where `from` holds `path`.
pub open spec fn move_spec(doc: Json, from: Seq<Seg>, path: Seq<Seg>) -> Result<Json, PErr> {
    match resolve(doc, from) {
        Err(e) => Err(PErr::Resolve(e)),
        Ok(t) => if from == path {
            Ok(doc)
        } else if proper_prefix(from, path) {
            Err(PErr::CannotMoveIntoChild)
        } else {
            match remove_spec(doc, from) {
                Err(e) => Err(e),
                Ok(d) => add_spec(d, path, t),
            }
        },
    }
}

/// The document after one operation, or why it fails.
pub open spec fn op_spec(doc: Json, op: Op) -> Result<Json, PErr> {
    match op {
        Op::Add(p, v) => add_spec(doc, p, v),
        Op::Remove(p) => remove_spec(doc, p),
        Op::Replace(p, v) => replace_spec(doc, p, v),
        Op::Move(f, p) => move_spec(doc, f, p),
        Op::Copy(f, p) => copy_spec(doc, f, p),
        Op::Test(p, v) => test_spec(doc, p, v),
    }
}

/// The working document and the errors met after running `ops` in order;
/// an operation that fails leaves the document as it was.
pub open spec fn run_ops(doc: Json, ops: Seq<Op>) -> (Json, Seq<PErr>)
    decreases ops.len(),
{
    if ops.len() == 0 {
        (doc, Seq::empty())
    } else {
        let (d, es) = run_ops(doc, ops.drop_last());
        match op_spec(d, ops.last()) {
            Ok(n) => (n, es),
            Err(e) => (d, es.push(e)),
        }
    }
}

/// The result of applying a patch: the final document where every operation
/// succeeded, else every error met, in order.
pub open spec fn apply_spec(doc: Json, ops: Seq<Op>) -> Result<Json, PErr> {
    let (d, es) = run_ops(doc, ops);
    if es.len() == 0 {
        Ok(d)
    } else {
        Err(PErr::Multiple(es))
    }
}

// ---------------------------------------------------------------------------
// Operations keep member names distinct

proof fn lemma_child_wf(v: Json, i: int)
    requires
        wf(v),
        match v {
            Json::Arr(xs) => 0 <= i < xs.len(),
            Json::Obj(ms) => 0 <= i < ms.len(),
            _ => false,
        },
    ensures
        wf(child(v, i)),
{
    match v {
        Json::Arr(xs) => lemma_wf_elems(xs),
        Json::Obj(ms) => lemma_wf_members(ms),
        _ => {},
    }
}

proof fn lemma_set_child_wf(v: Json, i: int, c: Json)
    requires
        wf(v),
        wf(c),
        match v {
            Json::Arr(xs) => 0 <= i < xs.len(),
            Json::Obj(ms) => 0 <= i < ms.len(),
            _ => false,
        },
    ensures
        wf(set_child(v, i, c)),
{
    match v {
        Json::Arr(xs) => {
            lemma_wf_elems(xs);
            lemma_wf_elems(xs.update(i, c));
        },
        Json::Obj(ms) => {
            lemma_wf_members(ms);
            let ms2 = ms.update(i, (ms[i].0, c));
            lemma_wf_members(ms2);
            assert(keys_unique(ms2));
        },
        _ => {},
    }
}

/// Putting a well-formed value somewhere in a well-formed document keeps it
/// well-formed.
pub proof fn lemma_update_wf(d: Json, p: Seq<Seg>, n: Json)
    requires
        wf(d),
        wf(n),
    ensures
        wf(update(d, p, n)),
    decreases p.len(),
{
    if p.len() > 0 {
        if let Ok(i) = step_index(d, p[0]) {
            crate::resolve::lemma_step_index_bounds(d, p[0]);
            lemma_child_wf(d, i);
            lemma_update_wf(child(d, i), p.drop_first(), n);
            lemma_set_child_wf(d, i, update(child(d, i), p.drop_first(), n));
        }
    }
}

pub proof fn lemma_resolve_wf(d: Json, p: Seq<Seg>)
    requires
        wf(d),
        resolve(d, p) is Ok,
    ensures
        wf(resolve(d, p)->Ok_0),
    decreases p.len(),
{
    if p.len() > 0 {
        let i = step_index(d, p[0])->Ok_0;
        crate::resolve::lemma_step_index_bounds(d, p[0]);
        lemma_child_wf(d, i);
        lemma_resolve_wf(child(d, i), p.drop_first());
    }
}

proof fn lemma_add_into_wf(t: Json, path: Seq<Seg>, v: Json)
    requires
        wf(t),
        wf(v),
        path.len() > 0,
        add_into(t, path, v) is Ok,
    ensures
        wf(add_into(t, path, v)->Ok_0),
{
    match t {
        Json::Obj(ms) => {
            let f = path.last()->Field_0;
            lemma_wf_members(ms);
            lemma_find_key(ms, f);
            let ms2 = obj_insert(ms, f, v);
            lemma_wf_members(ms2);
            if find_key(ms, f) < 0 {
                assert forall|a: int, b: int| 0 <= a < b < ms2.len() implies ms2[a].0 != ms2[b].0 by {
                    if b == ms.len() {
                        assert(ms[a].0 != f);
                    }
                }
            }
            assert(keys_unique(ms2));
        },
        Json::Arr(xs) => {
            lemma_wf_elems(xs);
            let ys = add_into(t, path, v)->Ok_0->Arr_0;
            lemma_wf_elems(ys);
            assert forall|k: int| 0 <= k < ys.len() implies #[trigger] wf(ys[k]) by {
                if path.last()->Field_0 != seq!['-'] {
                    let i = parse_index(path.last()->Field_0)->0 as int;
                    if k < i {
                        assert(ys[k] == xs[k]);
                    } else if k > i {
                        assert(ys[k] == xs[k - 1]);
                    }
                } else if k < xs.len() {
                    assert(ys[k] == xs[k]);
                }
            }
        },
        _ => {},
    }
}

proof fn lemma_remove_from_wf(t: Json, path: Seq<Seg>)
    requires
        wf(t),
        path.len() > 0,
        remove_from(t, path) is Ok,
    ensures
        wf(remove_from(t, path)->Ok_0),
{
    match t {
        Json::Obj(ms) => {
            let j = find_key(ms, path.last()->Field_0);
            lemma_find_key(ms, path.last()->Field_0);
            assert(0 <= j < ms.len());
            lemma_wf_members(ms);
            let ms2 = ms.remove(j);
            lemma_wf_members(ms2);
            assert forall|a: int, b: int| 0 <= a < b < ms2.len() implies ms2[a].0 != ms2[b].0 by {
                let a1 = if a < j { a } else { a + 1 };
                let b1 = if b < j { b } else { b + 1 };
                assert(ms2[a] == ms[a1]);
                assert(ms2[b] == ms[b1]);
            }
            assert forall|k: int| 0 <= k < ms2.len() implies #[trigger] wf(ms2[k].1) by {
                if k >= j {
                    assert(ms2[k] == ms[k + 1]);
                }
            }
            assert(keys_unique(ms2));
        },
        Json::Arr(xs) => {
            lemma_wf_elems(xs);
            let ys = remove_from(t, path)->Ok_0->Arr_0;
            lemma_wf_elems(ys);
            let i = xs.len() - ys.len();
            assert forall|k: int| 0 <= k < ys.len() implies #[trigger] wf(ys[k]) by {
                let idx = match path.last() {
                    Seg::Field(f) => parse_index(f)->0 as int,
                    Seg::Filter(cs) => first_match(xs, cs),
                };
                if k >= idx {
                    assert(ys[k] == xs[k + 1]);
                } else {
                    assert(ys[k] == xs[k]);
                }
            }
        },
        _ => {},
    }
}

/// Each operation on a well-formed document with well-formed values gives a
/// well-formed document.
pub proof fn lemma_op_wf(d: Json, op: Op)
    requires
        wf(d),
        op_values_wf(op),
    ensures
        op_spec(d, op) is Ok ==> wf(op_spec(d, op)->Ok_0),
{
    match op {
        Op::Add(p, v) => lemma_add_wf(d, p, v),
        Op::Remove(p) => lemma_remove_wf(d, p),
        Op::Replace(p, v) => {
            lemma_update_wf(d, p, v);
        },
        Op::Move(f, p) => {
            if op_spec(d, op) is Ok && f != p {
                lemma_resolve_wf(d, f);
                lemma_remove_wf(d, f);
                lemma_add_wf(remove_spec(d, f)->Ok_0, p, resolve(d, f)->Ok_0);
            }
        },
        Op::Copy(f, p) => {
            if op_spec(d, op) is Ok {
                lemma_resolve_wf(d, f);
                lemma_add_wf(d, p, resolve(d, f)->Ok_0);
            }
        },
        Op::Test(_, _) => {},
    }
}

proof fn lemma_add_wf(d: Json, p: Seq<Seg>, v: Json)
    requires
        wf(d),
        wf(v),
    ensures
        add_spec(d, p, v) is Ok ==> wf(add_spec(d, p, v)->Ok_0),
{
    if p.len() > 0 && add_spec(d, p, v) is Ok {
        lemma_resolve_wf(d, p.drop_last());
        let t = resolve(d, p.drop_last())->Ok_0;
        lemma_add_into_wf(t, p, v);
        lemma_update_wf(d, p.drop_last(), add_into(t, p, v)->Ok_0);
    }
}

proof fn lemma_remove_wf(d: Json, p: Seq<Seg>)
    requires
        wf(d),
    ensures
        remove_spec(d, p) is Ok ==> wf(remove_spec(d, p)->Ok_0),
{
    if p.len() > 0 && remove_spec(d, p) is Ok {
        lemma_resolve_wf(d, p.drop_last());
        let t = resolve(d, p.drop_last())->Ok_0;
        lemma_remove_from_wf(t, p);
        lemma_update_wf(d, p.drop_last(), remove_from(t, p)->Ok_0);
    }
}

/// The values an operation carries are well-formed.
pub open spec fn op_values_wf(op: Op) -> bool {
    match op {
        Op::Add(_, v) => wf(v),
        Op::Replace(_, v) => wf(v),
        Op::Test(_, v) => wf(v),
        _ => true,
    }
}

/// Applying a patch whose values are well-formed to a well-formed document
/// gives a well-formed document.
pub proof fn lemma_run_ops_wf(d: Json, ops: Seq<Op>)
    requires
        wf(d),
        forall|i: int| 0 <= i < ops.len() ==> #[trigger] op_values_wf(ops[i]),
    ensures
        wf(run_ops(d, ops).0),
    decreases ops.len(),
{
    if ops.len() > 0 {
        assert forall|i: int| 0 <= i < ops.drop_last().len() implies #[trigger] op_values_wf(ops.drop_last()[i]) by {
            assert(op_values_wf(ops[i]));
        }
        lemma_run_ops_wf(d, ops.drop_last());
        assert(op_values_wf(ops[ops.len() - 1]));
        lemma_op_wf(run_ops(d, ops.drop_last()).0, ops.last());
    }
}

// ---------------------------------------------------------------------------
// Editing a document in place

/// What to do at the end of a path.
enum Edit {
    /// Put a value in place of the one there.
    Put(Value),
    /// Add a value into the container there, as the full path's last segment says.
    Add(Value),
    /// Remove from the container there what the full path's last segment names.
    Remove,
}

spec fn edit_spec(t: Json, e: Edit, path: Seq<Seg>) -> Result<Json, PErr> {
    match e {
        Edit::Put(v) => Ok(v@),
        Edit::Add(v) => add_into(t, path, v@),
        Edit::Remove => remove_from(t, path),
    }
}

/// The path without its last segment.
fn parent_of(path: &Spath) -> (r: Spath)
    requires
        path@.len() > 0,
    ensures
        r@ == path@.drop_last(),
{
    match path.parent() {
        Some(p) => p,
        None => {
            proof {
                assert(false);
            }
            Spath::root()
        },
    }
}

/// Sets member `k` of an object to `v`.
fn object_insert(ms: &mut Vec<(String, Value)>, k: String, v: Value)
    ensures
        model_members(final(ms)@) == obj_insert(model_members(old(ms)@), k@, v@),
{
    proof {
        lemma_model_members(ms@);
        lemma_find_key(model_members(ms@), k@);
    }
    let ghost v0 = v@;
    let ghost k0 = k@;
    match find_member(ms, &k) {
        Some(j) => {
            proof {
                lemma_model_members_update(ms@, j as int);
            }
            let ghost before = ms@;
            let key = ms[j].0.clone();
            ms.set(j, (key, v));
            proof {
                assert(ms@ == before.update(j as int, (before[j as int].0, ms@[j as int].1)));
                assert(model_members(ms@) =~= obj_insert(model_members(old(ms)@), k0, v0)) by {
                    lemma_model_members(ms@);
                    lemma_model_members(before);
                }
            }
        },
        None => {
            let ghost before = ms@;
            ms.push((k, v));
            proof {
                lemma_model_members(ms@);
                lemma_model_members(before);
                assert(model_members(ms@) =~= obj_insert(model_members(before), k0, v0));
            }
        },
    }
}

/// Applies an edit to the value at the end of a path.
fn apply_edit(t: &mut Value, e: Edit, path: &Spath) -> (r: Result<(), PatchError>)
    requires
        (e is Put) || path@.len() > 0,
    ensures
        match edit_spec(old(t)@, e, path@) {
            Ok(n) => r is Ok && final(t)@ == n,
            Err(pe) => r is Err && r->Err_0@ == pe && final(t)@ == old(t)@,
        },
{
    match e {
        Edit::Put(v) => {
            *t = v;
            Ok(())
        },
        Edit::Add(v) => {
            let f = match path.field() {
                Some(f) => f,
                None => {
                    return Err(PatchError::missing_final_token(path));
                },
            };
            match t {
                Value::Object(ms) => {
                    object_insert(ms, f, v);
                    Ok(())
                },
                Value::Array(xs) => {
                    proof {
                        lemma_model_seq(xs@);
                        reveal_strlit("-");
                    }
                    let is_end = f.as_str().unicode_len() == 1 && f.as_str().get_char(0) == '-';
                    if is_end {
                        assert(f@ =~= seq!['-']);
                        let ghost before = xs@;
                        xs.push(v);
                        proof {
                            lemma_model_seq(xs@);
                            assert(model_seq(xs@) =~= model_seq(before).push(model(v)));
                        }
                        return Ok(());
                    }
                    assert(f@ != seq!['-']);
                    match index_of(f.as_str()) {
                        None => Err(PatchError::invalid_array_index_token(path, f.as_str())),
                        Some(i) => {
                            if i > xs.len() {
                                return Err(PatchError::index_out_of_bounds(path, i, xs.len()));
                            }
                            let ghost before = xs@;
                            xs.insert(i, v);
                            proof {
                                lemma_model_seq(xs@);
                                assert(model_seq(xs@) =~= model_seq(before).insert(i as int, model(v)));
                            }
                            Ok(())
                        },
                    }
                },
                _ => {
                    let d = value_type_desc(t);
                    let p = parent_of(path);
                    Err(PatchError::not_a_container(&p, d.as_str()))
                },
            }
        },
        Edit::Remove => {
            let last = match path.last_segment() {
                Some(s) => s,
                None => {
                    proof {
                        assert(false);
                    }
                    return Err(PatchError::CannotRemoveRoot);
                },
            };
            match t {
                Value::Object(ms) => {
                    let f = match last {
                        Segment::Field(f) => f,
                        Segment::Filter(_) => {
                            return Err(PatchError::missing_final_token(path));
                        },
                    };
                    proof {
                        lemma_model_members(ms@);
                        lemma_find_key(model_members(ms@), f@);
                    }
                    match find_member(ms, f) {
                        Some(j) => {
                            let ghost before = ms@;
                            ms.remove(j);
                            proof {
                                lemma_model_members(ms@);
                                assert(model_members(ms@) =~= model_members(before).remove(j as int));
                            }
                            Ok(())
                        },
                        None => Err(PatchError::target_not_found(path)),
                    }
                },
                Value::Array(xs) => {
                    proof {
                        lemma_model_seq(xs@);
                    }
                    let index = match last {
                        Segment::Field(f) => match index_of(f.as_str()) {
                            Some(i) => i,
                            None => {
                                return Err(PatchError::invalid_array_index_token(path, f.as_str()));
                            },
                        },
                        Segment::Filter(cs) => {
                            match find_element(xs, cs) {
                                Some(i) => i,
                                None => {
                                    return Err(PatchError::ResolveError(ResolveError::NotFound));
                                },
                            }
                        },
                    };
                    if index >= xs.len() {
                        return Err(PatchError::index_out_of_bounds(path, index, xs.len()));
                    }
                    let ghost before = xs@;
                    xs.remove(index);
                    proof {
                        lemma_model_seq(xs@);
                        assert(model_seq(xs@) =~= model_seq(before).remove(index as int));
                    }
                    Ok(())
                },
                _ => {
                    let d = value_type_desc(t);
                    let p = parent_of(path);
                    Err(PatchError::not_a_container(&p, d.as_str()))
                },
            }
        },
    }
}

/// Applies an edit at the value that `path[from..upto]` leads to.
fn edit_at(doc: &mut Value, path: &Spath, from: usize, upto: usize, e: Edit) -> (r: Result<(), PatchError>)
    requires
        from <= upto <= path@.len(),
        (e is Put) || path@.len() > 0,
    ensures
        match resolve(old(doc)@, path@.subrange(from as int, upto as int)) {
            Err(re) => r is Err && r->Err_0@ == PErr::Resolve(re) && final(doc)@ == old(doc)@,
            Ok(t) => match edit_spec(t, e, path@) {
                Ok(n) => r is Ok && final(doc)@ == update(old(doc)@, path@.subrange(from as int, upto as int), n),
                Err(pe) => r is Err && r->Err_0@ == pe && final(doc)@ == old(doc)@,
            },
        },
    decreases upto - from,
{
    let ghost rest = path@.subrange(from as int, upto as int);
    if from == upto {
        return apply_edit(doc, e, path);
    }
    assert(rest[0] == path.segments@[from as int]@);
    assert(rest.drop_first() =~= path@.subrange(from as int + 1, upto as int));
    let k = match locate(doc, &path.segments[from]) {
        Ok(k) => k,
        Err(re) => {
            return Err(PatchError::ResolveError(re));
        },
    };
    proof {
        lemma_step_index_bounds(doc@, rest[0]);
    }
    match doc {
        Value::Array(xs) => {
            proof {
                lemma_model_seq(xs@);
                lemma_model_seq_update(xs@, k as int);
            }
            let ghost old_xs = xs@;
            let res = edit_at(&mut xs[k], path, from + 1, upto, e);
            proof {
                assert(xs@ == old_xs.update(k as int, xs@[k as int]));
                assert(model_seq(xs@) == model_seq(old_xs).update(k as int, model(xs@[k as int])));
            }
            res
        },
        Value::Object(ms) => {
            proof {
                lemma_model_members(ms@);
                lemma_model_members_update(ms@, k as int);
            }
            let ghost old_ms = ms@;
            let res = edit_at(&mut ms[k].1, path, from + 1, upto, e);
            proof {
                assert(ms@ == old_ms.update(k as int, (old_ms[k as int].0, ms@[k as int].1)));
                assert(model_members(ms@) == model_members(old_ms).update(k as int, (old_ms[k as int].0@, model(ms@[k as int].1))));
            }
            res
        },
        _ => {
            proof {
                assert(false);
            }
            Err(PatchError::CannotRemoveRoot)
        },
    }
}

/// Adds `value` at `path`: at the root it becomes the document; in an object
/// it sets the member; in an array it is inserted at the index, or appended
/// for `-`.
pub fn add(doc: &mut Value, path: Spath, value: Value) -> (r: Result<(), PatchError>)
    ensures
        match add_spec(old(doc)@, path@, value@) {
            Ok(n) => r is Ok && final(doc)@ == n,
            Err(pe) => r is Err && r->Err_0@ == pe && final(doc)@ == old(doc)@,
        },
        wf(old(doc)@) && wf(value@) && r is Ok ==> wf(final(doc)@),
{
    proof {
        if wf(doc@) && wf(value@) {
            lemma_add_wf(doc@, path@, value@);
        }
    }
    if path.is_empty() {
        *doc = value;
        return Ok(());
    }
    let n = path.len();
    assert(path@.subrange(0, n - 1) =~= path@.drop_last());
    edit_at(doc, &path, 0, n - 1, Edit::Add(value))
}

/// Removes the value at `path`; elements after a removed array element move
/// down by one.
pub fn remove(doc: &mut Value, path: Spath) -> (r: Result<(), PatchError>)
    ensures
        match remove_spec(old(doc)@, path@) {
            Ok(n) => r is Ok && final(doc)@ == n,
            Err(pe) => r is Err && r->Err_0@ == pe && final(doc)@ == old(doc)@,
        },
        wf(old(doc)@) && r is Ok ==> wf(final(doc)@),
{
    proof {
        if wf(doc@) {
            lemma_remove_wf(doc@, path@);
        }
    }
    if path.is_empty() {
        return Err(PatchError::CannotRemoveRoot);
    }
    let n = path.len();
    assert(path@.subrange(0, n - 1) =~= path@.drop_last());
    edit_at(doc, &path, 0, n - 1, Edit::Remove)
}

/// Replaces the value at `path`, which must exist, by `value`.
pub fn replace(doc: &mut Value, path: Spath, value: Value) -> (r: Result<(), PatchError>)
    ensures
        match replace_spec(old(doc)@, path@, value@) {
            Ok(n) => r is Ok && final(doc)@ == n,
            Err(pe) => r is Err && r->Err_0@ == pe && final(doc)@ == old(doc)@,
        },
        wf(old(doc)@) && wf(value@) && r is Ok ==> wf(final(doc)@),
{
    proof {
        if wf(doc@) && wf(value@) {
            lemma_update_wf(doc@, path@, value@);
        }
    }
    if path.is_empty() {
        *doc = value;
        return Ok(());
    }
    let n = path.len();
    assert(path@.subrange(0, n as int) =~= path@);
    edit_at(doc, &path, 0, n, Edit::Put(value))
}

/// Checks that the value at `path` equals `value`; the document is not changed.
pub fn test(doc: &mut Value, path: Spath, value: Value) -> (r: Result<(), PatchError>)
    ensures
        final(doc)@ == old(doc)@,
        match test_spec(old(doc)@, path@, value@) {
            Ok(_) => r is Ok,
            Err(pe) => r is Err && r->Err_0@ == pe,
        },
{
    let found = match resolve_ref(doc, &path) {
        Ok(v) => v,
        Err(e) => {
            return Err(PatchError::ResolveError(e));
        },
    };
    if !values_equal(found, &value) {
        return Err(PatchError::ValuesNotEqual);
    }
    Ok(())
}

/// Copies the value at `from` to `path`, as `add` places it.
pub fn copy(doc: &mut Value, from: Spath, path: Spath) -> (r: Result<(), PatchError>)
    ensures
        match copy_spec(old(doc)@, from@, path@) {
            Ok(n) => r is Ok && final(doc)@ == n,
            Err(pe) => r is Err && r->Err_0@ == pe && final(doc)@ == old(doc)@,
        },
        wf(old(doc)@) && r is Ok ==> wf(final(doc)@),
{
    proof {
        if wf(doc@) {
            lemma_op_wf(doc@, Op::Copy(from@, path@));
        }
    }
    let value = match resolve_ref(doc, &from) {
        Ok(v) => v.clone(),
        Err(e) => {
            return Err(PatchError::ResolveError(e));
        },
    };
    crate::patch::add(doc, path, value)
}

/// Moves the value at `from` to `path`. The document changes only where both
/// the removal and the addition succeed.
pub fn move_op(doc: &mut Value, from: Spath, path: Spath) -> (r: Result<(), PatchError>)
    ensures
        match move_spec(old(doc)@, from@, path@) {
            Ok(n) => r is Ok && final(doc)@ == n,
            Err(pe) => r is Err && r->Err_0@ == pe && final(doc)@ == old(doc)@,
        },
        r is Err ==> final(doc)@ == old(doc)@,
        wf(old(doc)@) && r is Ok ==> wf(final(doc)@),
{
    proof {
        if wf(doc@) {
            lemma_op_wf(doc@, Op::Move(from@, path@));
        }
    }
    let value = match resolve_ref(doc, &from) {
        Ok(v) => v.clone(),
        Err(e) => {
            return Err(PatchError::ResolveError(e));
        },
    };
    if from.same(&path) {
        return Ok(());
    }
    if from.is_parent_of(&path) {
        return Err(PatchError::CannotMoveIntoChild);
    }
    let mut work = doc.clone();
    match remove(&mut work, from) {
        Ok(()) => {},
        Err(e) => {
            return Err(e);
        },
    }
    match crate::patch::add(&mut work, path, value) {
        Ok(()) => {},
        Err(e) => {
            return Err(e);
        },
    }
    *doc = work;
    Ok(())
}

/// Applies one operation.
pub fn apply_op(doc: &mut Value, op: &PatchOp) -> (r: Result<(), PatchError>)
    ensures
        match op_spec(old(doc)@, op@) {
            Ok(n) => r is Ok && final(doc)@ == n,
            Err(pe) => r is Err && r->Err_0@ == pe && final(doc)@ == old(doc)@,
        },
{
    match op {
        PatchOp::Add { path, value } => crate::patch::add(doc, path.duplicate(), value.clone()),
        PatchOp::Remove { path } => remove(doc, path.duplicate()),
        PatchOp::Replace { path, value } => replace(doc, path.duplicate(), value.clone()),
        PatchOp::Move { from, path } => move_op(doc, from.duplicate(), path.duplicate()),
        PatchOp::Copy { from, path } => copy(doc, from.duplicate(), path.duplicate()),
        PatchOp::Test { path, value } => test(doc, path.duplicate(), value.clone()),
    }
}

/// Applies the operations in order to a copy of `doc`. Every failing
/// operation is reported, and the document is returned only where none failed.
pub fn apply(doc: &Value, patch: &Vec<PatchOp>) -> (r: Result<Value, PatchError>)
    ensures
        match apply_spec(doc@, ops_view(patch@)) {
            Ok(n) => r is Ok && r->Ok_0@ == n,
            Err(pe) => r is Err && r->Err_0@ == pe,
        },
        wf(doc@) && (forall|i: int| 0 <= i < patch@.len() ==> #[trigger] op_values_wf(patch@[i]@)) && r is Ok
            ==> wf(r->Ok_0@),
{
    proof {
        if wf(doc@) && (forall|i: int| 0 <= i < patch@.len() ==> #[trigger] op_values_wf(patch@[i]@)) {
            assert forall|i: int| 0 <= i < ops_view(patch@).len() implies #[trigger] op_values_wf(ops_view(patch@)[i]) by {
                assert(op_values_wf(patch@[i]@));
            }
            lemma_run_ops_wf(doc@, ops_view(patch@));
        }
    }
    let mut work = doc.clone();
    let mut errors: Vec<PatchError> = Vec::new();
    let mut i: usize = 0;
    while i < patch.len()
        invariant
            i <= patch.len(),
            run_ops(doc@, ops_view(patch@).subrange(0, i as int)) == (work@, perr_seq(errors@)),
        decreases patch.len() - i,
    {
        let ghost before = errors@;
        proof {
            let ops = ops_view(patch@).subrange(0, i as int + 1);
            assert(ops.drop_last() =~= ops_view(patch@).subrange(0, i as int));
            assert(ops.last() == patch@[i as int]@);
        }
        match apply_op(&mut work, &patch[i]) {
            Ok(()) => {},
            Err(e) => {
                errors.push(e);
                proof {
                    assert(errors@.drop_last() =~= before);
                }
            },
        }
        i += 1;
    }
    assert(ops_view(patch@).subrange(0, i as int) =~= ops_view(patch@));
    if errors.len() == 0 {
        Ok(work)
    } else {
        Err(PatchError::MultipleErrors(errors))
    }
}

impl Value {
    /// The value at the position that the path text `path` names.
    pub fn get_value_at(&self, path: &str) -> (r: Result<&Value, ResolveError>)
        ensures
            match crate::parser::read_path(path@) {
                Err((q, msg)) => r is Err && r->Err_0@ == RErr::InvalidPath(
                    vstd::utf8::encode_utf8(path@.subrange(0, q)).len() as usize,
                    msg,
                ),
                Ok(segs) => match resolve(self@, segs) {
                    Ok(j) => r is Ok && r->Ok_0@ == j,
                    Err(e) => r is Err && r->Err_0@ == e,
                },
            },
    {
        match Spath::parse(path) {
            Ok(p) => resolve_ref(self, &p),
            Err(e) => Err(ResolveError::InvalidPath(e)),
        }
    }

    /// Puts `value` in place of the value at the position that the path text
    /// `path` names; nothing changes where that fails.
    pub fn apply_at(&mut self, path: &str, value: Value) -> (r: Result<(), ResolveError>)
        ensures
            match crate::parser::read_path(path@) {
                Err((q, msg)) => r is Err && r->Err_0@ == RErr::InvalidPath(
                    vstd::utf8::encode_utf8(path@.subrange(0, q)).len() as usize,
                    msg,
                ) && final(self)@ == old(self)@,
                Ok(segs) => match resolve(old(self)@, segs) {
                    Ok(_) => r is Ok && final(self)@ == update(old(self)@, segs, value@),
                    Err(e) => r is Err && r->Err_0@ == e && final(self)@ == old(self)@,
                },
            },
    {
        let p = match Spath::parse(path) {
            Ok(p) => p,
            Err(e) => {
                return Err(ResolveError::InvalidPath(e));
            },
        };
        let n = p.len();
        assert(p@.subrange(0, n as int) =~= p@);
        match edit_at(self, &p, 0, n, Edit::Put(value)) {
            Ok(()) => Ok(()),
            Err(PatchError::ResolveError(e)) => Err(e),
            Err(_) => {
                proof {
                    assert(false);
                }
                Err(ResolveError::NotFound)
            },
        }
    }
}

} // verus!

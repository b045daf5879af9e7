use vstd::prelude::*;
use crate::encode::{json_len, json_size, patch_json, patch_value, sat};
use crate::operation::{Op, PatchOp, ops_view};
use crate::path::{Seg, Segment, Spath, conds_view};
use crate::text::string_from_chars;
use crate::value::{
    Json, Value, dec, dec_chars, elems_eq, find_key, find_member, json_eq, lemma_elems_eq,
    lemma_find_key, lemma_model_members, lemma_model_seq, model, model_members, model_seq,
    values_equal,
};

verus! {

/// A flaw of an array element under a schema's index key.
#[allow(inconsistent_fields)]
#[derive(Debug, PartialEq)]
pub enum DiffError {
    MissingIndexKey { path: Spath, index_key: String },
    NonStringIndexKey { path: Spath, index_key: Value },
    DuplicateIndexKey { path: Spath, index_key: String, value: String },
}

/// The mathematical form of a diff error.
pub enum DErr {
    MissingIndexKey(Seq<Seg>, Seq<char>),
    NonStringIndexKey(Seq<Seg>, Json),
    DuplicateIndexKey(Seq<Seg>, Seq<char>, Seq<char>),
}

impl View for DiffError {
    type V = DErr;

    open spec fn view(&self) -> DErr {
        match self {
            DiffError::MissingIndexKey { path, index_key } => DErr::MissingIndexKey(path@, index_key@),
            DiffError::NonStringIndexKey { path, index_key } => DErr::NonStringIndexKey(path@, index_key@),
            DiffError::DuplicateIndexKey { path, index_key, value } => DErr::DuplicateIndexKey(path@, index_key@, value@),
        }
    }
}

pub open spec fn derrs(es: Seq<DiffError>) -> Seq<DErr> {
    es.map_values(|e: DiffError| e@)
}

/// The flaws found on each side of a diff.
#[derive(Debug, PartialEq)]
pub struct DiffErrorSummary {
    pub left: Vec<DiffError>,
    pub right: Vec<DiffError>,
}

/// A sequence of operations, applied in order.
#[derive(Debug, Default, PartialEq)]
pub struct Patch(pub Vec<PatchOp>);

impl View for Patch {
    type V = Seq<Op>;

    open spec fn view(&self) -> Seq<Op> {
        ops_view(self.0@)
    }
}

// ---------------------------------------------------------------------------
// Reading the schema

/// The value of member `k` of an object.
pub open spec fn member(v: Json, k: Seq<char>) -> Option<Json> {
    match v {
        Json::Obj(ms) => if find_key(ms, k) >= 0 {
            Some(ms[find_key(ms, k)].1)
        } else {
            None
        },
        _ => None,
    }
}

pub open spec fn opt_member(v: Option<Json>, k: Seq<char>) -> Option<Json> {
    match v {
        Some(j) => member(j, k),
        None => None,
    }
}

/// The schema for member `k`: `properties.k`.
pub open spec fn sub_schema(s: Option<Json>, k: Seq<char>) -> Option<Json> {
    opt_member(opt_member(s, "properties"@), k)
}

/// The schema's `indexKey`, where it is a string.
pub open spec fn index_key(s: Option<Json>) -> Option<Seq<char>> {
    match opt_member(s, "indexKey"@) {
        Some(Json::Str(k)) => Some(k),
        _ => None,
    }
}

/// The schema for array elements: `items`.
pub open spec fn item_schema(s: Option<Json>) -> Option<Json> {
    opt_member(s, "items"@)
}

// ---------------------------------------------------------------------------
// The diff

/// Operations, then flaws found on the left and on the right.
pub type DiffOut = (Seq<Op>, Seq<DErr>, Seq<DErr>);

pub open spec fn nothing() -> DiffOut {
    (Seq::empty(), Seq::empty(), Seq::empty())
}

pub open spec fn join(a: DiffOut, b: DiffOut) -> DiffOut {
    (a.0 + b.0, a.1 + b.1, a.2 + b.2)
}

pub open spec fn idx_seg(i: nat) -> Seg {
    Seg::Field(dec(i))
}

pub open spec fn key_seg(key: Seq<char>, k: Seq<char>) -> Seg {
    Seg::Filter(seq![(key, k)])
}

/// The patch for two values that are not both objects or both arrays.
pub open spec fn diff_scalar(l: Json, r: Json, at: Seq<Seg>) -> DiffOut {
    if json_eq(l, r) {
        nothing()
    } else {
        (seq![Op::Replace(at, r)], Seq::empty(), Seq::empty())
    }
}

/// The patch that turns `l` into `r` at position `at`, with the flaws found.
pub open spec fn diff_rec(l: Json, r: Json, s: Option<Json>, at: Seq<Seg>) -> DiffOut
    decreases l, 0nat,
{
    match l {
        Json::Obj(lm) => match r {
            Json::Obj(rm) => diff_object(lm, rm, s, at),
            _ => diff_scalar(l, r, at),
        },
        Json::Arr(la) => match r {
            Json::Arr(ra) => diff_array(la, ra, s, at),
            _ => diff_scalar(l, r, at),
        },
        _ => diff_scalar(l, r, at),
    }
}

/// Member-wise patch of two objects, or one replacement of the whole object
/// where that is shorter when written.
pub open spec fn diff_object(lm: Seq<(Seq<char>, Json)>, rm: Seq<(Seq<char>, Json)>, s: Option<Json>, at: Seq<Seg>) -> DiffOut
    decreases lm, rm.len() + 1,
{
    let inner = diff_members(lm, rm, s, at);
    let computed = inner.0 + removed_members(lm, rm, at, lm.len());
    let replace = seq![Op::Replace(at, Json::Obj(rm))];
    if sat(json_len(patch_json(replace))) < sat(json_len(patch_json(computed))) {
        (replace, inner.1, inner.2)
    } else {
        (computed, inner.1, inner.2)
    }
}

/// For each member of `rm` in order: the diff of the member present on both
/// sides, or its addition.
pub open spec fn diff_members(lm: Seq<(Seq<char>, Json)>, rm: Seq<(Seq<char>, Json)>, s: Option<Json>, at: Seq<Seg>) -> DiffOut
    decreases lm, rm.len(),
{
    if rm.len() == 0 {
        nothing()
    } else {
        let k = rm.last().0;
        let j = find_key(lm, k);
        let child_at = at.push(Seg::Field(k));
        join(
            diff_members(lm, rm.drop_last(), s, at),
            if 0 <= j < lm.len() {
                diff_rec(lm[j].1, rm.last().1, sub_schema(s, k), child_at)
            } else {
                (seq![Op::Add(child_at, rm.last().1)], Seq::empty(), Seq::empty())
            },
        )
    }
}

/// Removals of the first `n` members of `lm` that `rm` lacks, in order.
pub open spec fn removed_members(lm: Seq<(Seq<char>, Json)>, rm: Seq<(Seq<char>, Json)>, at: Seq<Seg>, n: nat) -> Seq<Op>
    decreases n,
{
    if n == 0 || n > lm.len() {
        Seq::empty()
    } else {
        removed_members(lm, rm, at, (n - 1) as nat) + if find_key(rm, lm[n - 1].0) < 0 {
            seq![Op::Remove(at.push(Seg::Field(lm[n - 1].0)))]
        } else {
            Seq::empty()
        }
    }
}

/// Keyed diffing where the schema names an index key, else positional.
pub open spec fn diff_array(la: Seq<Json>, ra: Seq<Json>, s: Option<Json>, at: Seq<Seg>) -> DiffOut
    decreases la, la.len() + 3,
{
    match (s, index_key(s)) {
        (Some(sv), Some(key)) => diff_keyed(la, ra, key, sv, at),
        _ => diff_indexed(la, ra, s, at),
    }
}

// Keyed diffing

/// The index key of an element, where it is an object with that member
/// holding a string.
pub open spec fn key_of(e: Json, key: Seq<char>) -> Option<Seq<char>> {
    match member(e, key) {
        Some(Json::Str(k)) => Some(k),
        _ => None,
    }
}

/// The last of the first `n` elements whose index key is `k`, or -1.
pub open spec fn last_with_key(xs: Seq<Json>, key: Seq<char>, k: Seq<char>, n: nat) -> int
    decreases n,
{
    if n == 0 || n > xs.len() {
        -1
    } else if key_of(xs[n - 1], key) == Some(k) {
        n - 1
    } else {
        last_with_key(xs, key, k, (n - 1) as nat)
    }
}

/// Whether element `i` is the last with its index key: the one that stands
/// for that key, a later element replacing an earlier one with the same key.
pub open spec fn registered(xs: Seq<Json>, key: Seq<char>, i: int) -> bool {
    0 <= i < xs.len() && key_of(xs[i], key) is Some && last_with_key(
        xs,
        key,
        key_of(xs[i], key)->0,
        xs.len(),
    ) == i
}

/// The flaws of the first `n` elements under the index key.
pub open spec fn key_errors(xs: Seq<Json>, key: Seq<char>, at: Seq<Seg>, n: nat) -> Seq<DErr>
    decreases n,
{
    if n == 0 || n > xs.len() {
        Seq::empty()
    } else {
        let i = (n - 1) as nat;
        let p = at.push(idx_seg(i));
        key_errors(xs, key, at, i) + match member(xs[i as int], key) {
            None => seq![DErr::MissingIndexKey(p, key)],
            Some(Json::Str(k)) => if last_with_key(xs, key, k, i) >= 0 {
                seq![DErr::DuplicateIndexKey(p, key, k)]
            } else {
                Seq::empty()
            },
            Some(v) => seq![DErr::NonStringIndexKey(p, v)],
        }
    }
}

/// Removals, by key, of the first `n` left elements whose key the right lacks.
pub open spec fn keyed_removed(la: Seq<Json>, ra: Seq<Json>, key: Seq<char>, at: Seq<Seg>, n: nat) -> Seq<Op>
    decreases n,
{
    if n == 0 || n > la.len() {
        Seq::empty()
    } else {
        let i = n - 1;
        keyed_removed(la, ra, key, at, (n - 1) as nat) + if registered(la, key, i) && last_with_key(
            ra,
            key,
            key_of(la[i], key)->0,
            ra.len(),
        ) < 0 {
            seq![Op::Remove(at.push(key_seg(key, key_of(la[i], key)->0)))]
        } else {
            Seq::empty()
        }
    }
}

/// Additions, by key, of the first `n` right elements whose key the left lacks.
pub open spec fn keyed_added(la: Seq<Json>, ra: Seq<Json>, key: Seq<char>, at: Seq<Seg>, n: nat) -> Seq<Op>
    decreases n,
{
    if n == 0 || n > ra.len() {
        Seq::empty()
    } else {
        let i = n - 1;
        keyed_added(la, ra, key, at, (n - 1) as nat) + if registered(ra, key, i) && last_with_key(
            la,
            key,
            key_of(ra[i], key)->0,
            la.len(),
        ) < 0 {
            seq![Op::Add(at.push(key_seg(key, key_of(ra[i], key)->0)), ra[i])]
        } else {
            Seq::empty()
        }
    }
}

/// Diffs of the first `n` left elements whose key the right has too.
pub open spec fn keyed_mods(la: Seq<Json>, ra: Seq<Json>, key: Seq<char>, items: Option<Json>, at: Seq<Seg>, n: nat) -> DiffOut
    decreases la, n,
{
    if n == 0 || n > la.len() {
        nothing()
    } else {
        let i = n - 1;
        let k = key_of(la[i], key)->0;
        let j = last_with_key(ra, key, k, ra.len());
        join(
            keyed_mods(la, ra, key, items, at, (n - 1) as nat),
            if registered(la, key, i) && 0 <= j < ra.len() {
                diff_rec(la[i], ra[j], items, at.push(key_seg(key, k)))
            } else {
                nothing()
            },
        )
    }
}

/// Keyed diffing: removals, then additions, then the diffs of elements
/// present on both sides, each side's flaws reported.
pub open spec fn diff_keyed(la: Seq<Json>, ra: Seq<Json>, key: Seq<char>, sv: Json, at: Seq<Seg>) -> DiffOut
    decreases la, la.len() + 2,
{
    let mods = keyed_mods(la, ra, key, member(sv, "items"@), at, la.len());
    (
        keyed_removed(la, ra, key, at, la.len()) + keyed_added(la, ra, key, at, ra.len()) + mods.0,
        key_errors(la, key, at, la.len()) + mods.1,
        key_errors(ra, key, at, ra.len()) + mods.2,
    )
}

// Positional diffing

/// Removals of the elements at `hi - 1` down to `lo`.
pub open spec fn removals_down(at: Seq<Seg>, lo: nat, hi: nat) -> Seq<Op>
    decreases hi,
{
    if hi <= lo {
        Seq::empty()
    } else {
        seq![Op::Remove(at.push(idx_seg((hi - 1) as nat)))] + removals_down(at, lo, (hi - 1) as nat)
    }
}

/// Diffs of the first `n` pairs of elements at equal positions.
pub open spec fn diff_pairs(la: Seq<Json>, ra: Seq<Json>, items: Option<Json>, at: Seq<Seg>, n: nat) -> DiffOut
    decreases la, n,
{
    if n == 0 || n > la.len() || n > ra.len() {
        nothing()
    } else {
        let i = (n - 1) as nat;
        join(
            diff_pairs(la, ra, items, at, i),
            diff_rec(la[i as int], ra[i as int], items, at.push(idx_seg(i))),
        )
    }
}

/// Elementwise equality of two runs of elements.
pub open spec fn same_run(xs: Seq<Json>, ys: Seq<Json>) -> bool {
    xs.len() == ys.len() && elems_eq(xs, ys)
}

/// Positional diffing: a truncation, a removal from the front, an append or
/// an insertion at the front where the arrays are related so; else pairwise
/// diffs, then removals from the end, then appends.
pub open spec fn diff_indexed(la: Seq<Json>, ra: Seq<Json>, s: Option<Json>, at: Seq<Seg>) -> DiffOut
    decreases la, la.len() + 2,
{
    let nl = la.len();
    let nr = ra.len();
    let zero = at.push(Seg::Field(seq!['0']));
    let end = at.push(Seg::Field(seq!['-']));
    if nr <= nl && same_run(la.subrange(0, nr as int), ra) {
        (removals_down(at, nr, nl), Seq::empty(), Seq::empty())
    } else if nr <= nl && same_run(la.subrange(nl - nr, nl as int), ra) {
        (Seq::new((nl - nr) as nat, |i: int| Op::Remove(zero)), Seq::empty(), Seq::empty())
    } else if nl <= nr && same_run(ra.subrange(0, nl as int), la) {
        (Seq::new((nr - nl) as nat, |i: int| Op::Add(end, ra[nl + i])), Seq::empty(), Seq::empty())
    } else if nl <= nr && same_run(ra.subrange(nr - nl, nr as int), la) {
        (Seq::new((nr - nl) as nat, |i: int| Op::Add(zero, ra[nr - nl - 1 - i])), Seq::empty(), Seq::empty())
    } else {
        let m: nat = if nl < nr { nl } else { nr };
        let pairs = diff_pairs(la, ra, item_schema(s), at, m);
        (
            pairs.0 + removals_down(at, m, nl) + Seq::new((nr - m) as nat, |i: int| Op::Add(end, ra[m + i])),
            pairs.1,
            pairs.2,
        )
    }
}

// ---------------------------------------------------------------------------
// Errors, patches and summaries

impl DiffError {
    pub fn missing_index_key(path: &Spath, index_key: &str) -> (r: Self)
        ensures
            r@ == DErr::MissingIndexKey(path@, index_key@),
    {
        DiffError::MissingIndexKey { path: path.duplicate(), index_key: index_key.to_owned() }
    }

    pub fn non_string_index_key(path: &Spath, index_key: &Value) -> (r: Self)
        ensures
            r@ == DErr::NonStringIndexKey(path@, index_key@),
    {
        DiffError::NonStringIndexKey { path: path.duplicate(), index_key: index_key.clone() }
    }

    pub fn duplicate_index_key(path: &Spath, index_key: &str, value: &str) -> (r: Self)
        ensures
            r@ == DErr::DuplicateIndexKey(path@, index_key@, value@),
    {
        DiffError::DuplicateIndexKey {
            path: path.duplicate(),
            index_key: index_key.to_owned(),
            value: value.to_owned(),
        }
    }
}

impl DiffErrorSummary {
    pub fn new(left: Vec<DiffError>, right: Vec<DiffError>) -> (r: Self)
        ensures
            r.left@ == left@,
            r.right@ == right@,
    {
        DiffErrorSummary { left, right }
    }

    pub fn empty() -> (r: Self)
        ensures
            r.left@.len() == 0,
            r.right@.len() == 0,
    {
        DiffErrorSummary { left: Vec::new(), right: Vec::new() }
    }

    pub fn is_empty(&self) -> (r: bool)
        ensures
            r == (self.left@.len() == 0 && self.right@.len() == 0),
    {
        self.left.len() == 0 && self.right.len() == 0
    }
}

impl Patch {
    pub fn new(operations: Vec<PatchOp>) -> (r: Self)
        ensures
            r.0@ == operations@,
    {
        Patch(operations)
    }

    pub fn push(&mut self, op: PatchOp)
        ensures
            final(self).0@ == old(self).0@.push(op),
    {
        self.0.push(op);
    }

    pub fn len(&self) -> (r: usize)
        ensures
            r == self.0@.len(),
    {
        self.0.len()
    }
}

/// A diff's output in mathematical form.
pub open spec fn out_view(o: (Patch, DiffErrorSummary)) -> DiffOut {
    (o.0@, derrs(o.1.left@), derrs(o.1.right@))
}

fn empty_out() -> (r: (Patch, DiffErrorSummary))
    ensures
        out_view(r) == nothing(),
{
    let r = (Patch(Vec::new()), DiffErrorSummary::empty());
    assert(out_view(r).0 =~= Seq::<Op>::empty());
    assert(out_view(r).1 =~= Seq::<DErr>::empty());
    assert(out_view(r).2 =~= Seq::<DErr>::empty());
    r
}

/// Appends the second output to the first.
fn join_into(a: &mut (Patch, DiffErrorSummary), b: (Patch, DiffErrorSummary))
    ensures
        out_view(*final(a)) == join(out_view(*old(a)), out_view(b)),
{
    let (mut p, mut e) = b;
    a.0.0.append(&mut p.0);
    a.1.left.append(&mut e.left);
    a.1.right.append(&mut e.right);
    assert(out_view(*a).0 =~= join(out_view(*old(a)), out_view(b)).0);
    assert(out_view(*a).1 =~= join(out_view(*old(a)), out_view(b)).1);
    assert(out_view(*a).2 =~= join(out_view(*old(a)), out_view(b)).2);
}

/// Appends one operation.
fn push_op(a: &mut (Patch, DiffErrorSummary), op: PatchOp)
    ensures
        out_view(*final(a)) == (out_view(*old(a)).0.push(op@), out_view(*old(a)).1, out_view(*old(a)).2),
{
    a.0.0.push(op);
    assert(out_view(*a).0 =~= out_view(*old(a)).0.push(op@));
}

pub proof fn lemma_join_nothing(x: DiffOut)
    ensures
        join(x, nothing()) == x,
{
    assert(join(x, nothing()).0 =~= x.0);
    assert(join(x, nothing()).1 =~= x.1);
    assert(join(x, nothing()).2 =~= x.2);
}

fn one_op(op: PatchOp) -> (r: (Patch, DiffErrorSummary))
    ensures
        out_view(r) == (seq![op@], Seq::<DErr>::empty(), Seq::<DErr>::empty()),
{
    let mut r = empty_out();
    push_op(&mut r, op);
    assert(out_view(r).0 =~= seq![op@]);
    r
}

// ---------------------------------------------------------------------------
// Reading the schema

pub open spec fn opt_view(s: Option<&Value>) -> Option<Json> {
    match s {
        Some(v) => Some(v@),
        None => None,
    }
}

/// The value of member `k` of an object.
fn get_member<'a>(v: &'a Value, k: &str) -> (r: Option<&'a Value>)
    ensures
        opt_view(r) == member(v@, k@),
{
    match v {
        Value::Object(ms) => {
            let key = k.to_owned();
            proof {
                lemma_model_members(ms@);
                lemma_find_key(model_members(ms@), k@);
            }
            match find_member(ms, &key) {
                Some(j) => Some(&ms[j].1),
                None => None,
            }
        },
        _ => None,
    }
}

fn opt_get<'a>(v: Option<&'a Value>, k: &str) -> (r: Option<&'a Value>)
    ensures
        opt_view(r) == opt_member(opt_view(v), k@),
{
    match v {
        Some(x) => get_member(x, k),
        None => None,
    }
}

/// The element index as a segment.
fn idx_segment(i: usize) -> (r: Segment)
    ensures
        r@ == idx_seg(i as nat),
{
    Segment::Field(string_from_chars(&dec_chars(i as u64)))
}

/// The filter segment `[key=k]`.
fn key_segment(key: &String, k: &String) -> (r: Segment)
    ensures
        r@ == key_seg(key@, k@),
{
    let mut cs: Vec<(String, String)> = Vec::new();
    cs.push((key.clone(), k.clone()));
    assert(conds_view(cs@) =~= seq![(key@, k@)]);
    Segment::Filter(cs)
}

fn field_segment(s: &str) -> (r: Segment)
    ensures
        r@ == Seg::Field(s@),
{
    Segment::Field(s.to_owned())
}

// ---------------------------------------------------------------------------
// Index keys

/// The index key of an element.
fn key_of_elem<'a>(e: &'a Value, key: &String) -> (r: Option<&'a String>)
    ensures
        match key_of(e@, key@) {
            Some(k) => r is Some && r->0@ == k,
            None => r is None,
        },
{
    match get_member(e, key.as_str()) {
        Some(Value::String(k)) => Some(k),
        _ => None,
    }
}

pub proof fn lemma_last_with_key_bound(xs: Seq<Json>, key: Seq<char>, k: Seq<char>, n: nat)
    ensures
        last_with_key(xs, key, k, n) < n,
        last_with_key(xs, key, k, n) >= 0 ==> key_of(xs[last_with_key(xs, key, k, n)], key) == Some(k),
    decreases n,
{
    if n > 0 && n <= xs.len() {
        lemma_last_with_key_bound(xs, key, k, (n - 1) as nat);
    }
}

/// The last of the first `n` elements with index key `k`.
fn last_with_key_at(xs: &Vec<Value>, key: &String, k: &String, n: usize) -> (r: Option<usize>)
    requires
        n <= xs@.len(),
    ensures
        last_with_key(model_seq(xs@), key@, k@, n as nat) == match r {
            Some(i) => i as int,
            None => -1,
        },
{
    proof {
        lemma_model_seq(xs@);
    }
    let ghost m = model_seq(xs@);
    let mut i: usize = n;
    while i > 0
        invariant
            i <= n <= xs@.len(),
            m == model_seq(xs@),
            m.len() == xs@.len(),
            forall|j: int| 0 <= j < xs@.len() ==> #[trigger] m[j] == model(xs@[j]),
            last_with_key(m, key@, k@, n as nat) == last_with_key(m, key@, k@, i as nat),
        decreases i,
    {
        match key_of_elem(&xs[i - 1], key) {
            Some(kk) => {
                if *kk == *k {
                    return Some(i - 1);
                }
            },
            None => {},
        }
        i -= 1;
    }
    None
}

/// Whether element `i` stands for its index key.
fn is_registered<'a>(xs: &'a Vec<Value>, key: &String, i: usize) -> (r: Option<&'a String>)
    requires
        i < xs@.len(),
    ensures
        match r {
            Some(k) => registered(model_seq(xs@), key@, i as int) && key_of(model_seq(xs@)[i as int], key@) == Some(k@),
            None => !registered(model_seq(xs@), key@, i as int),
        },
{
    proof {
        lemma_model_seq(xs@);
    }
    match key_of_elem(&xs[i], key) {
        Some(k) => match last_with_key_at(xs, key, k, xs.len()) {
            Some(j) => if j == i {
                Some(k)
            } else {
                None
            },
            None => None,
        },
        None => None,
    }
}

/// The flaws of the elements under the index key.
fn key_errors_of(xs: &Vec<Value>, key: &String, at: &Spath) -> (r: Vec<DiffError>)
    ensures
        derrs(r@) == key_errors(model_seq(xs@), key@, at@, xs@.len() as nat),
{
    proof {
        lemma_model_seq(xs@);
    }
    let ghost m = model_seq(xs@);
    let mut out: Vec<DiffError> = Vec::new();
    let mut i: usize = 0;
    while i < xs.len()
        invariant
            i <= xs@.len(),
            m == model_seq(xs@),
            m.len() == xs@.len(),
            forall|j: int| 0 <= j < xs@.len() ==> #[trigger] m[j] == model(xs@[j]),
            derrs(out@) == key_errors(m, key@, at@, i as nat),
        decreases xs.len() - i,
    {
        let p = at.push(idx_segment(i));
        match get_member(&xs[i], key.as_str()) {
            None => {
                out.push(DiffError::missing_index_key(&p, key.as_str()));
            },
            Some(Value::String(k)) => {
                if last_with_key_at(xs, key, k, i).is_some() {
                    out.push(DiffError::duplicate_index_key(&p, key.as_str(), k.as_str()));
                }
            },
            Some(other) => {
                out.push(DiffError::non_string_index_key(&p, other));
            },
        }
        assert(derrs(out@) =~= key_errors(m, key@, at@, (i + 1) as nat));
        i += 1;
    }
    out
}

// ---------------------------------------------------------------------------
// Runs of elements

/// Whether `xs[xo..xo + n]` and `ys[yo..yo + n]` are elementwise equal.
fn runs_equal(xs: &Vec<Value>, xo: usize, ys: &Vec<Value>, yo: usize, n: usize) -> (r: bool)
    requires
        xo + n <= xs@.len(),
        yo + n <= ys@.len(),
    ensures
        r == same_run(
            model_seq(xs@).subrange(xo as int, xo + n),
            model_seq(ys@).subrange(yo as int, yo + n),
        ),
{
    proof {
        lemma_model_seq(xs@);
        lemma_model_seq(ys@);
    }
    let ghost a = model_seq(xs@).subrange(xo as int, xo + n);
    let ghost b = model_seq(ys@).subrange(yo as int, yo + n);
    proof {
        lemma_elems_eq(a, b);
    }
    let lx = xs.len();
    let ly = ys.len();
    let mut i: usize = 0;
    while i < n
        invariant
            lx == xs@.len(),
            ly == ys@.len(),
            i <= n,
            xo + n <= xs@.len(),
            yo + n <= ys@.len(),
            a == model_seq(xs@).subrange(xo as int, xo + n),
            b == model_seq(ys@).subrange(yo as int, yo + n),
            model_seq(xs@).len() == xs@.len(),
            model_seq(ys@).len() == ys@.len(),
            forall|j: int| 0 <= j < xs@.len() ==> #[trigger] model_seq(xs@)[j] == model(xs@[j]),
            forall|j: int| 0 <= j < ys@.len() ==> #[trigger] model_seq(ys@)[j] == model(ys@[j]),
            elems_eq(a, b) <==> forall|j: int| 0 <= j < a.len() ==> #[trigger] json_eq(a[j], b[j]),
            forall|j: int| 0 <= j < i ==> #[trigger] json_eq(a[j], b[j]),
        decreases n - i,
    {
        assert(xo + i < xs@.len() && yo + i < ys@.len());
        assert(a[i as int] == model(xs@[xo + i]));
        assert(b[i as int] == model(ys@[yo + i]));
        if !values_equal(&xs[xo + i], &ys[yo + i]) {
            assert(!json_eq(a[i as int], b[i as int]));
            return false;
        }
        i += 1;
    }
    true
}

/// Removals of the elements at `hi - 1` down to `lo`.
fn push_removals_down(out: &mut (Patch, DiffErrorSummary), at: &Spath, lo: usize, hi: usize)
    ensures
        out_view(*final(out)) == (out_view(*old(out)).0 + removals_down(at@, lo as nat, hi as nat), out_view(*old(out)).1, out_view(*old(out)).2),
{
    let mut j = hi;
    while j > lo
        invariant
            lo <= hi ==> lo <= j <= hi,
            lo > hi ==> j == hi,
            out_view(*out).0 + removals_down(at@, lo as nat, j as nat) == out_view(*old(out)).0 + removals_down(at@, lo as nat, hi as nat),
            out_view(*out).1 == out_view(*old(out)).1,
            out_view(*out).2 == out_view(*old(out)).2,
        decreases j,
    {
        let ghost before = out_view(*out).0;
        push_op(out, PatchOp::remove(at.push(idx_segment(j - 1))));
        assert(before + removals_down(at@, lo as nat, j as nat) =~= out_view(*out).0 + removals_down(at@, lo as nat, (j - 1) as nat));
        j -= 1;
    }
    assert(removals_down(at@, lo as nat, j as nat) =~= Seq::<Op>::empty());
    assert(out_view(*out).0 + removals_down(at@, lo as nat, j as nat) =~= out_view(*out).0);
}

// ---------------------------------------------------------------------------
// The diff engine

/// The patch that turns `left` into `right` at position `path_pos`, with
/// the flaws found under index keys; the last argument is not read.
pub fn diff_recursive(
    left: &Value,
    right: &Value,
    schema: Option<&Value>,
    path_pos: &Spath,
    patch_ops: &Patch,
) -> (r: (Patch, DiffErrorSummary))
    ensures
        out_view(r) == diff_rec(left@, right@, opt_view(schema), path_pos@),
    decreases left, 2nat,
{
    match (left, right) {
        (Value::Object(lm), Value::Object(rm)) => {
            proof {
                assert(decreases_to!(*left => left->Object_0));
            }
            diff_object_exec(lm, rm, right, schema, path_pos, patch_ops)
        },
        (Value::Array(la), Value::Array(ra)) => {
            proof {
                assert(decreases_to!(*left => left->Array_0));
            }
            let ik: Option<&String> = match opt_get(schema, "indexKey") {
                Some(Value::String(k)) => Some(k),
                _ => None,
            };
            match (schema, ik) {
                (Some(sv), Some(key)) => diff_keyed_exec(la, ra, key, sv, path_pos, patch_ops),
                _ => diff_indexed_exec(la, ra, schema, path_pos, patch_ops),
            }
        },
        _ => {
            if values_equal(left, right) {
                empty_out()
            } else {
                one_op(PatchOp::replace(path_pos.duplicate(), right.clone()))
            }
        },
    }
}

fn diff_object_exec(
    lm: &Vec<(String, Value)>,
    rm: &Vec<(String, Value)>,
    right: &Value,
    schema: Option<&Value>,
    at: &Spath,
    patch_ops: &Patch,
) -> (r: (Patch, DiffErrorSummary))
    requires
        *right == Value::Object(*rm),
    ensures
        out_view(r) == diff_object(model_members(lm@), model_members(rm@), opt_view(schema), at@),
    decreases lm, 1nat,
{
    proof {
        lemma_model_members(lm@);
        lemma_model_members(rm@);
    }
    let ghost lmv = model_members(lm@);
    let ghost rmv = model_members(rm@);
    let ghost sv = opt_view(schema);
    let mut inner = empty_out();
    let mut i: usize = 0;
    while i < rm.len()
        invariant
            i <= rm@.len(),
            lmv == model_members(lm@),
            rmv == model_members(rm@),
            sv == opt_view(schema),
            lmv.len() == lm@.len(),
            rmv.len() == rm@.len(),
            forall|j: int| 0 <= j < lm@.len() ==> #[trigger] lmv[j] == (lm@[j].0@, model(lm@[j].1)),
            forall|j: int| 0 <= j < rm@.len() ==> #[trigger] rmv[j] == (rm@[j].0@, model(rm@[j].1)),
            out_view(inner) == diff_members(lmv, rmv.subrange(0, i as int), sv, at@),
        decreases rm.len() - i,
    {
        let ghost pre = rmv.subrange(0, i as int);
        let ghost next = rmv.subrange(0, i as int + 1);
        proof {
            assert(next.drop_last() =~= pre);
            assert(next.last() == rmv[i as int]);
            lemma_find_key(lmv, rmv[i as int].0);
        }
        let k = &rm[i].0;
        let child_at = at.push(Segment::Field(k.clone()));
        match find_member(lm, k) {
            Some(j) => {
                proof {
                    assert(decreases_to!(lm => lm[j as int]));
                    assert(decreases_to!(lm[j as int] => lm[j as int].1));
                }
                let sub = opt_get(opt_get(schema, "properties"), k.as_str());
                let d = diff_recursive(&lm[j].1, &rm[i].1, sub, &child_at, patch_ops);
                join_into(&mut inner, d);
            },
            None => {
                let d = one_op(PatchOp::add(child_at, rm[i].1.clone()));
                join_into(&mut inner, d);
            },
        }
        i += 1;
    }
    assert(rmv.subrange(0, i as int) =~= rmv);
    let ghost inner_view = out_view(inner);
    let mut k: usize = 0;
    while k < lm.len()
        invariant
            k <= lm@.len(),
            lmv == model_members(lm@),
            rmv == model_members(rm@),
            lmv.len() == lm@.len(),
            rmv.len() == rm@.len(),
            forall|j: int| 0 <= j < lm@.len() ==> #[trigger] lmv[j] == (lm@[j].0@, model(lm@[j].1)),
            out_view(inner) == (inner_view.0 + removed_members(lmv, rmv, at@, k as nat), inner_view.1, inner_view.2),
        decreases lm.len() - k,
    {
        proof {
            lemma_find_key(rmv, lmv[k as int].0);
        }
        let ghost before = out_view(inner).0;
        if find_member(rm, &lm[k].0).is_none() {
            push_op(&mut inner, PatchOp::remove(at.push(Segment::Field(lm[k].0.clone()))));
        }
        assert(out_view(inner).0 =~= inner_view.0 + removed_members(lmv, rmv, at@, (k + 1) as nat));
        k += 1;
    }
    let mut replace_ops: Vec<PatchOp> = Vec::new();
    replace_ops.push(PatchOp::replace(at.duplicate(), right.clone()));
    assert(ops_view(replace_ops@) =~= seq![Op::Replace(at@, Json::Obj(rmv))]);
    let replace_size = json_size(&patch_value(&replace_ops));
    let inner_size = json_size(&patch_value(&inner.0.0));
    if replace_size < inner_size {
        let (_, errors) = inner;
        (Patch(replace_ops), errors)
    } else {
        inner
    }
}

fn diff_keyed_exec(
    la: &Vec<Value>,
    ra: &Vec<Value>,
    key: &String,
    sv: &Value,
    at: &Spath,
    patch_ops: &Patch,
) -> (r: (Patch, DiffErrorSummary))
    ensures
        out_view(r) == diff_keyed(model_seq(la@), model_seq(ra@), key@, sv@, at@),
    decreases la, 1nat,
{
    proof {
        lemma_model_seq(la@);
        lemma_model_seq(ra@);
    }
    let ghost lav = model_seq(la@);
    let ghost rav = model_seq(ra@);
    let items = get_member(sv, "items");
    let mut out = empty_out();
    let mut i: usize = 0;
    while i < la.len()
        invariant
            i <= la@.len(),
            lav == model_seq(la@),
            rav == model_seq(ra@),
            lav.len() == la@.len(),
            rav.len() == ra@.len(),
            out_view(out) == (keyed_removed(lav, rav, key@, at@, i as nat), Seq::<DErr>::empty(), Seq::<DErr>::empty()),
        decreases la.len() - i,
    {
        let ghost before = out_view(out).0;
        match is_registered(la, key, i) {
            Some(k) => {
                if last_with_key_at(ra, key, k, ra.len()).is_none() {
                    push_op(&mut out, PatchOp::remove(at.push(key_segment(key, k))));
                }
            },
            None => {},
        }
        assert(out_view(out).0 =~= keyed_removed(lav, rav, key@, at@, (i + 1) as nat));
        i += 1;
    }
    let mut i: usize = 0;
    while i < ra.len()
        invariant
            i <= ra@.len(),
            lav == model_seq(la@),
            rav == model_seq(ra@),
            rav.len() == ra@.len(),
            lav.len() == la@.len(),
            forall|j: int| 0 <= j < ra@.len() ==> #[trigger] rav[j] == model(ra@[j]),
            out_view(out) == (keyed_removed(lav, rav, key@, at@, la@.len() as nat) + keyed_added(lav, rav, key@, at@, i as nat), Seq::<DErr>::empty(), Seq::<DErr>::empty()),
        decreases ra.len() - i,
    {
        match is_registered(ra, key, i) {
            Some(k) => {
                if last_with_key_at(la, key, k, la.len()).is_none() {
                    push_op(&mut out, PatchOp::add(at.push(key_segment(key, k)), ra[i].clone()));
                }
            },
            None => {},
        }
        assert(out_view(out).0 =~= keyed_removed(lav, rav, key@, at@, la@.len() as nat) + keyed_added(lav, rav, key@, at@, (i + 1) as nat));
        i += 1;
    }
    let ghost items_v = member(sv@, "items"@);
    let mut mods = empty_out();
    let mut i: usize = 0;
    while i < la.len()
        invariant
            i <= la@.len(),
            lav == model_seq(la@),
            rav == model_seq(ra@),
            lav.len() == la@.len(),
            rav.len() == ra@.len(),
            forall|j: int| 0 <= j < la@.len() ==> #[trigger] lav[j] == model(la@[j]),
            forall|j: int| 0 <= j < ra@.len() ==> #[trigger] rav[j] == model(ra@[j]),
            items_v == opt_view(items),
            out_view(mods) == keyed_mods(lav, rav, key@, items_v, at@, i as nat),
        decreases la.len() - i,
    {
        let ghost before = out_view(mods);
        match is_registered(la, key, i) {
            Some(k) => {
                match last_with_key_at(ra, key, k, ra.len()) {
                    Some(j) => {
                        proof {
                            lemma_last_with_key_bound(rav, key@, k@, ra@.len() as nat);
                            assert(decreases_to!(la => la[i as int]));
                        }
                        let d = diff_recursive(&la[i], &ra[j], items, &at.push(key_segment(key, k)), patch_ops);
                        join_into(&mut mods, d);
                    },
                    None => {
                        proof {
                            lemma_join_nothing(before);
                        }
                    },
                }
            },
            None => {
                proof {
                    lemma_join_nothing(before);
                }
            },
        }
        i += 1;
    }
    let errors_left = key_errors_of(la, key, at);
    let errors_right = key_errors_of(ra, key, at);
    let (mp, me) = mods;
    let mut result = (out.0, DiffErrorSummary::new(errors_left, errors_right));
    proof {
        assert(out_view(result) == (keyed_removed(lav, rav, key@, at@, la@.len() as nat) + keyed_added(lav, rav, key@, at@, ra@.len() as nat), key_errors(lav, key@, at@, la@.len() as nat), key_errors(rav, key@, at@, ra@.len() as nat)));
    }
    join_into(&mut result, (mp, me));
    proof {
        assert(out_view(result).0 =~= diff_keyed(lav, rav, key@, sv@, at@).0);
    }
    result
}

fn diff_indexed_exec(
    la: &Vec<Value>,
    ra: &Vec<Value>,
    schema: Option<&Value>,
    at: &Spath,
    patch_ops: &Patch,
) -> (r: (Patch, DiffErrorSummary))
    ensures
        out_view(r) == diff_indexed(model_seq(la@), model_seq(ra@), opt_view(schema), at@),
    decreases la, 1nat,
{
    proof {
        lemma_model_seq(la@);
        lemma_model_seq(ra@);
    }
    let ghost lav = model_seq(la@);
    let ghost rav = model_seq(ra@);
    let nl = la.len();
    let nr = ra.len();
    let zero = at.push(field_segment("0"));
    let end = at.push(field_segment("-"));
    proof {
        reveal_strlit("0");
        reveal_strlit("-");
        assert("0"@ =~= seq!['0']);
        assert("-"@ =~= seq!['-']);
    }
    let mut out = empty_out();
    if nr <= nl && runs_equal(la, 0, ra, 0, nr) {
        assert(rav.subrange(0, nr as int) =~= rav);
        push_removals_down(&mut out, at, nr, nl);
        return out;
    }
    assert(rav.subrange(0, nr as int) =~= rav);
    if nr <= nl && runs_equal(la, nl - nr, ra, 0, nr) {
        let mut i: usize = 0;
        while i < nl - nr
            invariant
                nr <= nl,
                i <= nl - nr,
                zero@ == at@.push(Seg::Field(seq!['0'])),
                out_view(out) == (Seq::new(i as nat, |j: int| Op::Remove(zero@)), Seq::<DErr>::empty(), Seq::<DErr>::empty()),
            decreases nl - nr - i,
        {
            push_op(&mut out, PatchOp::remove(zero.duplicate()));
            assert(out_view(out).0 =~= Seq::new((i + 1) as nat, |j: int| Op::Remove(zero@)));
            i += 1;
        }
        assert(out_view(out).0 =~= diff_indexed(lav, rav, opt_view(schema), at@).0);
        return out;
    }
    assert(lav.subrange(0, nl as int) =~= lav);
    if nl <= nr && runs_equal(ra, 0, la, 0, nl) {
        let mut i: usize = nl;
        while i < nr
            invariant
                nl <= i <= nr,
                nr == ra@.len(),
                rav == model_seq(ra@),
                rav.len() == ra@.len(),
                forall|j: int| 0 <= j < ra@.len() ==> #[trigger] rav[j] == model(ra@[j]),
                end@ == at@.push(Seg::Field(seq!['-'])),
                out_view(out) == (Seq::new((i - nl) as nat, |j: int| Op::Add(end@, rav[nl + j])), Seq::<DErr>::empty(), Seq::<DErr>::empty()),
            decreases nr - i,
        {
            push_op(&mut out, PatchOp::add(end.duplicate(), ra[i].clone()));
            assert(out_view(out).0 =~= Seq::new((i + 1 - nl) as nat, |j: int| Op::Add(end@, rav[nl + j])));
            i += 1;
        }
        assert(out_view(out).0 =~= diff_indexed(lav, rav, opt_view(schema), at@).0);
        return out;
    }
    if nl <= nr && runs_equal(ra, nr - nl, la, 0, nl) {
        let mut i: usize = 0;
        while i < nr - nl
            invariant
                nl <= nr,
                nr == ra@.len(),
                i <= nr - nl,
                rav == model_seq(ra@),
                rav.len() == ra@.len(),
                forall|j: int| 0 <= j < ra@.len() ==> #[trigger] rav[j] == model(ra@[j]),
                zero@ == at@.push(Seg::Field(seq!['0'])),
                out_view(out) == (Seq::new(i as nat, |j: int| Op::Add(zero@, rav[nr - nl - 1 - j])), Seq::<DErr>::empty(), Seq::<DErr>::empty()),
            decreases nr - nl - i,
        {
            push_op(&mut out, PatchOp::add(zero.duplicate(), ra[nr - nl - 1 - i].clone()));
            assert(out_view(out).0 =~= Seq::new((i + 1) as nat, |j: int| Op::Add(zero@, rav[nr - nl - 1 - j])));
            i += 1;
        }
        assert(out_view(out).0 =~= diff_indexed(lav, rav, opt_view(schema), at@).0);
        return out;
    }
    let m = if nl < nr { nl } else { nr };
    let items = opt_get(schema, "items");
    let mut i: usize = 0;
    while i < m
        invariant
            i <= m,
            m <= la@.len(),
            m <= ra@.len(),
            lav == model_seq(la@),
            rav == model_seq(ra@),
            lav.len() == la@.len(),
            rav.len() == ra@.len(),
            forall|j: int| 0 <= j < la@.len() ==> #[trigger] lav[j] == model(la@[j]),
            forall|j: int| 0 <= j < ra@.len() ==> #[trigger] rav[j] == model(ra@[j]),
            opt_view(items) == item_schema(opt_view(schema)),
            out_view(out) == diff_pairs(lav, rav, item_schema(opt_view(schema)), at@, i as nat),
        decreases m - i,
    {
        proof {
            assert(decreases_to!(la => la[i as int]));
        }
        let d = diff_recursive(&la[i], &ra[i], items, &at.push(idx_segment(i)), patch_ops);
        join_into(&mut out, d);
        i += 1;
    }
    let ghost pairs = out_view(out);
    push_removals_down(&mut out, at, m, nl);
    let ghost with_removals = out_view(out).0;
    let mut i: usize = m;
    while i < nr
        invariant
            m <= i <= nr,
            nr == ra@.len(),
            rav == model_seq(ra@),
            rav.len() == ra@.len(),
            forall|j: int| 0 <= j < ra@.len() ==> #[trigger] rav[j] == model(ra@[j]),
            end@ == at@.push(Seg::Field(seq!['-'])),
            out_view(out) == (with_removals + Seq::new((i - m) as nat, |j: int| Op::Add(end@, rav[m + j])), pairs.1, pairs.2),
        decreases nr - i,
    {
        push_op(&mut out, PatchOp::add(end.duplicate(), ra[i].clone()));
        assert(out_view(out).0 =~= with_removals + Seq::new((i + 1 - m) as nat, |j: int| Op::Add(end@, rav[m + j])));
        i += 1;
    }
    assert(out_view(out).0 =~= diff_indexed(lav, rav, opt_view(schema), at@).0);
    out
}

/// The patch that turns `left` into `right`, with the flaws found under the
/// schema's index keys.
pub fn diff(left: &Value, right: &Value, schema: Option<&Value>) -> (r: (Patch, DiffErrorSummary))
    ensures
        out_view(r) == diff_rec(left@, right@, opt_view(schema), Seq::empty()),
{
    let root = Spath::root();
    let unused = Patch(Vec::new());
    diff_recursive(left, right, schema, &root, &unused)
}

} // verus!

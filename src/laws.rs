use vstd::prelude::*;
use crate::diff::{
    diff_indexed, diff_keyed, diff_members, diff_object, diff_rec, diff_array, last_with_key, index_key,
    key_of, keyed_added, keyed_mods, keyed_removed, lemma_last_with_key_bound, member, registered,
    removals_down, removed_members, same_run, nothing, join,
};
use crate::encode::{elems_len, json_len, members_len, op_json, patch_json, sat};
use crate::operation::Op;
use crate::path::Seg;
use crate::patch::{add_into, add_spec, obj_insert, remove_from, remove_spec};
use crate::resolve::{
    child, cond_holds, elem_matches, first_match, lemma_first_match, parse_index, resolve, set_child,
    step_index, update,
};
use crate::value::{
    Json, elems_eq, find_key, json_eq, keys_unique, lemma_elems_eq, lemma_find_key, lemma_json_eq_refl,
    lemma_wf_elems, lemma_wf_members, wf,
};

verus! {

proof fn lemma_members_self(lm: Seq<(Seq<char>, Json)>, n: nat, s: Option<Json>, at: Seq<Seg>)
    requires
        n <= lm.len(),
        keys_unique(lm),
        forall|i: int| 0 <= i < lm.len() ==> #[trigger] wf(lm[i].1),
    ensures
        diff_members(lm, lm.subrange(0, n as int), s, at).0 == Seq::<Op>::empty(),
    decreases lm, n,
{
    if n > 0 {
        let rm = lm.subrange(0, n as int);
        assert(rm.drop_last() =~= lm.subrange(0, n - 1));
        lemma_members_self(lm, (n - 1) as nat, s, at);
        let k = lm[n - 1].0;
        lemma_find_key(lm, k);
        let j = find_key(lm, k);
        assert(j == n - 1) by {
            if j < n - 1 {
                assert(lm[j].0 != lm[n - 1].0);
            }
        }
        assert(decreases_to!(lm => lm[n - 1]));
        lemma_diff_self(lm[n - 1].1, crate::diff::sub_schema(s, k), at.push(Seg::Field(k)));
    }
}

proof fn lemma_removed_self(lm: Seq<(Seq<char>, Json)>, at: Seq<Seg>, n: nat)
    requires
        n <= lm.len(),
    ensures
        removed_members(lm, lm, at, n) == Seq::<Op>::empty(),
    decreases n,
{
    if n > 0 {
        lemma_removed_self(lm, at, (n - 1) as nat);
        lemma_find_key(lm, lm[n - 1].0);
        assert(removed_members(lm, lm, at, n) =~= Seq::<Op>::empty());
    }
}

proof fn lemma_keyed_removed_self(la: Seq<Json>, key: Seq<char>, at: Seq<Seg>, n: nat)
    requires
        n <= la.len(),
    ensures
        keyed_removed(la, la, key, at, n) == Seq::<Op>::empty(),
        keyed_added(la, la, key, at, n) == Seq::<Op>::empty(),
    decreases n,
{
    if n > 0 {
        lemma_keyed_removed_self(la, key, at, (n - 1) as nat);
        assert(keyed_removed(la, la, key, at, n) =~= Seq::<Op>::empty());
        assert(keyed_added(la, la, key, at, n) =~= Seq::<Op>::empty());
    }
}

proof fn lemma_keyed_mods_self(la: Seq<Json>, key: Seq<char>, items: Option<Json>, at: Seq<Seg>, n: nat)
    requires
        n <= la.len(),
        forall|i: int| 0 <= i < la.len() ==> #[trigger] wf(la[i]),
    ensures
        keyed_mods(la, la, key, items, at, n).0 == Seq::<Op>::empty(),
    decreases la, n,
{
    if n > 0 {
        lemma_keyed_mods_self(la, key, items, at, (n - 1) as nat);
        let i = n - 1;
        if registered(la, key, i) {
            let k = key_of(la[i], key)->0;
            assert(decreases_to!(la => la[i]));
            lemma_diff_self(la[i], items, at.push(crate::diff::key_seg(key, k)));
        }
    }
}

proof fn lemma_removals_down_empty(at: Seq<Seg>, n: nat)
    ensures
        removals_down(at, n, n) == Seq::<Op>::empty(),
{
}

proof fn lemma_patch_len_one(op: Op)
    ensures
        json_len(patch_json(seq![op])) >= 4,
{
    let p = seq![op].map_values(|o: Op| op_json(o));
    assert(p.len() == 1);
    assert(p[0] == op_json(op));
    assert(elems_len(p) == json_len(p[0]));
    assert(json_len(op_json(op)) >= 2);
}

proof fn lemma_patch_len_empty()
    ensures
        json_len(patch_json(Seq::<Op>::empty())) == 2,
{
    assert(Seq::<Op>::empty().map_values(|o: Op| op_json(o)) =~= Seq::<Json>::empty());
}

proof fn lemma_diff_self(x: Json, s: Option<Json>, at: Seq<Seg>)
    requires
        wf(x),
    ensures
        diff_rec(x, x, s, at).0 == Seq::<Op>::empty(),
    decreases x, 0nat,
{
    match x {
        Json::Obj(lm) => {
            lemma_wf_members(lm);
            assert(lm.subrange(0, lm.len() as int) =~= lm);
            lemma_members_self(lm, lm.len(), s, at);
            lemma_removed_self(lm, at, lm.len());
            let computed = diff_members(lm, lm, s, at).0 + removed_members(lm, lm, at, lm.len());
            assert(computed =~= Seq::<Op>::empty());
            lemma_patch_len_empty();
            lemma_patch_len_one(Op::Replace(at, Json::Obj(lm)));
        },
        Json::Arr(la) => {
            lemma_wf_elems(la);
            match (s, index_key(s)) {
                (Some(sv), Some(key)) => {
                    lemma_keyed_removed_self(la, key, at, la.len());
                    lemma_keyed_mods_self(la, key, member(sv, "items"@), at, la.len());
                    assert(diff_keyed(la, la, key, sv, at).0 =~= Seq::<Op>::empty());
                },
                _ => {
                    assert(la.subrange(0, la.len() as int) =~= la);
                    assert forall|i: int| 0 <= i < la.len() implies #[trigger] json_eq(la[i], la[i]) by {
                        lemma_json_eq_refl(la[i]);
                    }
                    lemma_elems_eq(la, la);
                    assert(same_run(la.subrange(0, la.len() as int), la));
                    lemma_removals_down_empty(at, la.len());
                },
            }
        },
        _ => {
            lemma_json_eq_refl(x);
        },
    }
}

/// Diffing a well-formed document against itself gives the empty patch,
/// whatever the schema.
pub proof fn diff_of_equal_documents_is_empty(x: Json, s: Option<Json>)
    requires
        wf(x),
    ensures
        diff_rec(x, x, s, Seq::empty()).0 == Seq::<Op>::empty(),
{
    lemma_diff_self(x, s, Seq::empty());
}

proof fn lemma_find_key_same_keys(a: Seq<(Seq<char>, Json)>, b: Seq<(Seq<char>, Json)>, k: Seq<char>)
    requires
        a.len() == b.len(),
        forall|j: int| 0 <= j < a.len() ==> #[trigger] a[j].0 == b[j].0,
    ensures
        find_key(a, k) == find_key(b, k),
    decreases a.len(),
{
    if a.len() > 0 {
        assert(a[0].0 == b[0].0);
        assert forall|j: int| 0 <= j < a.drop_first().len() implies #[trigger] a.drop_first()[j].0 == b.drop_first()[j].0 by {
            assert(a[j + 1].0 == b[j + 1].0);
        }
        lemma_find_key_same_keys(a.drop_first(), b.drop_first(), k);
    }
}

/// Whether a value is an array or an object.
pub open spec fn is_container(v: Json) -> bool {
    v is Arr || v is Obj
}

/// Every filter that `a` satisfies, `b` satisfies too.
pub open spec fn keeps(a: Json, b: Json) -> bool {
    forall|cs: Seq<(Seq<char>, Seq<char>)>| elem_matches(a, cs) ==> #[trigger] elem_matches(b, cs)
}

/// Replacing the child that a step selects by one that keeps the step's
/// filter leaves the step selecting it.
proof fn lemma_step_set_child(v: Json, i: int, c: Json, seg: Seg)
    requires
        step_index(v, seg) == Ok::<int, crate::resolve::RErr>(i),
        seg is Filter ==> elem_matches(c, seg->Filter_0),
    ensures
        step_index(set_child(v, i, c), seg) == Ok::<int, crate::resolve::RErr>(i),
{
    lemma_step_bounds(v, seg);
    match seg {
        Seg::Field(f) => {
            if let Json::Obj(ms) = v {
                let ms2 = ms.update(i, (ms[i].0, c));
                assert forall|j: int| 0 <= j < ms.len() implies #[trigger] ms[j].0 == ms2[j].0 by {}
                lemma_find_key_same_keys(ms, ms2, f);
            }
        },
        Seg::Filter(cs) => {
            let xs = v->Arr_0;
            let xs2 = xs.update(i, c);
            lemma_first_match(xs, cs);
            lemma_first_match(xs2, cs);
            assert(elem_matches(xs2[i], cs));
            let fm = first_match(xs2, cs);
            if fm < i {
                assert(xs2[fm] == xs[fm]);
            }
        },
    }
}

/// Replacing a container child of a container by another container keeps
/// every filter the container satisfied.
proof fn lemma_keeps_set_child(x: Json, i: int, c: Json)
    requires
        is_container(x),
        match x {
            Json::Arr(xs) => 0 <= i < xs.len(),
            Json::Obj(ms) => 0 <= i < ms.len(),
            _ => false,
        },
        is_container(child(x, i)),
        is_container(c),
    ensures
        keeps(x, set_child(x, i, c)),
        is_container(set_child(x, i, c)),
{
    let y = set_child(x, i, c);
    assert forall|cs: Seq<(Seq<char>, Seq<char>)>| elem_matches(x, cs) implies #[trigger] elem_matches(y, cs) by {
        assert forall|k: int| 0 <= k < cs.len() implies #[trigger] cond_holds(y, cs[k]) by {
            assert(cond_holds(x, cs[k]));
            if let Json::Obj(ms) = x {
                let ms2 = ms.update(i, (ms[i].0, c));
                assert forall|j: int| 0 <= j < ms.len() implies #[trigger] ms[j].0 == ms2[j].0 by {}
                lemma_find_key_same_keys(ms, ms2, cs[k].0);
                lemma_find_key(ms, cs[k].0);
                let jj = find_key(ms, cs[k].0);
                assert(jj != i);
                assert(ms2[jj] == ms[jj]);
            }
        }
    }
}

/// Putting at the end of a path a container that keeps the filters of the
/// container there: the path still leads there, and every filter along the
/// way still selects the same element.
proof fn lemma_update_keeps(x: Json, q: Seq<Seg>, n: Json)
    requires
        resolve(x, q) is Ok,
        is_container(resolve(x, q)->Ok_0),
        is_container(n),
        keeps(resolve(x, q)->Ok_0, n),
    ensures
        is_container(update(x, q, n)),
        keeps(x, update(x, q, n)),
        resolve(update(x, q, n), q) == Ok::<Json, crate::resolve::RErr>(n),
    decreases q.len(),
{
    if q.len() > 0 {
        let i = step_index(x, q[0])->Ok_0;
        lemma_step_bounds(x, q[0]);
        let c = child(x, i);
        lemma_update_keeps(c, q.drop_first(), n);
        let c1 = update(c, q.drop_first(), n);
        if let Seg::Filter(cs) = q[0] {
            lemma_first_match(x->Arr_0, cs);
            assert(elem_matches(c, cs));
        }
        lemma_step_set_child(x, i, c1, q[0]);
        if q.drop_first().len() > 0 {
            lemma_step_bounds(c, q.drop_first()[0]);
        }
        assert(is_container(c));
        lemma_keeps_set_child(x, i, c1);
        assert(child(set_child(x, i, c1), i) == c1);
    }
}

proof fn lemma_update_twice(d: Json, p: Seq<Seg>, n1: Json, n2: Json)
    requires
        resolve(d, p) is Ok,
        is_container(resolve(d, p)->Ok_0),
        is_container(n1),
        keeps(resolve(d, p)->Ok_0, n1),
    ensures
        update(update(d, p, n1), p, n2) == update(d, p, n2),
    decreases p.len(),
{
    if p.len() > 0 {
        let i = step_index(d, p[0])->Ok_0;
        lemma_step_bounds(d, p[0]);
        let c = child(d, i);
        lemma_update_keeps(c, p.drop_first(), n1);
        let c1 = update(c, p.drop_first(), n1);
        if let Seg::Filter(cs) = p[0] {
            lemma_first_match(d->Arr_0, cs);
            assert(elem_matches(c, cs));
        }
        lemma_step_set_child(d, i, c1, p[0]);
        lemma_update_twice(c, p.drop_first(), n1, n2);
        assert(child(set_child(d, i, c1), i) == c1);
        let c2 = update(c, p.drop_first(), n2);
        match d {
            Json::Arr(xs) => {
                assert(xs.update(i, c1).update(i, c2) =~= xs.update(i, c2));
            },
            Json::Obj(ms) => {
                assert(ms.update(i, (ms[i].0, c1)).update(i, (ms[i].0, c2)) =~= ms.update(i, (ms[i].0, c2)));
            },
            _ => {},
        }
    }
}

proof fn lemma_step_bounds(v: Json, seg: Seg)
    ensures
        step_index(v, seg) is Ok ==> match v {
            Json::Arr(xs) => 0 <= step_index(v, seg)->Ok_0 < xs.len(),
            Json::Obj(ms) => 0 <= step_index(v, seg)->Ok_0 < ms.len(),
            _ => false,
        },
{
    crate::resolve::lemma_step_index_bounds(v, seg);
}

proof fn lemma_update_same(d: Json, p: Seq<Seg>)
    requires
        resolve(d, p) is Ok,
    ensures
        update(d, p, resolve(d, p)->Ok_0) == d,
    decreases p.len(),
{
    if p.len() > 0 {
        let i = step_index(d, p[0])->Ok_0;
        lemma_step_bounds(d, p[0]);
        lemma_update_same(child(d, i), p.drop_first());
        match d {
            Json::Arr(xs) => {
                assert(xs.update(i, xs[i]) =~= xs);
            },
            Json::Obj(ms) => {
                assert(ms.update(i, (ms[i].0, ms[i].1)) =~= ms);
            },
            _ => {},
        }
    }
}

proof fn lemma_resolve_last(d: Json, p: Seq<Seg>)
    requires
        p.len() > 0,
    ensures
        resolve(d, p) == match resolve(d, p.drop_last()) {
            Ok(t) => match step_index(t, p.last()) {
                Ok(i) => Ok(child(t, i)),
                Err(e) => Err(e),
            },
            Err(e) => Err(e),
        },
    decreases p.len(),
{
    if p.len() > 1 {
        match step_index(d, p[0]) {
            Ok(i) => {
                lemma_resolve_last(child(d, i), p.drop_first());
                assert(p.drop_first().drop_last() =~= p.drop_last().drop_first());
                assert(p.drop_first().last() == p.last());
                assert(p.drop_last()[0] == p[0]);
            },
            Err(_) => {
                assert(p.drop_last()[0] == p[0]);
            },
        }
    } else {
        assert(p.drop_last() =~= Seq::<Seg>::empty());
        assert(p.drop_first() =~= Seq::<Seg>::empty());
        assert(p.last() == p[0]);
        assert(resolve(d, p.drop_last()) == Ok::<Json, crate::resolve::RErr>(d));
        match step_index(d, p[0]) {
            Ok(i) => {
                assert(resolve(child(d, i), p.drop_first()) == Ok::<Json, crate::resolve::RErr>(child(d, i)));
            },
            Err(_) => {},
        }
    }
}

/// Adding a value at a path where there was none, then removing what is at
/// that path, gives back the document; except where the path ends in `-`
/// under an array, which appends but names no element to remove.
pub proof fn add_then_remove_restores(d: Json, p: Seq<Seg>, v: Json)
    requires
        p.len() > 0,
        !(p.last() == Seg::Field(seq!['-']) && resolve(d, p.drop_last()) is Ok && resolve(
            d,
            p.drop_last(),
        )->Ok_0 is Arr),
        add_spec(d, p, v) is Ok,
        resolve(d, p) is Err,
    ensures
        remove_spec(add_spec(d, p, v)->Ok_0, p) == Ok::<Json, crate::patch::PErr>(d),
{
    let parent = p.drop_last();
    let t = resolve(d, parent)->Ok_0;
    let n1 = add_into(t, p, v)->Ok_0;
    lemma_resolve_last(d, p);
    let f = p.last()->Field_0;
    match t {
        Json::Obj(ms) => {
            lemma_find_key(ms, f);
            assert(find_key(ms, f) < 0);
            let ms1 = ms.push((f, v));
            lemma_find_key(ms1, f);
            assert forall|j: int| 0 <= j < ms.len() implies ms1[j].0 != f by {
                assert(ms1[j] == ms[j]);
            }
            assert(ms1[ms.len() as int].0 == f);
            assert(find_key(ms1, f) == ms.len());
            assert(ms1.remove(ms.len() as int) =~= ms);
            assert forall|cs: Seq<(Seq<char>, Seq<char>)>| elem_matches(t, cs) implies #[trigger] elem_matches(n1, cs) by {
                assert forall|k: int| 0 <= k < cs.len() implies #[trigger] cond_holds(n1, cs[k]) by {
                    assert(cond_holds(t, cs[k]));
                    lemma_find_key(ms, cs[k].0);
                    lemma_find_key(ms1, cs[k].0);
                    let jj = find_key(ms, cs[k].0);
                    assert(ms1[jj] == ms[jj]);
                    if find_key(ms1, cs[k].0) < jj {
                        assert(ms1[find_key(ms1, cs[k].0)] == ms[find_key(ms1, cs[k].0)]);
                    }
                }
            }
        },
        Json::Arr(xs) => {
            let i = parse_index(f)->0;
            assert(xs.insert(i as int, v).remove(i as int) =~= xs);
            assert forall|cs: Seq<(Seq<char>, Seq<char>)>| elem_matches(t, cs) implies #[trigger] elem_matches(n1, cs) by {
                if cs.len() > 0 {
                    assert(cond_holds(t, cs[0]));
                }
            }
        },
        _ => {},
    }
    assert(keeps(t, n1));
    lemma_update_keeps(d, parent, n1);
    assert(remove_from(n1, p) == Ok::<Json, crate::patch::PErr>(t));
    lemma_update_twice(d, parent, n1, t);
    lemma_update_same(d, parent);
}

} // verus!

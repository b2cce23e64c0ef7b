//! What a generated patch does: applied to its source it gives a document
//! equal to its target as a JSON value.
use vstd::prelude::*;

use crate::diff::{
    added_elements, added_members, common_prefix_from, common_suffix_from, diff_elements,
    diff_members, index_path, member_path, removed_elements, spec_diff, spec_rec_diff,
};
use crate::json::{
    lemma_same_arrays, lemma_same_objects, opt_norm,
    lemma_fits_array, lemma_fits_object, lemma_model_fits,
    lemma_obj_find_sorted, lemma_obj_get_insert, lemma_obj_get_remove, lemma_obj_get_sorted,
    lemma_obj_insert_sorted, lemma_obj_remove_sorted, lemma_wf_array, lemma_wf_object, obj_find,
    obj_get, obj_insert, obj_remove, sorted_keys, Json, JsonV,
};
use crate::patch::effects::{
    decoded, lemma_apply_add_index, lemma_apply_add_member, lemma_apply_remove_index,
    lemma_apply_remove_member, lemma_apply_replace, lemma_index_tokens, lemma_member_tokens,
    lemma_path_of_tokens, plain_tokens,
};
use crate::patch::operations::{path_of, ErrV, OpV};
use crate::patch::patch::{
    lemma_apply_patch_append, lemma_apply_patch_single, ops_wf, patch_panics, spec_apply_patch,
};
use crate::pointer::{
    lemma_resolve_push, lemma_resolve_update_at, lemma_update_at_push, lemma_update_at_same,
    lemma_update_at_twice, lookup_index, resolve, update_at,
};
use crate::text::{decimal, escape_key, lemma_decimal_parse};

verus! {

/// Going into the member `k` of the object that `t` reaches.
proof fn lemma_member_step(doc: JsonV, t: Seq<Seq<char>>, m: Seq<(Seq<char>, JsonV)>, k: Seq<char>, v: JsonV)
    requires
        resolve(doc, t) == Some(JsonV::Object(m)),
        obj_find(m, k) is Some,
    ensures
        resolve(doc, t.push(k)) == obj_get(m, k),
        update_at(doc, t.push(k), v) == update_at(doc, t, JsonV::Object(obj_insert(m, k, v))),
{
    lemma_resolve_push(doc, t, k);
    lemma_update_at_push(doc, t, k, v);
    let i = obj_find(m, k).unwrap();
    let one = seq![k];
    let none = one.drop_first();
    assert(none =~= Seq::<Seq<char>>::empty());
    assert(one[0] == k);
    assert(resolve(m[i].1, none) == Some(m[i].1));
    assert(update_at(m[i].1, none, v) == v);
    assert(update_at(JsonV::Object(m), one, v) == JsonV::Object(obj_insert(m, k, v)));
}

/// Going into the element `i` of the array that `t` reaches.
proof fn lemma_index_step(doc: JsonV, t: Seq<Seq<char>>, a: Seq<JsonV>, i: usize, v: JsonV)
    requires
        resolve(doc, t) == Some(JsonV::Array(a)),
        i < a.len(),
    ensures
        resolve(doc, t.push(decimal(i as nat))) == Some(a[i as int]),
        update_at(doc, t.push(decimal(i as nat)), v) == update_at(doc, t, JsonV::Array(a.update(i as int, v))),
{
    let d = decimal(i as nat);
    lemma_decimal_parse(i);
    assert(lookup_index(d) == Some(i));
    lemma_resolve_push(doc, t, d);
    lemma_update_at_push(doc, t, d, v);
    let one = seq![d];
    let none = one.drop_first();
    assert(none =~= Seq::<Seq<char>>::empty());
    assert(one[0] == d);
    assert(resolve(a[i as int], none) == Some(a[i as int]));
    assert(update_at(a[i as int], none, v) == v);
}

/// Whether the member `q` is among the first `n` members of the source
/// object, which the diff handles in order.
spec fn diffed_member(sm: Seq<(Seq<char>, JsonV)>, n: nat, q: Seq<char>) -> bool {
    obj_find(sm, q) matches Some(j) && j < n
}

/// The value for `q` once the first `n` members of the target object are
/// added, where the source lacks them, to the members `m0`.
spec fn after_additions(
    m0: Seq<(Seq<char>, JsonV)>,
    sm: Seq<(Seq<char>, JsonV)>,
    tm: Seq<(Seq<char>, JsonV)>,
    n: nat,
    q: Seq<char>,
) -> Option<JsonV> {
    match obj_find(tm, q) {
        Some(j) => if j < n && obj_get(sm, q) is None {
            obj_get(tm, q)
        } else {
            obj_get(m0, q)
        },
        None => obj_get(m0, q),
    }
}

/// Whether `x` is `sa` with its `n` elements from `start` on replaced by
/// values equal, as JSON values, to those of `ta`.
spec fn paired_with(x: Seq<JsonV>, sa: Seq<JsonV>, ta: Seq<JsonV>, start: nat, n: nat) -> bool {
    &&& x.len() == sa.len()
    &&& forall|j: int|
        0 <= j < x.len() ==> if start <= j < start + n {
            (#[trigger] x[j]).same(ta[j])
        } else {
            x[j] == sa[j]
        }
}

/// The element `u` places from the end.
spec fn from_end(s: Seq<JsonV>, u: int) -> JsonV {
    s[s.len() - 1 - u]
}

proof fn lemma_common_prefix(sa: Seq<JsonV>, ta: Seq<JsonV>, i: nat)
    requires
        i <= sa.len(),
        i <= ta.len(),
    ensures
        i <= common_prefix_from(sa, ta, i) <= sa.len(),
        common_prefix_from(sa, ta, i) <= ta.len(),
        forall|j: int| i <= j < common_prefix_from(sa, ta, i) ==> (#[trigger] sa[j]).same(ta[j]),
    decreases sa.len() - i,
{
    if i < sa.len() && i < ta.len() && sa[i as int].same(ta[i as int]) {
        lemma_common_prefix(sa, ta, i + 1);
    }
}

proof fn lemma_common_suffix(sa: Seq<JsonV>, ta: Seq<JsonV>, prefix: nat, s: nat)
    requires
        prefix + s <= sa.len(),
        prefix + s <= ta.len(),
    ensures
        s <= common_suffix_from(sa, ta, prefix, s),
        prefix + common_suffix_from(sa, ta, prefix, s) <= sa.len(),
        prefix + common_suffix_from(sa, ta, prefix, s) <= ta.len(),
        forall|u: int| s <= u < common_suffix_from(sa, ta, prefix, s) ==> (#[trigger] from_end(sa, u)).same(from_end(ta, u)),
    decreases sa.len() - s,
{
    if s + prefix < sa.len() && s + prefix < ta.len() && sa[sa.len() - 1 - s].same(ta[ta.len() - 1 - s]) {
        lemma_common_suffix(sa, ta, prefix, s + 1);
        assert(from_end(sa, s as int).same(from_end(ta, s as int)));
    }
}

/// Applying the operations that turn `source` into `target`, with paths below
/// the one written from `raw`, to a document where `raw` reaches `source`
/// puts there a value equal to `target` as a JSON value.
proof fn lemma_rec_diff_applies(raw: Seq<Seq<char>>, doc: JsonV, source: JsonV, target: JsonV) -> (w: JsonV)
    requires
        plain_tokens(raw),
        resolve(doc, decoded(raw)) == Some(source),
        source.wf(),
        target.wf(),
        source.arrays_fit(),
        target.arrays_fit(),
    ensures
        spec_apply_patch(spec_rec_diff(path_of(raw), source, target), doc) == Ok::<JsonV, ErrV>(
            update_at(doc, decoded(raw), w),
        ),
        !patch_panics(spec_rec_diff(path_of(raw), source, target), doc),
        w.same(target),
    decreases source, 1nat,
{
    let p = path_of(raw);
    let t = decoded(raw);
    let replace = OpV::Replace { path: p, value: target };
    match source {
        JsonV::Object(sm) => {
            if let JsonV::Object(tm) = target {
                lemma_wf_object(source);
                lemma_wf_object(target);
                let a = diff_members(p, sm, tm, sm.len());
                let b = added_members(p, sm, tm, tm.len());
                let m1 = lemma_members_apply(raw, doc, sm, tm, sm.len());
                let d1 = update_at(doc, t, JsonV::Object(m1));
                lemma_resolve_update_at(doc, t, JsonV::Object(m1));
                let m2 = lemma_member_additions_apply(raw, d1, m1, sm, tm, tm.len());
                lemma_update_at_twice(doc, t, JsonV::Object(m1), JsonV::Object(m2));
                lemma_apply_patch_append(a, b, doc);
                assert forall|q: Seq<char>| #[trigger] opt_norm(obj_get(m2, q)) == opt_norm(obj_get(tm, q)) by {
                    lemma_obj_find_sorted(sm, q);
                    lemma_obj_find_sorted(tm, q);
                    assert(obj_get(m2, q) == after_additions(m1, sm, tm, tm.len(), q));
                    if diffed_member(sm, sm.len(), q) {
                        assert(opt_norm(obj_get(m1, q)) == opt_norm(obj_get(tm, q)));
                    } else {
                        assert(obj_get(m1, q) == obj_get(sm, q));
                    }
                }
                lemma_same_objects(m2, tm);
                JsonV::Object(m2)
            } else {
                lemma_apply_replace(raw, target, doc);
                lemma_apply_patch_single(replace, doc);
                target
            }
        },
        JsonV::Array(sa) => {
            if let JsonV::Array(ta) = target {
                lemma_array_diff_applies(raw, doc, sa, ta)
            } else {
                lemma_apply_replace(raw, target, doc);
                lemma_apply_patch_single(replace, doc);
                target
            }
        },
        _ => {
            if !source.same(target) {
                lemma_apply_replace(raw, target, doc);
                lemma_apply_patch_single(replace, doc);
                target
            } else {
                lemma_update_at_same(doc, t);
                source
            }
        },
    }
}

/// The operations for the first `n` members of the source object, applied
/// where `raw` reaches it.
proof fn lemma_members_apply(
    raw: Seq<Seq<char>>,
    doc: JsonV,
    sm: Seq<(Seq<char>, JsonV)>,
    tm: Seq<(Seq<char>, JsonV)>,
    n: nat,
) -> (mm: Seq<(Seq<char>, JsonV)>)
    requires
        plain_tokens(raw),
        resolve(doc, decoded(raw)) == Some(JsonV::Object(sm)),
        JsonV::Object(sm).wf(),
        JsonV::Object(tm).wf(),
        JsonV::Object(sm).arrays_fit(),
        JsonV::Object(tm).arrays_fit(),
        n <= sm.len(),
    ensures
        spec_apply_patch(diff_members(path_of(raw), sm, tm, n), doc) == Ok::<JsonV, ErrV>(
            update_at(doc, decoded(raw), JsonV::Object(mm)),
        ),
        !patch_panics(diff_members(path_of(raw), sm, tm, n), doc),
        sorted_keys(mm),
        forall|q: Seq<char>|
            diffed_member(sm, n, q) ==> #[trigger] opt_norm(obj_get(mm, q)) == opt_norm(obj_get(tm, q)),
        forall|q: Seq<char>| !diffed_member(sm, n, q) ==> #[trigger] obj_get(mm, q) == obj_get(sm, q),
    decreases sm, n,
{
    let p = path_of(raw);
    let t = decoded(raw);
    lemma_wf_object(JsonV::Object(sm));
    lemma_wf_object(JsonV::Object(tm));
    lemma_fits_object(JsonV::Object(sm));
    lemma_fits_object(JsonV::Object(tm));
    if n == 0 {
        lemma_update_at_same(doc, t);
        sm
    } else {
        let prev = diff_members(p, sm, tm, (n - 1) as nat);
        let k = sm[n - 1].0;
        let sv = sm[n - 1].1;
        let mp = member_path(p, k);
        let step = match obj_get(tm, k) {
            Some(tv) => spec_rec_diff(mp, sv, tv),
            None => seq![OpV::Remove { path: mp }],
        };
        assert(diff_members(p, sm, tm, n) == prev + step);
        let m1 = lemma_members_apply(raw, doc, sm, tm, (n - 1) as nat);
        let d1 = update_at(doc, t, JsonV::Object(m1));
        lemma_resolve_update_at(doc, t, JsonV::Object(m1));
        lemma_obj_find_sorted(sm, k);
        lemma_obj_get_sorted(sm, k);
        assert(!diffed_member(sm, (n - 1) as nat, k));
        assert(obj_get(m1, k) == Some(sv));
        lemma_member_tokens(raw, k);
        let raw2 = raw.push(escape_key(k));
        assert(path_of(raw2) == mp);
        let (mm, wk) = match obj_get(tm, k) {
            Some(tv) => {
                lemma_obj_find_sorted(tm, k);
                let j = obj_find(tm, k).unwrap();
                assert(tv == tm[j].1);
                lemma_member_step(d1, t, m1, k, tv);
                let w = lemma_rec_diff_applies(raw2, d1, sv, tv);
                lemma_member_step(d1, t, m1, k, w);
                lemma_obj_insert_sorted(m1, k, w);
                (obj_insert(m1, k, w), Some(w))
            },
            None => {
                lemma_apply_remove_member(raw, k, d1, m1);
                lemma_apply_patch_single(OpV::Remove { path: mp }, d1);
                lemma_obj_remove_sorted(m1, k);
                (obj_remove(m1, k), None)
            },
        };
        assert(opt_norm(wk) == opt_norm(obj_get(tm, k)));
        lemma_update_at_twice(doc, t, JsonV::Object(m1), JsonV::Object(mm));
        lemma_apply_patch_append(prev, step, doc);
        assert forall|q: Seq<char>| #[trigger] obj_get(mm, q) == if q == k {
            wk
        } else {
            obj_get(m1, q)
        } by {
            if let Some(w) = wk {
                lemma_obj_get_insert(m1, k, w, q);
            } else {
                lemma_obj_get_remove(m1, k, q);
            }
        }
        assert forall|q: Seq<char>|
            diffed_member(sm, n, q) implies #[trigger] opt_norm(obj_get(mm, q)) == opt_norm(obj_get(tm, q)) by {
            lemma_obj_find_sorted(sm, q);
            if q != k {
                assert(diffed_member(sm, (n - 1) as nat, q));
                assert(opt_norm(obj_get(m1, q)) == opt_norm(obj_get(tm, q)));
            }
        }
        assert forall|q: Seq<char>| !diffed_member(sm, n, q) implies #[trigger] obj_get(mm, q) == obj_get(sm, q) by {
            lemma_obj_find_sorted(sm, q);
            assert(q != k);
            assert(!diffed_member(sm, (n - 1) as nat, q));
            assert(obj_get(m1, q) == obj_get(sm, q));
        }
        mm
    }
}

/// The additions for the first `n` members of the target object, applied where
/// `raw` reaches the object with members `m0`.
proof fn lemma_member_additions_apply(
    raw: Seq<Seq<char>>,
    doc: JsonV,
    m0: Seq<(Seq<char>, JsonV)>,
    sm: Seq<(Seq<char>, JsonV)>,
    tm: Seq<(Seq<char>, JsonV)>,
    n: nat,
) -> (mm: Seq<(Seq<char>, JsonV)>)
    requires
        plain_tokens(raw),
        resolve(doc, decoded(raw)) == Some(JsonV::Object(m0)),
        sorted_keys(m0),
        sorted_keys(sm),
        sorted_keys(tm),
        n <= tm.len(),
    ensures
        spec_apply_patch(added_members(path_of(raw), sm, tm, n), doc) == Ok::<JsonV, ErrV>(
            update_at(doc, decoded(raw), JsonV::Object(mm)),
        ),
        !patch_panics(added_members(path_of(raw), sm, tm, n), doc),
        sorted_keys(mm),
        forall|q: Seq<char>| #[trigger] obj_get(mm, q) == after_additions(m0, sm, tm, n, q),
    decreases n,
{
    let p = path_of(raw);
    let t = decoded(raw);
    if n == 0 {
        lemma_update_at_same(doc, t);
        m0
    } else {
        let k = tm[n - 1].0;
        let tv = tm[n - 1].1;
        let prev = added_members(p, sm, tm, (n - 1) as nat);
        let add = OpV::Add { path: member_path(p, k), value: tv };
        let step = if obj_get(sm, k) is None {
            seq![add]
        } else {
            Seq::<OpV>::empty()
        };
        assert(added_members(p, sm, tm, n) == prev + step);
        let m1 = lemma_member_additions_apply(raw, doc, m0, sm, tm, (n - 1) as nat);
        lemma_obj_find_sorted(tm, k);
        lemma_apply_patch_append(prev, step, doc);
        if obj_get(sm, k) is None {
            let d1 = update_at(doc, t, JsonV::Object(m1));
            lemma_resolve_update_at(doc, t, JsonV::Object(m1));
            lemma_member_tokens(raw, k);
            lemma_path_of_tokens(raw.push(escape_key(k)));
            lemma_apply_add_member(raw, k, tv, d1, m1);
            lemma_apply_patch_single(add, d1);
            let mm = obj_insert(m1, k, tv);
            lemma_update_at_twice(doc, t, JsonV::Object(m1), JsonV::Object(mm));
            lemma_obj_insert_sorted(m1, k, tv);
            assert forall|q: Seq<char>| #[trigger] obj_get(mm, q) == after_additions(m0, sm, tm, n, q) by {
                lemma_obj_get_insert(m1, k, tv, q);
                lemma_obj_find_sorted(tm, q);
                assert(obj_get(m1, q) == after_additions(m0, sm, tm, (n - 1) as nat, q));
            }
            mm
        } else {
            assert(spec_apply_patch(step, update_at(doc, t, JsonV::Object(m1))) == Ok::<JsonV, ErrV>(
                update_at(doc, t, JsonV::Object(m1)),
            ));
            assert forall|q: Seq<char>| #[trigger] obj_get(m1, q) == after_additions(m0, sm, tm, n, q) by {
                lemma_obj_find_sorted(tm, q);
            }
            m1
        }
    }
}

/// The operations that turn one array into another, applied where `raw`
/// reaches the first.
proof fn lemma_array_diff_applies(raw: Seq<Seq<char>>, doc: JsonV, sa: Seq<JsonV>, ta: Seq<JsonV>) -> (w: JsonV)
    requires
        plain_tokens(raw),
        resolve(doc, decoded(raw)) == Some(JsonV::Array(sa)),
        JsonV::Array(sa).wf(),
        JsonV::Array(ta).wf(),
        JsonV::Array(sa).arrays_fit(),
        JsonV::Array(ta).arrays_fit(),
    ensures
        spec_apply_patch(spec_rec_diff(path_of(raw), JsonV::Array(sa), JsonV::Array(ta)), doc) == Ok::<JsonV, ErrV>(
            update_at(doc, decoded(raw), w),
        ),
        !patch_panics(spec_rec_diff(path_of(raw), JsonV::Array(sa), JsonV::Array(ta)), doc),
        w.same(JsonV::Array(ta)),
    decreases sa, sa.len() + 1,
{
    let p = path_of(raw);
    let t = decoded(raw);
    lemma_fits_array(JsonV::Array(sa));
    lemma_fits_array(JsonV::Array(ta));
    let prefix = common_prefix_from(sa, ta, 0);
    lemma_common_prefix(sa, ta, 0);
    let suffix = common_suffix_from(sa, ta, prefix, 0);
    lemma_common_suffix(sa, ta, prefix, 0);
    let smid = (sa.len() - prefix - suffix) as nat;
    let tmid = (ta.len() - prefix - suffix) as nat;
    let paired = if smid < tmid {
        smid
    } else {
        tmid
    };
    let a = diff_elements(p, sa, ta, prefix, paired);
    let b = removed_elements(p, prefix + tmid, prefix + smid);
    let c = added_elements(p, ta, prefix + smid, prefix + tmid);
    assert(spec_rec_diff(p, JsonV::Array(sa), JsonV::Array(ta)) == a + b + c);
    let x1 = lemma_elements_apply(raw, doc, sa, ta, prefix, paired);
    let d1 = update_at(doc, t, JsonV::Array(x1));
    lemma_resolve_update_at(doc, t, JsonV::Array(x1));
    lemma_apply_patch_append(a, b, doc);
    lemma_apply_patch_append(a + b, c, doc);
    if smid > tmid {
        lemma_removals_apply(raw, d1, x1, prefix + tmid, prefix + smid);
        let x2 = x1.take((prefix + tmid) as int) + x1.skip((prefix + smid) as int);
        lemma_update_at_twice(doc, t, JsonV::Array(x1), JsonV::Array(x2));
        assert(c == Seq::<OpV>::empty());
        let d2 = update_at(doc, t, JsonV::Array(x2));
        assert(spec_apply_patch(c, d2) == Ok::<JsonV, ErrV>(d2));
        assert(!patch_panics(c, d2));
        assert forall|j: int| 0 <= j < ta.len() implies (#[trigger] x2[j]).same(ta[j]) by {
            if j >= prefix + tmid {
                let u = j - prefix - tmid;
                let s = suffix - 1 - u;
                assert(from_end(sa, s).same(from_end(ta, s)));
                assert(x2[j] == x1[j + smid - tmid]);
            } else {
                assert(x2[j] == x1[j]);
            }
        }
        lemma_same_arrays(x2, ta);
        JsonV::Array(x2)
    } else {
        assert(b == Seq::<OpV>::empty());
        assert(spec_apply_patch(b, d1) == Ok::<JsonV, ErrV>(d1));
        assert(!patch_panics(b, d1));
        lemma_additions_apply(raw, d1, x1, ta, prefix + smid, prefix + tmid);
        let x2 = x1.take((prefix + smid) as int) + ta.subrange((prefix + smid) as int, (prefix + tmid) as int)
            + x1.skip((prefix + smid) as int);
        lemma_update_at_twice(doc, t, JsonV::Array(x1), JsonV::Array(x2));
        assert forall|j: int| 0 <= j < ta.len() implies (#[trigger] x2[j]).same(ta[j]) by {
            if j >= prefix + tmid {
                let u = j - prefix - tmid;
                let s = suffix - 1 - u;
                assert(from_end(sa, s).same(from_end(ta, s)));
                assert(x2[j] == x1[j + smid - tmid]);
            } else if j < prefix + smid {
                assert(x2[j] == x1[j]);
            } else {
                assert(x2[j] == ta[j]);
            }
        }
        lemma_same_arrays(x2, ta);
        JsonV::Array(x2)
    }
}

/// The diffs of the `n` elements from `start` on, applied where `raw` reaches
/// the source array.
proof fn lemma_elements_apply(
    raw: Seq<Seq<char>>,
    doc: JsonV,
    sa: Seq<JsonV>,
    ta: Seq<JsonV>,
    start: nat,
    n: nat,
) -> (x: Seq<JsonV>)
    requires
        plain_tokens(raw),
        resolve(doc, decoded(raw)) == Some(JsonV::Array(sa)),
        JsonV::Array(sa).wf(),
        JsonV::Array(ta).wf(),
        JsonV::Array(sa).arrays_fit(),
        JsonV::Array(ta).arrays_fit(),
        start + n <= sa.len(),
        start + n <= ta.len(),
    ensures
        spec_apply_patch(diff_elements(path_of(raw), sa, ta, start, n), doc) == Ok::<JsonV, ErrV>(
            update_at(doc, decoded(raw), JsonV::Array(x)),
        ),
        !patch_panics(diff_elements(path_of(raw), sa, ta, start, n), doc),
        paired_with(x, sa, ta, start, n),
    decreases sa, n,
{
    let p = path_of(raw);
    let t = decoded(raw);
    lemma_wf_array(JsonV::Array(sa));
    lemma_wf_array(JsonV::Array(ta));
    lemma_fits_array(JsonV::Array(sa));
    lemma_fits_array(JsonV::Array(ta));
    if n == 0 {
        lemma_update_at_same(doc, t);
        sa
    } else {
        let i = start + n - 1;
        let prev = diff_elements(p, sa, ta, start, (n - 1) as nat);
        let step = spec_rec_diff(index_path(p, i as nat), sa[i], ta[i]);
        assert(diff_elements(p, sa, ta, start, n) == prev + step);
        let x1 = lemma_elements_apply(raw, doc, sa, ta, start, (n - 1) as nat);
        let d1 = update_at(doc, t, JsonV::Array(x1));
        lemma_resolve_update_at(doc, t, JsonV::Array(x1));
        let iu = i as usize;
        assert(iu as nat == i);
        lemma_index_tokens(raw, iu);
        assert(x1[i] == sa[i]);
        lemma_index_step(d1, t, x1, iu, ta[i]);
        let w = lemma_rec_diff_applies(raw.push(decimal(i as nat)), d1, sa[i], ta[i]);
        lemma_index_step(d1, t, x1, iu, w);
        let x = x1.update(i, w);
        lemma_update_at_twice(doc, t, JsonV::Array(x1), JsonV::Array(x));
        lemma_apply_patch_append(prev, step, doc);
        assert forall|j: int| 0 <= j < x.len() implies if start <= j < start + n {
            (#[trigger] x[j]).same(ta[j])
        } else {
            x[j] == sa[j]
        } by {
            if j != i {
                assert(x[j] == x1[j]);
            }
        }
        x
    }
}

/// Removing the elements from index `hi - 1` down to `lo` of the array `x`
/// that `raw` reaches.
proof fn lemma_removals_apply(raw: Seq<Seq<char>>, doc: JsonV, x: Seq<JsonV>, lo: nat, hi: nat)
    requires
        plain_tokens(raw),
        resolve(doc, decoded(raw)) == Some(JsonV::Array(x)),
        lo <= hi <= x.len(),
        x.len() <= usize::MAX,
    ensures
        spec_apply_patch(removed_elements(path_of(raw), lo, hi), doc) == Ok::<JsonV, ErrV>(
            update_at(doc, decoded(raw), JsonV::Array(x.take(lo as int) + x.skip(hi as int))),
        ),
        !patch_panics(removed_elements(path_of(raw), lo, hi), doc),
    decreases hi,
{
    let p = path_of(raw);
    let t = decoded(raw);
    if hi <= lo {
        assert(x.take(lo as int) + x.skip(hi as int) =~= x);
        lemma_update_at_same(doc, t);
    } else {
        let i = (hi - 1) as usize;
        let op = OpV::Remove { path: index_path(p, (hi - 1) as nat) };
        let first = seq![op];
        let rest = removed_elements(p, lo, (hi - 1) as nat);
        assert(removed_elements(p, lo, hi) == first + rest);
        lemma_index_tokens(raw, i);
        lemma_apply_remove_index(raw, i, doc, x);
        lemma_apply_patch_single(op, doc);
        let x1 = x.remove(i as int);
        let d1 = update_at(doc, t, JsonV::Array(x1));
        lemma_resolve_update_at(doc, t, JsonV::Array(x1));
        lemma_removals_apply(raw, d1, x1, lo, (hi - 1) as nat);
        let x2 = x1.take(lo as int) + x1.skip(hi - 1);
        lemma_update_at_twice(doc, t, JsonV::Array(x1), JsonV::Array(x2));
        assert(x2 =~= x.take(lo as int) + x.skip(hi as int));
        lemma_apply_patch_append(first, rest, doc);
    }
}

/// Adding the target's elements at the indices from `lo` up to `hi - 1` to
/// the array `x` that `raw` reaches.
proof fn lemma_additions_apply(raw: Seq<Seq<char>>, doc: JsonV, x: Seq<JsonV>, ta: Seq<JsonV>, lo: nat, hi: nat)
    requires
        plain_tokens(raw),
        resolve(doc, decoded(raw)) == Some(JsonV::Array(x)),
        lo <= x.len(),
        lo <= hi <= ta.len(),
        ta.len() <= usize::MAX,
    ensures
        spec_apply_patch(added_elements(path_of(raw), ta, lo, hi), doc) == Ok::<JsonV, ErrV>(
            update_at(doc, decoded(raw), JsonV::Array(x.take(lo as int) + ta.subrange(lo as int, hi as int) + x.skip(lo as int))),
        ),
        !patch_panics(added_elements(path_of(raw), ta, lo, hi), doc),
    decreases hi,
{
    let p = path_of(raw);
    let t = decoded(raw);
    if hi <= lo {
        assert(x.take(lo as int) + ta.subrange(lo as int, hi as int) + x.skip(lo as int) =~= x);
        lemma_update_at_same(doc, t);
    } else {
        let i = (hi - 1) as usize;
        let op = OpV::Add { path: index_path(p, (hi - 1) as nat), value: ta[hi - 1] };
        let prev = added_elements(p, ta, lo, (hi - 1) as nat);
        let last = seq![op];
        assert(added_elements(p, ta, lo, hi) == prev + last);
        lemma_additions_apply(raw, doc, x, ta, lo, (hi - 1) as nat);
        let y = x.take(lo as int) + ta.subrange(lo as int, hi - 1) + x.skip(lo as int);
        let d1 = update_at(doc, t, JsonV::Array(y));
        lemma_resolve_update_at(doc, t, JsonV::Array(y));
        lemma_index_tokens(raw, i);
        lemma_apply_add_index(raw, i, ta[hi - 1], d1, y);
        lemma_apply_patch_single(op, d1);
        let y2 = y.insert(i as int, ta[hi - 1]);
        lemma_update_at_twice(doc, t, JsonV::Array(y), JsonV::Array(y2));
        assert(y2 =~= x.take(lo as int) + ta.subrange(lo as int, hi as int) + x.skip(lo as int));
        lemma_apply_patch_append(prev, last, doc);
    }
}

/// A generated patch carries well-formed values and, applied to its source,
/// gives a document equal to its target as a JSON value, reaching no operation
/// that cannot run: `Patch::apply` takes it and returns that document. Keys with
/// `~` or `/` in them are no exception: the paths carry them escaped, and every
/// operation undoes the escapes. (Equality as JSON values is all a patch can
/// give: values that are equal so, such as `0.0` and `-0.0`, are left alone.)
pub proof fn lemma_diff_round_trip(source: Json, target: Json)
    requires
        source.wf(),
        target.wf(),
    ensures
        spec_apply_patch(spec_diff(source.model(), target.model()), source.model()) matches Ok(d) && d.same(
            target.model(),
        ),
        !patch_panics(spec_diff(source.model(), target.model()), source.model()),
        ops_wf(spec_diff(source.model(), target.model())),
{
    lemma_diff_only_edits(source.model(), target.model());
    let s = source.model();
    let t = target.model();
    lemma_model_fits(source);
    lemma_model_fits(target);
    if !s.same(t) {
        let raw = Seq::<Seq<char>>::empty();
        assert(decoded(raw) =~= Seq::<Seq<char>>::empty());
        assert(path_of(raw) == Seq::<char>::empty());
        lemma_rec_diff_applies(raw, s, s, t);
    }
}

/// Equal documents give the empty patch.
pub proof fn lemma_diff_of_equal(doc: JsonV)
    ensures
        spec_diff(doc, doc) == Seq::<OpV>::empty(),
{
}

/// Whether an operation is an `add`, a `remove` or a `replace`.
pub open spec fn is_edit(op: OpV) -> bool {
    op is Add || op is Remove || op is Replace
}

/// Whether every operation of `ops` is an `add`, a `remove` or a `replace`.
pub open spec fn only_edits(ops: Seq<OpV>) -> bool {
    forall|i: int| 0 <= i < ops.len() ==> is_edit(#[trigger] ops[i])
}

proof fn lemma_only_edits_join(a: Seq<OpV>, b: Seq<OpV>)
    requires
        only_edits(a),
        only_edits(b),
    ensures
        only_edits(a + b),
        ops_wf(a) && ops_wf(b) ==> ops_wf(a + b),
{
    assert forall|i: int| 0 <= i < (a + b).len() implies is_edit(#[trigger] (a + b)[i]) && (ops_wf(a) && ops_wf(
        b,
    ) ==> (a + b)[i].wf()) by {
        if i < a.len() {
            assert((a + b)[i] == a[i]);
        } else {
            assert((a + b)[i] == b[i - a.len()]);
        }
    }
}

/// A generated patch uses only `add`, `remove` and `replace` operations, and
/// the values that it carries are parts of the target, well formed where the
/// target is.
pub proof fn lemma_diff_only_edits(source: JsonV, target: JsonV)
    ensures
        only_edits(spec_diff(source, target)),
        target.wf() ==> ops_wf(spec_diff(source, target)),
{
    if source != target {
        lemma_rec_diff_edits(Seq::empty(), source, target);
    }
}

proof fn lemma_rec_diff_edits(path: Seq<char>, source: JsonV, target: JsonV)
    ensures
        only_edits(spec_rec_diff(path, source, target)),
        target.wf() ==> ops_wf(spec_rec_diff(path, source, target)),
    decreases source, 1nat,
{
    match source {
        JsonV::Object(sm) => {
            if let JsonV::Object(tm) = target {
                if target.wf() {
                    lemma_wf_object(target);
                }
                lemma_members_edits(path, sm, tm, sm.len());
                lemma_member_additions_edits(path, sm, tm, tm.len());
                lemma_only_edits_join(diff_members(path, sm, tm, sm.len()), added_members(path, sm, tm, tm.len()));
            }
        },
        JsonV::Array(sa) => {
            if let JsonV::Array(ta) = target {
                lemma_array_edits(path, sa, ta);
            }
        },
        _ => {},
    }
}

proof fn lemma_array_edits(path: Seq<char>, sa: Seq<JsonV>, ta: Seq<JsonV>)
    ensures
        only_edits(spec_rec_diff(path, JsonV::Array(sa), JsonV::Array(ta))),
        JsonV::Array(ta).wf() ==> ops_wf(spec_rec_diff(path, JsonV::Array(sa), JsonV::Array(ta))),
    decreases sa, sa.len() + 1,
{
    let prefix = common_prefix_from(sa, ta, 0);
    let suffix = common_suffix_from(sa, ta, prefix, 0);
    lemma_common_prefix(sa, ta, 0);
    lemma_common_suffix(sa, ta, prefix, 0);
    let smid = (sa.len() - prefix - suffix) as nat;
    let tmid = (ta.len() - prefix - suffix) as nat;
    let paired = if smid < tmid {
        smid
    } else {
        tmid
    };
    let a = diff_elements(path, sa, ta, prefix, paired);
    let b = removed_elements(path, prefix + tmid, prefix + smid);
    let c = added_elements(path, ta, prefix + smid, prefix + tmid);
    lemma_elements_edits(path, sa, ta, prefix, paired);
    lemma_removals_edits(path, prefix + tmid, prefix + smid);
    lemma_element_additions_edits(path, ta, prefix + smid, prefix + tmid);
    lemma_only_edits_join(a, b);
    lemma_only_edits_join(a + b, c);
}

proof fn lemma_members_edits(path: Seq<char>, sm: Seq<(Seq<char>, JsonV)>, tm: Seq<(Seq<char>, JsonV)>, n: nat)
    ensures
        only_edits(diff_members(path, sm, tm, n)),
        JsonV::Object(tm).wf() ==> ops_wf(diff_members(path, sm, tm, n)),
    decreases sm, n,
{
    if JsonV::Object(tm).wf() {
        lemma_wf_object(JsonV::Object(tm));
    }
    if n > 0 && n <= sm.len() {
        let k = sm[n - 1].0;
        let mp = member_path(path, k);
        lemma_members_edits(path, sm, tm, (n - 1) as nat);
        let step = match obj_get(tm, k) {
            Some(tv) => {
                if JsonV::Object(tm).wf() {
                    lemma_obj_find_sorted(tm, k);
                    let j = obj_find(tm, k).unwrap();
                    assert(tv == tm[j].1);
                    assert(tv.wf());
                }
                lemma_rec_diff_edits(mp, sm[n - 1].1, tv);
                spec_rec_diff(mp, sm[n - 1].1, tv)
            },
            None => seq![OpV::Remove { path: mp }],
        };
        assert(only_edits(step));
        lemma_only_edits_join(diff_members(path, sm, tm, (n - 1) as nat), step);
    }
}

proof fn lemma_elements_edits(path: Seq<char>, sa: Seq<JsonV>, ta: Seq<JsonV>, start: nat, n: nat)
    ensures
        only_edits(diff_elements(path, sa, ta, start, n)),
        JsonV::Array(ta).wf() ==> ops_wf(diff_elements(path, sa, ta, start, n)),
    decreases sa, n,
{
    if JsonV::Array(ta).wf() {
        lemma_wf_array(JsonV::Array(ta));
    }
    if n > 0 && start + n <= sa.len() && start + n <= ta.len() {
        let i = start + n - 1;
        lemma_elements_edits(path, sa, ta, start, (n - 1) as nat);
        if JsonV::Array(ta).wf() {
            assert(JsonV::Array(ta)->Array_0[i].wf());
        }
        lemma_rec_diff_edits(index_path(path, i as nat), sa[i], ta[i]);
        lemma_only_edits_join(
            diff_elements(path, sa, ta, start, (n - 1) as nat),
            spec_rec_diff(index_path(path, i as nat), sa[i], ta[i]),
        );
    }
}

proof fn lemma_member_additions_edits(path: Seq<char>, sm: Seq<(Seq<char>, JsonV)>, tm: Seq<(Seq<char>, JsonV)>, n: nat)
    ensures
        only_edits(added_members(path, sm, tm, n)),
        JsonV::Object(tm).wf() ==> ops_wf(added_members(path, sm, tm, n)),
    decreases n,
{
    if JsonV::Object(tm).wf() {
        lemma_wf_object(JsonV::Object(tm));
    }
    if n > 0 && n <= tm.len() {
        lemma_member_additions_edits(path, sm, tm, (n - 1) as nat);
        let k = tm[n - 1].0;
        let step = if obj_get(sm, k) is None {
            seq![OpV::Add { path: member_path(path, k), value: tm[n - 1].1 }]
        } else {
            Seq::<OpV>::empty()
        };
        assert(only_edits(step));
        lemma_only_edits_join(added_members(path, sm, tm, (n - 1) as nat), step);
    }
}

proof fn lemma_removals_edits(path: Seq<char>, lo: nat, hi: nat)
    ensures
        only_edits(removed_elements(path, lo, hi)),
        ops_wf(removed_elements(path, lo, hi)),
    decreases hi,
{
    if hi > lo {
        lemma_removals_edits(path, lo, (hi - 1) as nat);
        let first = seq![OpV::Remove { path: index_path(path, (hi - 1) as nat) }];
        assert(only_edits(first));
        lemma_only_edits_join(first, removed_elements(path, lo, (hi - 1) as nat));
    }
}

proof fn lemma_element_additions_edits(path: Seq<char>, ta: Seq<JsonV>, lo: nat, hi: nat)
    ensures
        only_edits(added_elements(path, ta, lo, hi)),
        JsonV::Array(ta).wf() ==> ops_wf(added_elements(path, ta, lo, hi)),
    decreases hi,
{
    if JsonV::Array(ta).wf() {
        lemma_wf_array(JsonV::Array(ta));
    }
    if hi > lo && hi <= ta.len() {
        lemma_element_additions_edits(path, ta, lo, (hi - 1) as nat);
        let last = seq![OpV::Add { path: index_path(path, (hi - 1) as nat), value: ta[hi - 1] }];
        assert(only_edits(last));
        if JsonV::Array(ta).wf() {
            assert(JsonV::Array(ta)->Array_0[hi - 1].wf());
            assert(ops_wf(last));
        }
        lemma_only_edits_join(added_elements(path, ta, lo, (hi - 1) as nat), last);
    }
}

/// Whether `q` begins with `p`.
pub open spec fn extends(q: Seq<char>, p: Seq<char>) -> bool {
    p.len() <= q.len() && q.take(p.len() as int) == p
}

/// Whether the path of every operation of `ops` begins with `p`.
pub open spec fn all_below(ops: Seq<OpV>, p: Seq<char>) -> bool {
    forall|i: int| 0 <= i < ops.len() ==> extends((#[trigger] ops[i]).path(), p)
}

proof fn lemma_below_join(a: Seq<OpV>, b: Seq<OpV>, p: Seq<char>)
    requires
        all_below(a, p),
        all_below(b, p),
    ensures
        all_below(a + b, p),
{
    assert forall|i: int| 0 <= i < (a + b).len() implies extends((#[trigger] (a + b)[i]).path(), p) by {
        if i < a.len() {
            assert((a + b)[i] == a[i]);
        } else {
            assert((a + b)[i] == b[i - a.len()]);
        }
    }
}

proof fn lemma_extends_trans(r: Seq<char>, q: Seq<char>, p: Seq<char>)
    requires
        extends(r, q),
        extends(q, p),
    ensures
        extends(r, p),
{
    assert forall|j: int| 0 <= j < p.len() implies #[trigger] r.take(p.len() as int)[j] == p[j] by {
        assert(r.take(q.len() as int)[j] == q[j]);
        assert(q.take(p.len() as int)[j] == p[j]);
    }
    assert(r.take(p.len() as int) =~= p);
}

proof fn lemma_below_weaken(ops: Seq<OpV>, q: Seq<char>, p: Seq<char>)
    requires
        all_below(ops, q),
        extends(q, p),
    ensures
        all_below(ops, p),
{
    assert forall|i: int| 0 <= i < ops.len() implies extends((#[trigger] ops[i]).path(), p) by {
        lemma_extends_trans(ops[i].path(), q, p);
    }
}

proof fn lemma_child_paths(path: Seq<char>, k: Seq<char>, i: nat)
    ensures
        extends(member_path(path, k), path + seq!['/']),
        extends(index_path(path, i), path + seq!['/']),
        extends(path + seq!['/'], path),
{
    assert(member_path(path, k).take((path + seq!['/']).len() as int) =~= path + seq!['/']);
    assert(index_path(path, i).take((path + seq!['/']).len() as int) =~= path + seq!['/']);
    assert((path + seq!['/']).take(path.len() as int) =~= path);
}

proof fn lemma_rec_diff_paths(path: Seq<char>, source: JsonV, target: JsonV)
    ensures
        all_below(spec_rec_diff(path, source, target), path),
    decreases source, 1nat,
{
    lemma_child_paths(path, Seq::empty(), 0);
    match source {
        JsonV::Object(sm) => {
            if let JsonV::Object(tm) = target {
                lemma_members_paths(path, sm, tm, sm.len());
                lemma_member_additions_paths(path, sm, tm, tm.len());
                lemma_below_join(diff_members(path, sm, tm, sm.len()), added_members(path, sm, tm, tm.len()), path + seq!['/']);
                lemma_below_weaken(spec_rec_diff(path, source, target), path + seq!['/'], path);
            } else {
                assert(path.take(path.len() as int) =~= path);
            }
        },
        JsonV::Array(sa) => {
            if let JsonV::Array(ta) = target {
                lemma_array_paths(path, sa, ta);
                lemma_below_weaken(spec_rec_diff(path, source, target), path + seq!['/'], path);
            } else {
                assert(path.take(path.len() as int) =~= path);
            }
        },
        _ => {
            assert(path.take(path.len() as int) =~= path);
        },
    }
}

proof fn lemma_array_paths(path: Seq<char>, sa: Seq<JsonV>, ta: Seq<JsonV>)
    ensures
        all_below(spec_rec_diff(path, JsonV::Array(sa), JsonV::Array(ta)), path + seq!['/']),
    decreases sa, sa.len() + 1,
{
    let prefix = common_prefix_from(sa, ta, 0);
    let suffix = common_suffix_from(sa, ta, prefix, 0);
    lemma_common_prefix(sa, ta, 0);
    lemma_common_suffix(sa, ta, prefix, 0);
    let smid = (sa.len() - prefix - suffix) as nat;
    let tmid = (ta.len() - prefix - suffix) as nat;
    let paired = if smid < tmid {
        smid
    } else {
        tmid
    };
    let a = diff_elements(path, sa, ta, prefix, paired);
    let b = removed_elements(path, prefix + tmid, prefix + smid);
    let c = added_elements(path, ta, prefix + smid, prefix + tmid);
    lemma_elements_paths(path, sa, ta, prefix, paired);
    lemma_removals_paths(path, prefix + tmid, prefix + smid);
    lemma_element_additions_paths(path, ta, prefix + smid, prefix + tmid);
    lemma_below_join(a, b, path + seq!['/']);
    lemma_below_join(a + b, c, path + seq!['/']);
}

proof fn lemma_members_paths(path: Seq<char>, sm: Seq<(Seq<char>, JsonV)>, tm: Seq<(Seq<char>, JsonV)>, n: nat)
    ensures
        all_below(diff_members(path, sm, tm, n), path + seq!['/']),
    decreases sm, n,
{
    if n > 0 && n <= sm.len() {
        let k = sm[n - 1].0;
        let mp = member_path(path, k);
        lemma_members_paths(path, sm, tm, (n - 1) as nat);
        lemma_child_paths(path, k, 0);
        let step = match obj_get(tm, k) {
            Some(tv) => {
                lemma_rec_diff_paths(mp, sm[n - 1].1, tv);
                lemma_below_weaken(spec_rec_diff(mp, sm[n - 1].1, tv), mp, path + seq!['/']);
                spec_rec_diff(mp, sm[n - 1].1, tv)
            },
            None => seq![OpV::Remove { path: mp }],
        };
        assert(all_below(step, path + seq!['/']));
        lemma_below_join(diff_members(path, sm, tm, (n - 1) as nat), step, path + seq!['/']);
    }
}

proof fn lemma_elements_paths(path: Seq<char>, sa: Seq<JsonV>, ta: Seq<JsonV>, start: nat, n: nat)
    ensures
        all_below(diff_elements(path, sa, ta, start, n), path + seq!['/']),
    decreases sa, n,
{
    if n > 0 && start + n <= sa.len() && start + n <= ta.len() {
        let i = start + n - 1;
        let ip = index_path(path, i as nat);
        lemma_elements_paths(path, sa, ta, start, (n - 1) as nat);
        lemma_child_paths(path, Seq::empty(), i as nat);
        lemma_rec_diff_paths(ip, sa[i], ta[i]);
        lemma_below_weaken(spec_rec_diff(ip, sa[i], ta[i]), ip, path + seq!['/']);
        lemma_below_join(diff_elements(path, sa, ta, start, (n - 1) as nat), spec_rec_diff(ip, sa[i], ta[i]), path + seq!['/']);
    }
}

proof fn lemma_member_additions_paths(path: Seq<char>, sm: Seq<(Seq<char>, JsonV)>, tm: Seq<(Seq<char>, JsonV)>, n: nat)
    ensures
        all_below(added_members(path, sm, tm, n), path + seq!['/']),
    decreases n,
{
    if n > 0 && n <= tm.len() {
        lemma_member_additions_paths(path, sm, tm, (n - 1) as nat);
        let k = tm[n - 1].0;
        lemma_child_paths(path, k, 0);
        let step = if obj_get(sm, k) is None {
            seq![OpV::Add { path: member_path(path, k), value: tm[n - 1].1 }]
        } else {
            Seq::<OpV>::empty()
        };
        assert(all_below(step, path + seq!['/']));
        lemma_below_join(added_members(path, sm, tm, (n - 1) as nat), step, path + seq!['/']);
    }
}

proof fn lemma_removals_paths(path: Seq<char>, lo: nat, hi: nat)
    ensures
        all_below(removed_elements(path, lo, hi), path + seq!['/']),
    decreases hi,
{
    if hi > lo {
        lemma_removals_paths(path, lo, (hi - 1) as nat);
        lemma_child_paths(path, Seq::empty(), (hi - 1) as nat);
        let first = seq![OpV::Remove { path: index_path(path, (hi - 1) as nat) }];
        assert(all_below(first, path + seq!['/']));
        lemma_below_join(first, removed_elements(path, lo, (hi - 1) as nat), path + seq!['/']);
    }
}

proof fn lemma_element_additions_paths(path: Seq<char>, ta: Seq<JsonV>, lo: nat, hi: nat)
    ensures
        all_below(added_elements(path, ta, lo, hi), path + seq!['/']),
    decreases hi,
{
    if hi > lo && hi <= ta.len() {
        lemma_element_additions_paths(path, ta, lo, (hi - 1) as nat);
        lemma_child_paths(path, Seq::empty(), (hi - 1) as nat);
        let last = seq![OpV::Add { path: index_path(path, (hi - 1) as nat), value: ta[hi - 1] }];
        assert(all_below(last, path + seq!['/']));
        lemma_below_join(added_elements(path, ta, lo, (hi - 1) as nat), last, path + seq!['/']);
    }
}

/// Every operation that the members `0..n` of the source object give, where the
/// target lacks one of them, includes its removal at its member path.
proof fn lemma_members_removals(path: Seq<char>, sm: Seq<(Seq<char>, JsonV)>, tm: Seq<(Seq<char>, JsonV)>, n: nat)
    requires
        n <= sm.len(),
    ensures
        forall|j: int|
            0 <= j < n && obj_get(tm, #[trigger] sm[j].0) is None ==> diff_members(path, sm, tm, n).contains(
                OpV::Remove { path: member_path(path, sm[j].0) },
            ),
    decreases n,
{
    if n > 0 {
        lemma_members_removals(path, sm, tm, (n - 1) as nat);
        let prev = diff_members(path, sm, tm, (n - 1) as nat);
        let k = sm[n - 1].0;
        let step = match obj_get(tm, k) {
            Some(tv) => spec_rec_diff(member_path(path, k), sm[n - 1].1, tv),
            None => seq![OpV::Remove { path: member_path(path, k) }],
        };
        let all = diff_members(path, sm, tm, n);
        assert(all == prev + step);
        assert forall|j: int|
            0 <= j < n && obj_get(tm, #[trigger] sm[j].0) is None implies all.contains(
                OpV::Remove { path: member_path(path, sm[j].0) },
            ) by {
            let x = OpV::Remove { path: member_path(path, sm[j].0) };
            if j < n - 1 {
                let w = choose|w: int| 0 <= w < prev.len() && prev[w] == x;
                assert(all[w] == x);
            } else {
                assert(all[prev.len() as int] == x);
            }
        }
    }
}

/// Every addition that the members `0..n` of the target object give, where the
/// source lacks one of them, is an `add` of its value at its member path.
proof fn lemma_members_additions(path: Seq<char>, sm: Seq<(Seq<char>, JsonV)>, tm: Seq<(Seq<char>, JsonV)>, n: nat)
    requires
        n <= tm.len(),
    ensures
        forall|j: int|
            0 <= j < n && obj_get(sm, #[trigger] tm[j].0) is None ==> added_members(path, sm, tm, n).contains(
                OpV::Add { path: member_path(path, tm[j].0), value: tm[j].1 },
            ),
    decreases n,
{
    if n > 0 {
        lemma_members_additions(path, sm, tm, (n - 1) as nat);
        let prev = added_members(path, sm, tm, (n - 1) as nat);
        let k = tm[n - 1].0;
        let step = if obj_get(sm, k) is None {
            seq![OpV::Add { path: member_path(path, k), value: tm[n - 1].1 }]
        } else {
            Seq::<OpV>::empty()
        };
        let all = added_members(path, sm, tm, n);
        assert(all == prev + step);
        assert forall|j: int|
            0 <= j < n && obj_get(sm, #[trigger] tm[j].0) is None implies all.contains(
                OpV::Add { path: member_path(path, tm[j].0), value: tm[j].1 },
            ) by {
            let x = OpV::Add { path: member_path(path, tm[j].0), value: tm[j].1 };
            if j < n - 1 {
                let w = choose|w: int| 0 <= w < prev.len() && prev[w] == x;
                assert(all[w] == x);
            } else {
                assert(all[prev.len() as int] == x);
            }
        }
    }
}

/// The diff of two objects is made member by member, never at the object's own
/// path: every operation lies below a member of it; each member of the source
/// that the target lacks is removed at its member path, and each member of the
/// target that the source lacks is added there with its value. Only the paths
/// of the members that both hold are diffed further.
pub proof fn lemma_object_diff(path: Seq<char>, sm: Seq<(Seq<char>, JsonV)>, tm: Seq<(Seq<char>, JsonV)>)
    ensures
        all_below(spec_rec_diff(path, JsonV::Object(sm), JsonV::Object(tm)), path + seq!['/']),
        forall|k: Seq<char>|
            obj_get(sm, k) is Some && obj_get(tm, k) is None ==> #[trigger] spec_rec_diff(
                path,
                JsonV::Object(sm),
                JsonV::Object(tm),
            ).contains(OpV::Remove { path: member_path(path, k) }),
        forall|k: Seq<char>|
            obj_get(tm, k) is Some && obj_get(sm, k) is None ==> #[trigger] spec_rec_diff(
                path,
                JsonV::Object(sm),
                JsonV::Object(tm),
            ).contains(OpV::Add { path: member_path(path, k), value: obj_get(tm, k).unwrap() }),
{
    let a = diff_members(path, sm, tm, sm.len());
    let b = added_members(path, sm, tm, tm.len());
    let ops = spec_rec_diff(path, JsonV::Object(sm), JsonV::Object(tm));
    assert(ops == a + b);
    lemma_members_paths(path, sm, tm, sm.len());
    lemma_member_additions_paths(path, sm, tm, tm.len());
    lemma_below_join(a, b, path + seq!['/']);
    lemma_members_removals(path, sm, tm, sm.len());
    lemma_members_additions(path, sm, tm, tm.len());
    assert forall|k: Seq<char>| obj_get(sm, k) is Some && obj_get(tm, k) is None implies #[trigger] spec_rec_diff(
        path,
        JsonV::Object(sm),
        JsonV::Object(tm),
    ).contains(OpV::Remove { path: member_path(path, k) }) by {
        let j = obj_find(sm, k).unwrap();
        assert(sm[j].0 == k);
        let x = OpV::Remove { path: member_path(path, k) };
        let w = choose|w: int| 0 <= w < a.len() && a[w] == x;
        assert(ops[w] == x);
    }
    assert forall|k: Seq<char>| obj_get(tm, k) is Some && obj_get(sm, k) is None implies #[trigger] spec_rec_diff(
        path,
        JsonV::Object(sm),
        JsonV::Object(tm),
    ).contains(OpV::Add { path: member_path(path, k), value: obj_get(tm, k).unwrap() }) by {
        let j = obj_find(tm, k).unwrap();
        assert(tm[j].0 == k);
        let x = OpV::Add { path: member_path(path, k), value: tm[j].1 };
        let w = choose|w: int| 0 <= w < b.len() && b[w] == x;
        assert(ops[a.len() + w] == x);
    }
}

} // verus!

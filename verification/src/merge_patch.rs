//! JSON Merge Patch support (RFC 7396).
//!
//! An object patch adds, replaces, recursively patches or removes members of
//! the target: a `null` member removes the member of the same key. A patch that
//! is not an object replaces the whole target, arrays included.
use vstd::prelude::*;

use crate::json::{
    entries_model, lemma_obj_extensional, lemma_obj_find_sorted, lemma_obj_get_insert,
    lemma_obj_get_remove, lemma_obj_get_sorted, lemma_obj_insert_sorted, lemma_obj_insert_wf,
    lemma_obj_pos, lemma_obj_remove_sorted, lemma_obj_remove_wf, lemma_wf_object, member_position,
    member_remove, obj_find, obj_get, obj_insert, obj_remove, sorted_keys, Json, JsonV,
};

verus! {

/// The document after merging `patch` into `target`.
pub open spec fn spec_merge(target: JsonV, patch: JsonV) -> JsonV
    decreases patch, 0nat,
{
    match patch {
        JsonV::Object(ps) => {
            let base = match target {
                JsonV::Object(m) => m,
                _ => Seq::empty(),
            };
            JsonV::Object(merge_members(base, ps, ps.len()))
        },
        _ => patch,
    }
}

/// The members `m` after merging the first `n` members of the patch `ps`, in order.
pub open spec fn merge_members(
    m: Seq<(Seq<char>, JsonV)>,
    ps: Seq<(Seq<char>, JsonV)>,
    n: nat,
) -> Seq<(Seq<char>, JsonV)>
    decreases ps, n,
{
    if n == 0 || n > ps.len() {
        m
    } else {
        let acc = merge_members(m, ps, (n - 1) as nat);
        let k = ps[n - 1].0;
        let pv = ps[n - 1].1;
        if pv is Null {
            obj_remove(acc, k)
        } else {
            obj_insert(acc, k, spec_merge(obj_get(acc, k).unwrap_or(JsonV::Null), pv))
        }
    }
}


/// Applies the merge patch `patch` to `target` in place.
///
/// An object patch is merged member by member into `target`, which is first
/// made an empty object when it is not one: a `null` member removes the member
/// of that key, any other member is merged into the member of that key (a
/// missing member counts as `null`). A patch that is not an object replaces
/// `target` as a whole.
pub fn apply_mut(target: &mut Json, patch: &Json)
    requires
        old(target).wf(),
        patch.wf(),
    ensures
        final(target).model() == spec_merge(old(target).model(), patch.model()),
        final(target).wf(),
    decreases patch,
{
    let ghost t0 = target.model();
    match patch {
        Json::Object(ps) => {
            let ghost pv = entries_model(*ps);
            proof {
                lemma_wf_object(patch.model());
            }
            let mut taken = Json::Null;
            std::mem::swap(target, &mut taken);
            let mut m: Vec<(String, Json)> = match taken {
                Json::Object(m) => m,
                _ => Vec::new(),
            };
            let ghost base = entries_model(m);
            proof {
                if t0 is Object {
                    lemma_wf_object(t0);
                } else {
                    assert(base =~= Seq::<(Seq<char>, JsonV)>::empty());
                }
                lemma_wf_object(JsonV::Object(base));
            }
            let mut i: usize = 0;
            while i < ps.len()
                invariant
                    i <= ps.len(),
                    *patch == Json::Object(*ps),
                    patch.model() == JsonV::Object(entries_model(*ps)),
                    pv == entries_model(*ps),
                    forall|j: int| 0 <= j < pv.len() ==> (#[trigger] pv[j]).1.wf(),
                    entries_model(m) == merge_members(base, pv, i as nat),
                    JsonV::Object(entries_model(m)).wf(),
                decreases ps.len() - i,
            {
                let ghost acc = entries_model(m);
                let key = &ps[i].0;
                let value = &ps[i].1;
                assert(pv[i as int].0 == key@ && pv[i as int].1 == value.model());
                if let Json::Null = value {
                    member_remove(&mut m, key.as_str());
                    proof {
                        lemma_obj_remove_wf(acc, key@);
                    }
                } else {
                    let (p, found) = member_position(&m, key.as_str());
                    proof {
                        lemma_obj_pos(acc, key@);
                        lemma_wf_object(JsonV::Object(acc));
                        crate::json::lemma_obj_find_sorted(acc, key@);
                    }
                    if found {
                        let (k, mut child) = m.remove(p);
                        assert(child.model() == acc[p as int].1);
                        apply_mut(&mut child, value);
                        let ghost merged = child.model();
                        m.insert(p, (k, child));
                        assert(entries_model(m) =~= acc.update(p as int, (acc[p as int].0, merged)));
                        assert(entries_model(m) =~= obj_insert(acc, key@, merged));
                        proof {
                            lemma_obj_insert_wf(acc, key@, merged);
                        }
                    } else {
                        let mut child = Json::Null;
                        apply_mut(&mut child, value);
                        let ghost merged = child.model();
                        m.insert(p, (key.clone(), child));
                        assert(entries_model(m) =~= acc.insert(p as int, (key@, merged)));
                        proof {
                            lemma_obj_insert_wf(acc, key@, merged);
                        }
                    }
                }
                i = i + 1;
            }
            *target = Json::Object(m);
        },
        _ => {
            *target = patch.clone();
        },
    }
}

/// Applies the merge patch `patch` to a copy of `target` and returns it;
/// `target` itself is not changed.
pub fn apply(target: &Json, patch: &Json) -> (r: Json)
    requires
        target.wf(),
        patch.wf(),
    ensures
        r.model() == spec_merge(target.model(), patch.model()),
        r.wf(),
{
    let mut out = target.clone();
    apply_mut(&mut out, patch);
    out
}

/// The members of an object; none for any other value.
pub open spec fn members_of(v: JsonV) -> Seq<(Seq<char>, JsonV)> {
    match v {
        JsonV::Object(m) => m,
        _ => Seq::empty(),
    }
}

/// What the member `q` becomes under the patch member `pv`, from `current`.
pub open spec fn merged_member(current: Option<JsonV>, pv: JsonV) -> Option<JsonV> {
    if pv is Null {
        None
    } else {
        Some(spec_merge(current.unwrap_or(JsonV::Null), pv))
    }
}

proof fn lemma_merge_members_get(m: Seq<(Seq<char>, JsonV)>, ps: Seq<(Seq<char>, JsonV)>, n: nat)
    requires
        sorted_keys(m),
        sorted_keys(ps),
        n <= ps.len(),
    ensures
        sorted_keys(merge_members(m, ps, n)),
        forall|q: Seq<char>| #[trigger] obj_get(merge_members(m, ps, n), q) == match obj_find(ps, q) {
            Some(j) => if j < n {
                merged_member(obj_get(m, q), ps[j].1)
            } else {
                obj_get(m, q)
            },
            None => obj_get(m, q),
        },
    decreases n,
{
    if n > 0 {
        lemma_merge_members_get(m, ps, (n - 1) as nat);
        let acc = merge_members(m, ps, (n - 1) as nat);
        let k = ps[n - 1].0;
        let pv = ps[n - 1].1;
        lemma_obj_find_sorted(ps, k);
        assert(obj_get(acc, k) == obj_get(m, k));
        if pv is Null {
            lemma_obj_remove_sorted(acc, k);
        } else {
            lemma_obj_insert_sorted(acc, k, spec_merge(obj_get(acc, k).unwrap_or(JsonV::Null), pv));
        }
        assert forall|q: Seq<char>| #[trigger] obj_get(merge_members(m, ps, n), q) == match obj_find(ps, q) {
            Some(j) => if j < n {
                merged_member(obj_get(m, q), ps[j].1)
            } else {
                obj_get(m, q)
            },
            None => obj_get(m, q),
        } by {
            lemma_obj_find_sorted(ps, q);
            if pv is Null {
                lemma_obj_get_remove(acc, k, q);
            } else {
                lemma_obj_get_insert(acc, k, spec_merge(obj_get(acc, k).unwrap_or(JsonV::Null), pv), q);
            }
            assert(obj_get(acc, q) == match obj_find(ps, q) {
                Some(j) => if j < n - 1 {
                    merged_member(obj_get(m, q), ps[j].1)
                } else {
                    obj_get(m, q)
                },
                None => obj_get(m, q),
            });
        }
    }
}

/// Merging an object patch gives an object in which a member that the patch
/// sets to `null` is gone, a member that the patch sets to anything else is
/// the target's member (or `null` where the target lacks it) merged with it,
/// and every member that the patch does not name is the target's, unchanged.
/// A target that is not an object counts as an empty object.
pub proof fn lemma_merge_object(target: JsonV, patch: JsonV, q: Seq<char>)
    requires
        target.wf(),
        patch.wf(),
        patch is Object,
    ensures
        spec_merge(target, patch) is Object,
        sorted_keys(members_of(spec_merge(target, patch))),
        obj_get(members_of(spec_merge(target, patch)), q) == match obj_get(members_of(patch), q) {
            Some(pv) => merged_member(obj_get(members_of(target), q), pv),
            None => obj_get(members_of(target), q),
        },
{
    let ps = members_of(patch);
    let base = members_of(target);
    lemma_wf_object(patch);
    if target is Object {
        lemma_wf_object(target);
    }
    lemma_merge_members_get(base, ps, ps.len());
    lemma_obj_find_sorted(ps, q);
    assert(obj_get(merge_members(base, ps, ps.len()), q) == obj_get(members_of(spec_merge(target, patch)), q));
}

/// A patch that is not an object replaces the whole target.
pub proof fn lemma_merge_replaces(target: JsonV, patch: JsonV)
    requires
        !(patch is Object),
    ensures
        spec_merge(target, patch) == patch,
{
}

/// Merging the same patch a second time changes nothing.
pub proof fn lemma_merge_idempotent(target: JsonV, patch: JsonV)
    requires
        target.wf(),
        patch.wf(),
    ensures
        spec_merge(spec_merge(target, patch), patch) == spec_merge(target, patch),
    decreases patch,
{
    if let JsonV::Object(ps) = patch {
        let r = spec_merge(target, patch);
        let rm = members_of(r);
        let r2 = spec_merge(r, patch);
        lemma_wf_object(patch);
        if target is Object {
            lemma_wf_object(target);
        }
        assert forall|q: Seq<char>| obj_get(members_of(r2), q) == obj_get(rm, q) by {
            lemma_merge_members_get(members_of(target), ps, ps.len());
            lemma_merge_members_get(rm, ps, ps.len());
            lemma_obj_find_sorted(ps, q);
            if let Some(j) = obj_find(ps, q) {
                let pv = ps[j].1;
                if !(pv is Null) {
                    let b = obj_get(members_of(target), q).unwrap_or(JsonV::Null);
                    lemma_obj_get_sorted(members_of(target), q);
                    if let Some(i) = obj_find(members_of(target), q) {
                        lemma_obj_find_sorted(members_of(target), q);
                        assert(b == members_of(target)[i].1);
                    }
                    assert(b.wf());
                    assert(decreases_to!(patch => ps));
                    assert(decreases_to!(ps => ps[j]));
                    assert(decreases_to!(ps[j] => ps[j].1));
                    lemma_merge_idempotent(b, pv);
                }
            }
        }
        lemma_merge_members_get(members_of(target), ps, ps.len());
        lemma_merge_members_get(rm, ps, ps.len());
        lemma_obj_extensional(members_of(r2), rm);
    }
}

} // verus!

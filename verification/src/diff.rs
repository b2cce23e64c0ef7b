//! JSON Patch generation: a patch that turns one document into another.
//!
//! Objects are compared member by member, recursively. Arrays keep their
//! common prefix and suffix; the changed middle is diffed element by element
//! where both sides have one, then the surplus is removed or added. Anything
//! else that differs is replaced.
use vstd::prelude::*;

use crate::json::{entries_model, items_model, member_get, obj_get, Json, JsonV};
use crate::patch::operations::{OpV, PatchOperation};
use crate::patch::patch::{ops_wf, Patch};
use crate::pointer::Pointer;
use crate::text::{chars_of, decimal, escape_key, push_decimal, string_of};

verus! {

/// The path of the member `k` below `path`.
pub open spec fn member_path(path: Seq<char>, k: Seq<char>) -> Seq<char> {
    path + seq!['/'] + escape_key(k)
}

/// The path of the element `i` below `path`.
pub open spec fn index_path(path: Seq<char>, i: nat) -> Seq<char> {
    path + seq!['/'] + decimal(i)
}

/// The first index from `i` on at which the arrays differ or one of them ends.
pub open spec fn common_prefix_from(sa: Seq<JsonV>, ta: Seq<JsonV>, i: nat) -> nat
    decreases sa.len() - i,
{
    if i < sa.len() && i < ta.len() && sa[i as int].same(ta[i as int]) {
        common_prefix_from(sa, ta, i + 1)
    } else {
        i
    }
}

/// The number of equal elements at the ends of the arrays, from `s` on, that
/// lie after the first `prefix` elements of both.
pub open spec fn common_suffix_from(sa: Seq<JsonV>, ta: Seq<JsonV>, prefix: nat, s: nat) -> nat
    decreases sa.len() - s,
{
    if s + prefix < sa.len() && s + prefix < ta.len() && sa[sa.len() - 1 - s].same(ta[ta.len() - 1 - s]) {
        common_suffix_from(sa, ta, prefix, s + 1)
    } else {
        s
    }
}

/// The operations that turn `source` into `target`, with paths below `path`.
pub open spec fn spec_rec_diff(path: Seq<char>, source: JsonV, target: JsonV) -> Seq<OpV>
    decreases source, 0nat,
{
    match source {
        JsonV::Object(sm) => match target {
            JsonV::Object(tm) => diff_members(path, sm, tm, sm.len()) + added_members(path, sm, tm, tm.len()),
            _ => seq![OpV::Replace { path, value: target }],
        },
        JsonV::Array(sa) => match target {
            JsonV::Array(ta) => {
                let prefix = common_prefix_from(sa, ta, 0);
                let suffix = common_suffix_from(sa, ta, prefix, 0);
                let smid = (sa.len() - prefix - suffix) as nat;
                let tmid = (ta.len() - prefix - suffix) as nat;
                let paired = if smid < tmid {
                    smid
                } else {
                    tmid
                };
                diff_elements(path, sa, ta, prefix, paired) + removed_elements(path, prefix + tmid, prefix + smid)
                    + added_elements(path, ta, prefix + smid, prefix + tmid)
            },
            _ => seq![OpV::Replace { path, value: target }],
        },
        _ => if !source.same(target) {
            seq![OpV::Replace { path, value: target }]
        } else {
            Seq::empty()
        },
    }
}

/// The operations for the first `n` members of the source object, in order:
/// a member that the target lacks is removed, the others are diffed.
pub open spec fn diff_members(
    path: Seq<char>,
    sm: Seq<(Seq<char>, JsonV)>,
    tm: Seq<(Seq<char>, JsonV)>,
    n: nat,
) -> Seq<OpV>
    decreases sm, n,
{
    if n == 0 || n > sm.len() {
        Seq::empty()
    } else {
        let k = sm[n - 1].0;
        let p = member_path(path, k);
        diff_members(path, sm, tm, (n - 1) as nat) + match obj_get(tm, k) {
            Some(tv) => spec_rec_diff(p, sm[n - 1].1, tv),
            None => seq![OpV::Remove { path: p }],
        }
    }
}

/// The additions for the first `n` members of the target object that the
/// source lacks, in order.
pub open spec fn added_members(
    path: Seq<char>,
    sm: Seq<(Seq<char>, JsonV)>,
    tm: Seq<(Seq<char>, JsonV)>,
    n: nat,
) -> Seq<OpV>
    decreases n,
{
    if n == 0 || n > tm.len() {
        Seq::empty()
    } else {
        let k = tm[n - 1].0;
        added_members(path, sm, tm, (n - 1) as nat) + if obj_get(sm, k) is None {
            seq![OpV::Add { path: member_path(path, k), value: tm[n - 1].1 }]
        } else {
            Seq::empty()
        }
    }
}

/// The diffs of the `n` elements from index `start` on, which both arrays have.
pub open spec fn diff_elements(path: Seq<char>, sa: Seq<JsonV>, ta: Seq<JsonV>, start: nat, n: nat) -> Seq<OpV>
    decreases sa, n,
{
    if n == 0 || start + n > sa.len() || start + n > ta.len() {
        Seq::empty()
    } else {
        let i = start + n - 1;
        diff_elements(path, sa, ta, start, (n - 1) as nat) + spec_rec_diff(index_path(path, i as nat), sa[i], ta[i])
    }
}

/// Removals of the elements at the indices from `hi - 1` down to `lo`.
pub open spec fn removed_elements(path: Seq<char>, lo: nat, hi: nat) -> Seq<OpV>
    decreases hi,
{
    if hi <= lo {
        Seq::empty()
    } else {
        seq![OpV::Remove { path: index_path(path, (hi - 1) as nat) }] + removed_elements(path, lo, (hi - 1) as nat)
    }
}

/// Additions of the target's elements at the indices from `lo` up to `hi - 1`.
pub open spec fn added_elements(path: Seq<char>, ta: Seq<JsonV>, lo: nat, hi: nat) -> Seq<OpV>
    decreases hi,
{
    if hi <= lo || hi > ta.len() {
        Seq::empty()
    } else {
        added_elements(path, ta, lo, (hi - 1) as nat) + seq![OpV::Add { path: index_path(path, (hi - 1) as nat), value: ta[hi - 1] }]
    }
}

/// The patch that turns `source` into `target`: empty for equal documents.
pub open spec fn spec_diff(source: JsonV, target: JsonV) -> Seq<OpV> {
    if source.same(target) {
        Seq::empty()
    } else {
        spec_rec_diff(Seq::empty(), source, target)
    }
}


/// The models of a list of operations.
pub open spec fn ops_view(ops: Seq<PatchOperation>) -> Seq<OpV> {
    ops.map_values(|op: PatchOperation| op@)
}

/// Appends `/` and `key`, escaped as a reference token, to `path`; returns the
/// length that `path` had before.
pub fn push_key(path: &mut Vec<char>, key: &str) -> (old_len: usize)
    ensures
        old_len == old(path)@.len(),
        final(path)@ == member_path(old(path)@, key@),
{
    let old_len = path.len();
    path.push('/');
    let kc = chars_of(key);
    let ghost base = path@;
    let mut i: usize = 0;
    while i < kc.len()
        invariant
            i <= kc.len(),
            path@ == base + escape_key(kc@.take(i as int)),
        decreases kc.len() - i,
    {
        let c = kc[i];
        proof {
            lemma_escape_key_push(kc@.take(i as int), c);
            assert(kc@.take(i as int).push(c) =~= kc@.take(i + 1));
            assert(seq![c].drop_first() =~= Seq::<char>::empty());
            assert(escape_key(Seq::<char>::empty()) =~= Seq::<char>::empty());
        }
        if c == '~' {
            path.push('~');
            path.push('0');
        } else if c == '/' {
            path.push('~');
            path.push('1');
        } else {
            path.push(c);
        }
        i = i + 1;
        assert(path@ =~= base + escape_key(kc@.take(i as int)));
    }
    assert(kc@.take(i as int) =~= key@);
    old_len
}

proof fn lemma_escape_key_push(k: Seq<char>, c: char)
    ensures
        escape_key(k.push(c)) == escape_key(k) + escape_key(seq![c]),
    decreases k.len(),
{
    if k.len() == 0 {
        assert(k.push(c) =~= seq![c]);
        assert(escape_key(k) =~= Seq::<char>::empty());
    } else {
        assert(k.push(c).drop_first() =~= k.drop_first().push(c));
        lemma_escape_key_push(k.drop_first(), c);
        assert(escape_key(k.push(c)) =~= escape_key(k) + escape_key(seq![c]));
    }
}

/// Appends `/` and the decimal digits of `index` to `path`; returns the length
/// that `path` had before.
pub fn push_index(path: &mut Vec<char>, index: usize) -> (old_len: usize)
    ensures
        old_len == old(path)@.len(),
        final(path)@ == index_path(old(path)@, index as nat),
{
    let old_len = path.len();
    path.push('/');
    push_decimal(path, index);
    old_len
}

/// A pointer whose string is `path`.
fn pointer_of(path: &Vec<char>) -> (p: Pointer)
    ensures
        p@ == path@,
{
    Pointer::from_string(string_of(path.as_slice()))
}

/// Appends to `ops` the operations that turn `source` into `target`, with
/// paths below `path`; `path` is as it was afterwards.
pub fn rec_diff(ops: &mut Vec<PatchOperation>, path: &mut Vec<char>, source: &Json, target: &Json)
    ensures
        ops_view(final(ops)@) == ops_view(old(ops)@) + spec_rec_diff(old(path)@, source.model(), target.model()),
        final(path)@ == old(path)@,
    decreases source, 1nat,
{
    let ghost ops0 = ops_view(ops@);
    let ghost path0 = path@;
    match (source, target) {
        (Json::Object(_), Json::Object(_)) => diff_objects(ops, path, source, target),
        (Json::Array(_), Json::Array(_)) => diff_arrays(ops, path, source, target),
        _ => {
            if !source.equals(target) {
                let op = PatchOperation::Replace { path: pointer_of(path), value: target.clone() };
                let ghost opv = op@;
                ops.push(op);
                assert(ops_view(ops@) =~= ops0.push(opv));
                assert(ops_view(ops@) =~= ops0 + seq![OpV::Replace { path: path0, value: target.model() }]);
            } else {
                assert(ops_view(ops@) =~= ops0 + Seq::<OpV>::empty());
            }
        },
    }
}

/// The diff of two objects: their members as `spec_rec_diff` says.
fn diff_objects(ops: &mut Vec<PatchOperation>, path: &mut Vec<char>, source: &Json, target: &Json)
    requires
        source is Object,
        target is Object,
    ensures
        ops_view(final(ops)@) == ops_view(old(ops)@) + spec_rec_diff(old(path)@, source.model(), target.model()),
        final(path)@ == old(path)@,
    decreases source, 0nat,
{
    let ghost ops0 = ops_view(ops@);
    let ghost path0 = path@;
    let sm = match source {
        Json::Object(m) => m,
        _ => {
            return;
        },
    };
    let tm = match target {
        Json::Object(m) => m,
        _ => {
            return;
        },
    };
    let ghost smv = entries_model(*sm);
    let ghost tmv = entries_model(*tm);
    let mut i: usize = 0;
    while i < sm.len()
        invariant
            i <= sm.len(),
            *source == Json::Object(*sm),
            source.model() == JsonV::Object(entries_model(*sm)),
            smv == entries_model(*sm),
            tmv == entries_model(*tm),
            path@ == path0,
            ops_view(ops@) == ops0 + diff_members(path0, smv, tmv, i as nat),
        decreases sm.len() - i,
    {
        let key = &sm[i].0;
        assert(smv[i as int].0 == key@ && smv[i as int].1 == sm[i as int].1.model());
        let old_len = push_key(path, key.as_str());
        let ghost before = ops_view(ops@);
        match member_get(tm, key.as_str()) {
            Some(tv) => {
                rec_diff(ops, path, &sm[i].1, tv);
            },
            None => {
                let op = PatchOperation::Remove { path: pointer_of(path) };
                let ghost opv = op@;
                ops.push(op);
                assert(ops_view(ops@) =~= before.push(opv));
                assert(ops_view(ops@) =~= before + seq![OpV::Remove { path: member_path(path0, key@) }]);
            },
        }
        path.truncate(old_len);
        assert(path@ =~= path0);
        i = i + 1;
        assert(ops_view(ops@) =~= ops0 + diff_members(path0, smv, tmv, i as nat));
    }
    let ghost mid = ops_view(ops@);
    let mut j: usize = 0;
    assert(mid =~= mid + added_members(path0, smv, tmv, 0));
    while j < tm.len()
        invariant
            j <= tm.len(),
            smv == entries_model(*sm),
            tmv == entries_model(*tm),
            path@ == path0,
            ops_view(ops@) == mid + added_members(path0, smv, tmv, j as nat),
        decreases tm.len() - j,
    {
        let key = &tm[j].0;
        assert(tmv[j as int].0 == key@ && tmv[j as int].1 == tm[j as int].1.model());
        let ghost before = ops_view(ops@);
        if member_get(sm, key.as_str()).is_none() {
            let old_len = push_key(path, key.as_str());
            let op = PatchOperation::Add { path: pointer_of(path), value: tm[j].1.clone() };
            let ghost opv = op@;
            ops.push(op);
            assert(ops_view(ops@) =~= before.push(opv));
            assert(ops_view(ops@) =~= before + seq![OpV::Add { path: member_path(path0, key@), value: tmv[j as int].1 }]);
            path.truncate(old_len);
            assert(path@ =~= path0);
        }
        j = j + 1;
        assert(ops_view(ops@) =~= mid + added_members(path0, smv, tmv, j as nat));
    }
    assert(ops_view(ops@) =~= ops0 + spec_rec_diff(path0, source.model(), target.model()));
}

/// The diff of two arrays: their common prefix and suffix kept, the middle as
/// `spec_rec_diff` says.
fn diff_arrays(ops: &mut Vec<PatchOperation>, path: &mut Vec<char>, source: &Json, target: &Json)
    requires
        source is Array,
        target is Array,
    ensures
        ops_view(final(ops)@) == ops_view(old(ops)@) + spec_rec_diff(old(path)@, source.model(), target.model()),
        final(path)@ == old(path)@,
    decreases source, 0nat,
{
    let ghost ops0 = ops_view(ops@);
    let ghost path0 = path@;
    let sa = match source {
        Json::Array(a) => a,
        _ => {
            return;
        },
    };
    let ta = match target {
        Json::Array(a) => a,
        _ => {
            return;
        },
    };
    let ghost sav = items_model(*sa);
    let ghost tav = items_model(*ta);
    let source_len = sa.len();
    let target_len = ta.len();
    let mut prefix: usize = 0;
    while prefix < source_len && prefix < target_len && sa[prefix].equals(&ta[prefix])
        invariant
            prefix <= source_len,
            prefix <= target_len,
            source_len == sa.len(),
            target_len == ta.len(),
            sav == items_model(*sa),
            tav == items_model(*ta),
            common_prefix_from(sav, tav, 0) == common_prefix_from(sav, tav, prefix as nat),
        decreases source_len - prefix,
    {
        prefix = prefix + 1;
    }
    assert(common_prefix_from(sav, tav, prefix as nat) == prefix);
    let mut suffix: usize = 0;
    while suffix < source_len - prefix && suffix < target_len - prefix
        && sa[source_len - 1 - suffix].equals(&ta[target_len - 1 - suffix])
        invariant
            prefix <= source_len,
            prefix <= target_len,
            suffix + prefix <= source_len,
            suffix + prefix <= target_len,
            source_len == sa.len(),
            target_len == ta.len(),
            sav == items_model(*sa),
            tav == items_model(*ta),
            common_suffix_from(sav, tav, prefix as nat, 0) == common_suffix_from(sav, tav, prefix as nat, suffix as nat),
        decreases source_len - suffix,
    {
        suffix = suffix + 1;
    }
    assert(common_suffix_from(sav, tav, prefix as nat, suffix as nat) == suffix);
    let source_mid_len = source_len - prefix - suffix;
    let target_mid_len = target_len - prefix - suffix;
    let paired_len = if source_mid_len < target_mid_len {
        source_mid_len
    } else {
        target_mid_len
    };
    let mut offset: usize = 0;
    while offset < paired_len
        invariant
            offset <= paired_len,
            paired_len <= source_mid_len,
            paired_len <= target_mid_len,
            source_mid_len == source_len - prefix - suffix,
            target_mid_len == target_len - prefix - suffix,
            source_len == sa.len(),
            target_len == ta.len(),
            *source == Json::Array(*sa),
            source.model() == JsonV::Array(items_model(*sa)),
            sav == items_model(*sa),
            tav == items_model(*ta),
            path@ == path0,
            ops_view(ops@) == ops0 + diff_elements(path0, sav, tav, prefix as nat, offset as nat),
        decreases paired_len - offset,
    {
        let index = prefix + offset;
        let old_len = push_index(path, index);
        rec_diff(ops, path, &sa[index], &ta[index]);
        path.truncate(old_len);
        assert(path@ =~= path0);
        offset = offset + 1;
        assert(ops_view(ops@) =~= ops0 + diff_elements(path0, sav, tav, prefix as nat, offset as nat));
    }
    let ghost after_paired = ops_view(ops@);
    push_removals(ops, path, prefix + target_mid_len, prefix + source_mid_len);
    let ghost after_removed = ops_view(ops@);
    push_additions(ops, path, ta, prefix + source_mid_len, prefix + target_mid_len);
    assert(ops_view(ops@) =~= ops0 + spec_rec_diff(path0, source.model(), target.model()));
}

/// Appends removals of the elements at the indices from `hi - 1` down to `lo`.
fn push_removals(ops: &mut Vec<PatchOperation>, path: &mut Vec<char>, lo: usize, hi: usize)
    ensures
        ops_view(final(ops)@) == ops_view(old(ops)@) + removed_elements(old(path)@, lo as nat, hi as nat),
        final(path)@ == old(path)@,
{
    let ghost ops0 = ops_view(ops@);
    let ghost path0 = path@;
    let ghost rs = removed_elements(path0, lo as nat, hi as nat);
    proof {
        lemma_removed_elements_len(path0, lo as nat, hi as nat);
    }
    if hi <= lo {
        assert(ops_view(ops@) =~= ops0 + rs);
        return;
    }
    let mut index = hi;
    assert(ops_view(ops@) =~= ops0 + rs.subrange(0, 0));
    while index > lo
        invariant
            lo <= index <= hi,
            rs == removed_elements(path0, lo as nat, hi as nat),
            rs.len() == hi - lo,
            path@ == path0,
            ops_view(ops@) == ops0 + rs.subrange(0, (hi - index) as int),
        decreases index,
    {
        proof {
            lemma_removed_elements_at(path0, lo as nat, hi as nat, (hi - index) as nat);
        }
        index = index - 1;
        let ghost before = ops_view(ops@);
        let old_len = push_index(path, index);
        let op = PatchOperation::Remove { path: pointer_of(path) };
        let ghost opv = op@;
        ops.push(op);
        assert(ops_view(ops@) =~= before.push(opv));
        path.truncate(old_len);
        assert(path@ =~= path0);
        proof {
            let k = (hi - index - 1) as int;
            assert(opv == rs[k]);
            assert(rs.subrange(0, k + 1) =~= rs.subrange(0, k).push(rs[k]));
        }
        assert(ops_view(ops@) =~= ops0 + rs.subrange(0, (hi - index) as int));
    }
    assert(rs.subrange(0, (hi - lo) as int) =~= rs);
}

/// Appends additions of the elements of `ta` at the indices from `lo` up to `hi - 1`.
fn push_additions(ops: &mut Vec<PatchOperation>, path: &mut Vec<char>, ta: &Vec<Json>, lo: usize, hi: usize)
    requires
        hi <= ta.len(),
    ensures
        ops_view(final(ops)@) == ops_view(old(ops)@) + added_elements(old(path)@, items_model(*ta), lo as nat, hi as nat),
        final(path)@ == old(path)@,
{
    let ghost ops0 = ops_view(ops@);
    let ghost path0 = path@;
    let ghost tav = items_model(*ta);
    if hi <= lo {
        assert(ops_view(ops@) =~= ops0 + added_elements(path0, tav, lo as nat, hi as nat));
        return;
    }
    let mut index = lo;
    assert(added_elements(path0, tav, lo as nat, lo as nat) =~= Seq::<OpV>::empty());
    assert(ops_view(ops@) =~= ops0 + added_elements(path0, tav, lo as nat, index as nat));
    while index < hi
        invariant
            lo <= index <= hi,
            hi <= ta.len(),
            tav == items_model(*ta),
            path@ == path0,
            ops_view(ops@) == ops0 + added_elements(path0, tav, lo as nat, index as nat),
        decreases hi - index,
    {
        let ghost before = ops_view(ops@);
        let old_len = push_index(path, index);
        let op = PatchOperation::Add { path: pointer_of(path), value: ta[index].clone() };
        assert(tav[index as int] == ta[index as int].model());
        let ghost opv = op@;
        ops.push(op);
        assert(ops_view(ops@) =~= before.push(opv));
        path.truncate(old_len);
        assert(path@ =~= path0);
        index = index + 1;
        assert(ops_view(ops@) =~= ops0 + added_elements(path0, tav, lo as nat, index as nat));
    }
}

proof fn lemma_removed_elements_len(path: Seq<char>, lo: nat, hi: nat)
    ensures
        removed_elements(path, lo, hi).len() == if hi > lo { hi - lo } else { 0 },
    decreases hi,
{
    if hi > lo {
        lemma_removed_elements_len(path, lo, (hi - 1) as nat);
    }
}

proof fn lemma_removed_elements_at(path: Seq<char>, lo: nat, hi: nat, k: nat)
    requires
        lo + k < hi,
    ensures
        removed_elements(path, lo, hi)[k as int] == (OpV::Remove { path: index_path(path, (hi - 1 - k) as nat) }),
    decreases hi,
{
    lemma_removed_elements_len(path, lo, (hi - 1) as nat);
    if k > 0 {
        lemma_removed_elements_at(path, lo, (hi - 1) as nat, (k - 1) as nat);
    }
}

/// Creates a JSON Patch that turns `source` into `target`.
///
/// Equal documents give an empty patch. The patch uses `add`, `remove` and
/// `replace` operations; object keys are escaped as reference tokens.
pub fn diff(source: &Json, target: &Json) -> (p: Patch)
    ensures
        p@ == spec_diff(source.model(), target.model()),
        target.wf() ==> ops_wf(p@),
{
    proof {
        crate::diff_proofs::lemma_diff_only_edits(source.model(), target.model());
    }
    if source.equals(target) {
        return Patch::empty();
    }
    let mut operations: Vec<PatchOperation> = Vec::new();
    let mut path: Vec<char> = Vec::new();
    assert(ops_view(operations@) =~= Seq::<OpV>::empty());
    rec_diff(&mut operations, &mut path, source, target);
    assert(ops_view(operations@) =~= spec_rec_diff(Seq::empty(), source.model(), target.model()));
    Patch::new_with(operations)
}

} // verus!

//! The operations of a JSON Patch (RFC 6902) and how one is applied.
use vstd::prelude::*;

use crate::json::{
    copy_entries,    entries_model, items_model, lemma_obj_find_sorted, lemma_obj_insert_wf, lemma_obj_remove_wf,
    lemma_wf_array, lemma_wf_object, member_insert, member_position, member_remove, obj_find,
    obj_insert, obj_remove, Json, JsonV,
};
use crate::pointer::{
    lookup_index, lookup_index_exec, lookup_tokens, pointer_get, raw_tokens_of, resolve,
    resolve_exec, tokens_of, toks_view, update_at, Pointer,
};
use crate::text::{chars_of, decode_token, decode_token_exec, parse_usize, parse_usize_exec, string_of};

verus! {

/// A single JSON Patch operation as defined by RFC 6902.
#[derive(Debug, PartialEq, Eq)]
pub enum PatchOperation {
    /// Adds `value` at `path`. Object members are inserted or replaced; in an
    /// array the value is inserted at the index, and `-` appends.
    Add { path: Pointer, value: Json },
    /// Removes the value at `path`.
    Remove { path: Pointer },
    /// Replaces the existing value at `path` with `value`.
    Replace { path: Pointer, value: Json },
    /// Moves the value at `from` to `path`: a remove, then an add.
    Move { from: Pointer, path: Pointer },
    /// Copies the value at `from` to `path`.
    Copy { from: Pointer, path: Pointer },
    /// Tests whether the value at `path` equals `value`.
    Test { path: Pointer, value: Json },
}

/// The model of a patch operation.
pub enum OpV {
    Add { path: Seq<char>, value: JsonV },
    Remove { path: Seq<char> },
    Replace { path: Seq<char>, value: JsonV },
    Move { from: Seq<char>, path: Seq<char> },
    Copy { from: Seq<char>, path: Seq<char> },
    Test { path: Seq<char>, value: JsonV },
}

/// Errors that can occur while applying a JSON Patch operation.
#[derive(Debug, PartialEq, Eq)]
pub enum ApplicationError {
    /// The operation cannot be applied to the target document.
    NotApplicable(PatchOperation),
    /// The addressed JSON Pointer path does not exist.
    PathNotFound(Pointer),
    /// The addressed array index is outside the valid range.
    ArrayOutOfBounds(Pointer),
    /// The addressed array index is not valid JSON Patch array syntax.
    ArraySyntaxError(Pointer),
    /// A `test` operation found a value other than the expected one.
    TestFailed {
        /// The path whose value was tested.
        path: Pointer,
        /// The value found at `path`.
        value: Json,
        /// The value that the operation expected.
        test_value: Json,
    },
}

/// The model of an application error.
pub enum ErrV {
    NotApplicable(OpV),
    PathNotFound(Seq<char>),
    ArrayOutOfBounds(Seq<char>),
    ArraySyntaxError(Seq<char>),
    TestFailed { path: Seq<char>, value: JsonV, test_value: JsonV },
}

impl View for PatchOperation {
    type V = OpV;

    open spec fn view(&self) -> OpV {
        match self {
            PatchOperation::Add { path, value } => OpV::Add { path: path@, value: value.model() },
            PatchOperation::Remove { path } => OpV::Remove { path: path@ },
            PatchOperation::Replace { path, value } => OpV::Replace {
                path: path@,
                value: value.model(),
            },
            PatchOperation::Move { from, path } => OpV::Move { from: from@, path: path@ },
            PatchOperation::Copy { from, path } => OpV::Copy { from: from@, path: path@ },
            PatchOperation::Test { path, value } => OpV::Test { path: path@, value: value.model() },
        }
    }
}

impl View for ApplicationError {
    type V = ErrV;

    open spec fn view(&self) -> ErrV {
        match self {
            ApplicationError::NotApplicable(op) => ErrV::NotApplicable(op@),
            ApplicationError::PathNotFound(p) => ErrV::PathNotFound(p@),
            ApplicationError::ArrayOutOfBounds(p) => ErrV::ArrayOutOfBounds(p@),
            ApplicationError::ArraySyntaxError(p) => ErrV::ArraySyntaxError(p@),
            ApplicationError::TestFailed { path, value, test_value } => ErrV::TestFailed {
                path: path@,
                value: value.model(),
                test_value: test_value.model(),
            },
        }
    }
}

impl OpV {
    /// The path that the operation writes to or tests.
    pub open spec fn path(self) -> Seq<char> {
        match self {
            OpV::Add { path, .. } => path,
            OpV::Remove { path } => path,
            OpV::Replace { path, .. } => path,
            OpV::Move { path, .. } => path,
            OpV::Copy { path, .. } => path,
            OpV::Test { path, .. } => path,
        }
    }

    /// The values that the operation carries are well formed.
    pub open spec fn wf(self) -> bool {
        match self {
            OpV::Add { value, .. } => value.wf(),
            OpV::Replace { value, .. } => value.wf(),
            OpV::Test { value, .. } => value.wf(),
            _ => true,
        }
    }
}

/// The pointer string made of the given reference tokens: `/` before each.
pub open spec fn path_of(toks: Seq<Seq<char>>) -> Seq<char>
    decreases toks.len(),
{
    if toks.len() == 0 {
        Seq::empty()
    } else {
        seq!['/'] + toks[0] + path_of(toks.drop_first())
    }
}

/// The pointer to the container of what `path` addresses: the tokens as written
/// without the last one, or the empty pointer.
pub open spec fn parent_path(path: Seq<char>) -> Seq<char> {
    let raw = raw_tokens_of(path);
    if raw.len() == 0 {
        Seq::empty()
    } else {
        path_of(raw.drop_last())
    }
}

/// The last reference token of `path` as written, if it has one.
pub open spec fn last_raw_token(path: Seq<char>) -> Option<Seq<char>> {
    let raw = raw_tokens_of(path);
    if raw.len() == 0 {
        None
    } else {
        Some(raw.last())
    }
}

/// The tokens by which the container of what `path` addresses is reached.
pub open spec fn parent_toks(path: Seq<char>) -> Seq<Seq<char>> {
    lookup_tokens(parent_path(path)).unwrap()
}

/// Whether the tokens `f` are a proper prefix of the tokens `p`.
pub open spec fn is_proper_prefix(f: Seq<Seq<char>>, p: Seq<Seq<char>>) -> bool {
    f.len() < p.len() && forall|i: int| 0 <= i < f.len() ==> f[i] == p[i]
}

/// The document after adding `value` at `path`.
pub open spec fn spec_add(path: Seq<char>, value: JsonV, doc: JsonV) -> Result<JsonV, ErrV> {
    let pp = parent_path(path);
    match pointer_get(doc, pp) {
        None => Err(ErrV::PathNotFound(pp)),
        Some(parent) => match parent {
            JsonV::Array(a) => match last_raw_token(path) {
                None => Err(ErrV::ArraySyntaxError(path)),
                Some(prop) => if prop == seq!['-'] {
                    Ok(update_at(doc, parent_toks(path), JsonV::Array(a.push(value))))
                } else {
                    match parse_usize(prop) {
                        None => Err(ErrV::ArraySyntaxError(path)),
                        Some(i) => if i > a.len() {
                            Err(ErrV::ArrayOutOfBounds(path))
                        } else {
                            Ok(update_at(doc, parent_toks(path), JsonV::Array(a.insert(i as int, value))))
                        },
                    }
                },
            },
            JsonV::Object(m) => match last_raw_token(path) {
                None => Ok(value),
                Some(raw) => Ok(
                    update_at(doc, parent_toks(path), JsonV::Object(obj_insert(m, decode_token(raw), value))),
                ),
            },
            JsonV::Null => match last_raw_token(path) {
                None => Ok(value),
                Some(raw) => Ok(update_at(doc, parent_toks(path), JsonV::Object(seq![(decode_token(raw), value)]))),
            },
            // With a last token, a boolean, number or string parent cannot take
            // the member: `add_panics` holds there and no result is defined.
            _ => match last_raw_token(path) {
                None => Ok(value),
                Some(key) => Ok(doc),
            },
        },
    }
}

/// Whether adding at `path` would set a member of a boolean, a number or a
/// string, which cannot hold members.
pub open spec fn add_panics(path: Seq<char>, doc: JsonV) -> bool {
    &&& pointer_get(doc, parent_path(path)) matches Some(parent)
    &&& (parent is Bool || parent is Number || parent is Str)
    &&& last_raw_token(path) is Some
}

/// The document after removing the value at `path`.
pub open spec fn spec_remove(path: Seq<char>, doc: JsonV) -> Result<JsonV, ErrV> {
    let pp = parent_path(path);
    match pointer_get(doc, pp) {
        None => Err(ErrV::PathNotFound(pp)),
        Some(parent) => match parent {
            JsonV::Array(a) => match last_raw_token(path) {
                None => Err(ErrV::ArraySyntaxError(path)),
                Some(prop) => match parse_usize(prop) {
                    None => Err(ErrV::ArraySyntaxError(path)),
                    Some(i) => if i >= a.len() {
                        Err(ErrV::ArrayOutOfBounds(path))
                    } else {
                        Ok(update_at(doc, parent_toks(path), JsonV::Array(a.remove(i as int))))
                    },
                },
            },
            JsonV::Object(m) => match last_raw_token(path) {
                None => Err(ErrV::PathNotFound(path)),
                Some(raw) => {
                    let key = decode_token(raw);
                    if obj_find(m, key) is None {
                        Err(ErrV::PathNotFound(path))
                    } else {
                        Ok(update_at(doc, parent_toks(path), JsonV::Object(obj_remove(m, key))))
                    }
                },
            },
            _ => Err(ErrV::NotApplicable(OpV::Remove { path })),
        },
    }
}

/// The document after applying one operation, or the error that stops it.
#[verifier::opaque]
pub open spec fn spec_apply(op: OpV, doc: JsonV) -> Result<JsonV, ErrV> {
    let path = op.path();
    let pp = parent_path(path);
    if pointer_get(doc, pp) is None {
        Err(ErrV::PathNotFound(pp))
    } else {
        match op {
            OpV::Add { path, value } => spec_add(path, value, doc),
            OpV::Remove { path } => spec_remove(path, doc),
            OpV::Replace { path, value } => match pointer_get(doc, path) {
                None => Err(ErrV::PathNotFound(path)),
                Some(_) => Ok(update_at(doc, lookup_tokens(path).unwrap(), value)),
            },
            OpV::Move { from, path } => if is_proper_prefix(tokens_of(from), tokens_of(path)) {
                Err(ErrV::NotApplicable(op))
            } else {
                match pointer_get(doc, from) {
                    None => Err(ErrV::PathNotFound(from)),
                    Some(v) => match spec_remove(from, doc) {
                        Ok(d) => spec_add(path, v, d),
                        Err(ErrV::NotApplicable(_)) => spec_add(path, v, doc),
                        Err(e) => Err(e),
                    },
                }
            },
            OpV::Copy { from, path } => match pointer_get(doc, from) {
                None => Err(ErrV::PathNotFound(from)),
                Some(v) => spec_add(path, v, doc),
            },
            OpV::Test { path, value } => match pointer_get(doc, path) {
                None => Err(ErrV::PathNotFound(path)),
                Some(vut) => if vut.same(value) {
                    Ok(doc)
                } else {
                    Err(ErrV::TestFailed { path, value: vut, test_value: value })
                },
            },
        }
    }
}

/// Whether applying `op` to `doc` would set a member of a boolean, a number or
/// a string, on which the operation panics instead of returning.
#[verifier::opaque]
pub open spec fn op_panics(op: OpV, doc: JsonV) -> bool {
    let pp = parent_path(op.path());
    &&& pointer_get(doc, pp) is Some
    &&& match op {
        OpV::Add { path, .. } => add_panics(path, doc),
        OpV::Move { from, path } => {
            &&& !is_proper_prefix(tokens_of(from), tokens_of(path))
            &&& pointer_get(doc, from) is Some
            &&& match spec_remove(from, doc) {
                Ok(d) => add_panics(path, d),
                Err(ErrV::NotApplicable(_)) => add_panics(path, doc),
                Err(_) => false,
            }
        },
        OpV::Copy { from, path } => pointer_get(doc, from) is Some && add_panics(path, doc),
        _ => false,
    }
}

/// Replacing a value inside a well-formed document by a well-formed value
/// keeps it well formed.
pub proof fn lemma_update_at_wf(doc: JsonV, toks: Seq<Seq<char>>, new: JsonV)
    requires
        doc.wf(),
        new.wf(),
    ensures
        update_at(doc, toks, new).wf(),
    decreases toks.len(),
{
    if toks.len() > 0 {
        match doc {
            JsonV::Object(m) => {
                lemma_wf_object(doc);
                if let Some(i) = obj_find(m, toks[0]) {
                    lemma_obj_find_sorted(m, toks[0]);
                    assert(m[i].1.wf());
                    lemma_update_at_wf(m[i].1, toks.drop_first(), new);
                    let r = update_at(doc, toks, new);
                    let m2 = m.update(i, (m[i].0, update_at(m[i].1, toks.drop_first(), new)));
                    assert(r == JsonV::Object(m2));
                    lemma_wf_object(r);
                    assert forall|a: int, b: int| 0 <= a < b < m2.len() implies crate::text::key_lt(
                        #[trigger] m2[a].0,
                        #[trigger] m2[b].0,
                    ) by {
                        assert(m2[a].0 == m[a].0 && m2[b].0 == m[b].0);
                    }
                    assert forall|j: int| 0 <= j < m2.len() implies (#[trigger] m2[j]).1.wf() by {
                        if j != i {
                            assert(m2[j] == m[j]);
                        }
                    }
                }
            },
            JsonV::Array(a) => {
                lemma_wf_array(doc);
                if let Some(i) = lookup_index(toks[0]) {
                    if i < a.len() {
                        lemma_update_at_wf(a[i as int], toks.drop_first(), new);
                        let r = update_at(doc, toks, new);
                        let a2 = a.update(i as int, update_at(a[i as int], toks.drop_first(), new));
                        assert(r == JsonV::Array(a2));
                        lemma_wf_array(r);
                        assert forall|j: int| 0 <= j < a2.len() implies (#[trigger] a2[j]).wf() by {
                            if j != i {
                                assert(a2[j] == a[j]);
                            }
                        }
                    }
                }
            },
            _ => {},
        }
    }
}

/// A value that a lookup reaches inside a well-formed document is well formed.
pub proof fn lemma_resolve_wf(doc: JsonV, toks: Seq<Seq<char>>)
    requires
        doc.wf(),
    ensures
        resolve(doc, toks) matches Some(v) ==> v.wf(),
    decreases toks.len(),
{
    if toks.len() > 0 {
        match doc {
            JsonV::Object(m) => {
                lemma_wf_object(doc);
                if let Some(i) = obj_find(m, toks[0]) {
                    lemma_obj_find_sorted(m, toks[0]);
                    lemma_resolve_wf(m[i].1, toks.drop_first());
                }
            },
            JsonV::Array(a) => {
                lemma_wf_array(doc);
                if let Some(i) = lookup_index(toks[0]) {
                    if i < a.len() {
                        lemma_resolve_wf(a[i as int], toks.drop_first());
                    }
                }
            },
            _ => {},
        }
    }
}

/// Replaces the value that `toks[depth..]` reaches inside `doc` by `new`.
fn replace_at(doc: &mut Json, toks: &Vec<Vec<char>>, depth: usize, new: Json)
    requires
        depth <= toks.len(),
        old(doc).wf(),
        resolve(old(doc).model(), toks_view(toks@).skip(depth as int)) is Some,
    ensures
        final(doc).model() == update_at(old(doc).model(), toks_view(toks@).skip(depth as int), new.model()),
    decreases toks.len() - depth,
{
    let ghost tv = toks_view(toks@).skip(depth as int);
    if depth == toks.len() {
        *doc = new;
        return;
    }
    assert(tv[0] == toks@[depth as int]@);
    assert(tv.drop_first() =~= toks_view(toks@).skip(depth + 1));
    let ghost old_model = doc.model();
    let mut taken = Json::Null;
    std::mem::swap(doc, &mut taken);
    match taken {
        Json::Object(mut m) => {
            let ghost mm = entries_model(m);
            proof {
                lemma_wf_object(old_model);
            }
            let key = string_of(toks[depth].as_slice());
            let (p, found) = member_position(&m, key.as_str());
            proof {
                lemma_obj_find_sorted(mm, tv[0]);
            }
            let (k, mut child) = m.remove(p);
            assert(child.model() == mm[p as int].1);
            proof {
                assert(mm[p as int].1.wf());
            }
            replace_at(&mut child, toks, depth + 1, new);
            let ghost nc = child.model();
            m.insert(p, (k, child));
            assert(entries_model(m) =~= mm.update(p as int, (mm[p as int].0, nc)));
            *doc = Json::Object(m);
        },
        Json::Array(mut a) => {
            let ghost aa = items_model(a);
            proof {
                lemma_wf_array(old_model);
            }
            let idx = lookup_index_exec(&toks[depth]).unwrap();
            let mut child = a.remove(idx);
            assert(child.model() == aa[idx as int]);
            replace_at(&mut child, toks, depth + 1, new);
            let ghost nc = child.model();
            a.insert(idx, child);
            assert(items_model(a) =~= aa.update(idx as int, nc));
            *doc = Json::Array(a);
        },
        _ => {
            *doc = taken;
        },
    }
}


pub proof fn lemma_path_of_push(toks: Seq<Seq<char>>, t: Seq<char>)
    ensures
        path_of(toks.push(t)) == path_of(toks) + seq!['/'] + t,
    decreases toks.len(),
{
    if toks.len() == 0 {
        assert(toks.push(t).drop_first() =~= Seq::<Seq<char>>::empty());
        assert(path_of(toks.push(t).drop_first()) =~= Seq::<char>::empty());
        assert(path_of(toks.push(t)) =~= seq!['/'] + t);
    } else {
        assert(toks.push(t).drop_first() =~= toks.drop_first().push(t));
        lemma_path_of_push(toks.drop_first(), t);
        assert(path_of(toks.push(t)) =~= path_of(toks) + seq!['/'] + t);
    }
}

/// Splits a pointer into the pointer to its container and a pointer made of its
/// last reference token alone.
pub fn pointer_split(p: &Pointer) -> (r: (Pointer, Option<Pointer>))
    ensures
        r.0@ == parent_path(p@),
        match last_raw_token(p@) {
            None => r.1 is None,
            Some(t) => r.1 is Some && r.1.unwrap()@ == seq!['/'] + t,
        },
{
    let raw = p.raw_token_chars();
    let ghost rv = toks_view(raw@);
    if raw.len() == 0 {
        return (Pointer::from_string(String::new()), None);
    }
    let n = raw.len() - 1;
    let mut parent: Vec<char> = Vec::new();
    let mut j: usize = 0;
    assert(rv.take(0) =~= Seq::<Seq<char>>::empty());
    while j < n
        invariant
            j <= n,
            n == raw.len() - 1,
            rv == toks_view(raw@),
            parent@ == path_of(rv.take(j as int)),
        decreases n - j,
    {
        proof {
            lemma_path_of_push(rv.take(j as int), rv[j as int]);
            assert(rv.take(j as int).push(rv[j as int]) =~= rv.take(j + 1));
        }
        parent.push('/');
        let mut k: usize = 0;
        let ghost base = parent@;
        while k < raw[j].len()
            invariant
                j < raw.len(),
                k <= raw[j as int]@.len(),
                parent@ == base + raw[j as int]@.take(k as int),
            decreases raw[j as int]@.len() - k,
        {
            parent.push(raw[j][k]);
            k = k + 1;
            assert(raw[j as int]@.take(k as int) =~= raw[j as int]@.take(k - 1).push(raw[j as int]@[k - 1]));
        }
        assert(raw[j as int]@.take(k as int) =~= raw[j as int]@);
        assert(parent@ =~= path_of(rv.take(j as int)) + seq!['/'] + rv[j as int]);
        j = j + 1;
    }
    assert(rv.take(n as int) =~= rv.drop_last());
    let mut child: Vec<char> = Vec::new();
    child.push('/');
    let mut k: usize = 0;
    while k < raw[n].len()
        invariant
            n < raw.len(),
            k <= raw[n as int]@.len(),
            child@ == seq!['/'] + raw[n as int]@.take(k as int),
        decreases raw[n as int]@.len() - k,
    {
        child.push(raw[n][k]);
        k = k + 1;
        assert(raw[n as int]@.take(k as int) =~= raw[n as int]@.take(k - 1).push(raw[n as int]@[k - 1]));
    }
    assert(raw[n as int]@.take(k as int) =~= raw[n as int]@);
    let parent_s = string_of(parent.as_slice());
    let child_s = string_of(child.as_slice());
    (Pointer::from_string(parent_s), Some(Pointer::from_string(child_s)))
}


/// The outcome of an operation on a document: the new document on success, the
/// document unchanged and the error's model on failure.
pub open spec fn outcome_matches(
    spec_result: Result<JsonV, ErrV>,
    r: Result<(), ApplicationError>,
    before: JsonV,
    after: JsonV,
) -> bool {
    match spec_result {
        Ok(d) => r is Ok && after == d,
        Err(e) => r is Err && r->Err_0@ == e && after == before,
    }
}

/// The key that the pointer `/t`, made of one token, names: `t` with its
/// escapes undone.
fn decoded_key(child: &Pointer) -> (key: String)
    requires
        child@.len() > 0,
        child@[0] == '/',
    ensures
        key@ == decode_token(child@.drop_first()),
{
    let raw = child.path_without_leading_slash();
    let cs = chars_of(raw.as_str());
    let dec = decode_token_exec(&cs);
    string_of(dec.as_slice())
}

/// Adds `value` at `path` in `target`.
fn apply_add(target: &mut Json, path: &Pointer, value: Json) -> (r: Result<(), ApplicationError>)
    requires
        old(target).wf(),
        value.wf(),
        !add_panics(path@, old(target).model()),
    ensures
        outcome_matches(spec_add(path@, value.model(), old(target).model()), r, old(target).model(), final(target).model()),
        final(target).wf(),
{
    let ghost doc = target.model();
    let ghost vv = value.model();
    let (parent_ptr, child) = pointer_split(path);
    let ptoks = match parent_ptr.lookup_token_chars() {
        None => {
            return Err(ApplicationError::PathNotFound(parent_ptr));
        },
        Some(t) => t,
    };
    let ghost pt = toks_view(ptoks@);
    assert(pt.skip(0) =~= pt);
    let new_parent: Json;
    {
        let parent = match resolve_exec(target, &ptoks) {
            None => {
                return Err(ApplicationError::PathNotFound(parent_ptr));
            },
            Some(p) => p,
        };
        let ghost pm = parent.model();
        proof {
            lemma_resolve_wf(doc, pt);
        }
        match parent {
            Json::Array(a) => {
                let c = match child {
                    None => {
                        return Err(ApplicationError::ArraySyntaxError(path.clone()));
                    },
                    Some(c) => c,
                };
                let prop = c.path_without_leading_slash();
                let pc = chars_of(prop.as_str());
                let ghost t = last_raw_token(path@).unwrap();
                assert((seq!['/'] + t).drop_first() =~= t);
                assert(pc@ == t);
                let mut items = a.clone();
                let ghost av = items_model(*a);
                proof {
                    lemma_wf_array(pm);
                }
                if pc.len() == 1 && pc[0] == '-' {
                    assert(pc@ =~= seq!['-']);
                    let ghost before = items@;
                    items.push(value);
                    assert(items_model(items) =~= av.push(vv));
                } else {
                    proof {
                        if pc@ == seq!['-'] {
                            assert(pc@[0] == '-');
                        }
                    }
                    let idx = match parse_usize_exec(&pc) {
                        None => {
                            return Err(ApplicationError::ArraySyntaxError(path.clone()));
                        },
                        Some(i) => i,
                    };
                    if idx > items.len() {
                        return Err(ApplicationError::ArrayOutOfBounds(path.clone()));
                    }
                    items.insert(idx, value);
                    assert(items_model(items) =~= av.insert(idx as int, vv));
                }
                new_parent = Json::Array(items);
                proof {
                    lemma_wf_array(new_parent.model());
                }
            },
            Json::Object(m) => {
                match child {
                    None => {
                        new_parent = value;
                    },
                    Some(c) => {
                        let ghost raw = last_raw_token(path@).unwrap();
                        assert((seq!['/'] + raw).drop_first() =~= raw);
                        let key = decoded_key(&c);
                        let ghost t = decode_token(raw);
                        let mut entries = copy_entries(m);
                        member_insert(&mut entries, key, value);
                        new_parent = Json::Object(entries);
                        proof {
                            lemma_obj_insert_wf(entries_model(*m), t, vv);
                        }
                    },
                }
            },
            Json::Null => {
                match child {
                    None => {
                        new_parent = value;
                    },
                    Some(c) => {
                        let ghost raw = last_raw_token(path@).unwrap();
                        assert((seq!['/'] + raw).drop_first() =~= raw);
                        let key = decoded_key(&c);
                        let ghost t = decode_token(raw);
                        let mut entries: Vec<(String, Json)> = Vec::new();
                        entries.push((key, value));
                        assert(entries_model(entries) =~= seq![(t, vv)]);
                        new_parent = Json::Object(entries);
                        proof {
                            let nm = new_parent.model();
                            lemma_wf_object(nm);
                        }
                    },
                }
            },
            _ => {
                new_parent = value;
            },
        }
    }
    proof {
        lemma_update_at_wf(doc, pt, new_parent.model());
    }
    replace_at(target, &ptoks, 0, new_parent);
    Ok(())
}


/// Removes the value at `path` from `target`.
pub(crate) fn apply_remove(target: &mut Json, path: &Pointer) -> (r: Result<(), ApplicationError>)
    requires
        old(target).wf(),
    ensures
        outcome_matches(spec_remove(path@, old(target).model()), r, old(target).model(), final(target).model()),
        final(target).wf(),
{
    let ghost doc = target.model();
    let (parent_ptr, child) = pointer_split(path);
    let ptoks = match parent_ptr.lookup_token_chars() {
        None => {
            return Err(ApplicationError::PathNotFound(parent_ptr));
        },
        Some(t) => t,
    };
    let ghost pt = toks_view(ptoks@);
    assert(pt.skip(0) =~= pt);
    let new_parent: Json;
    {
        let parent = match resolve_exec(target, &ptoks) {
            None => {
                return Err(ApplicationError::PathNotFound(parent_ptr));
            },
            Some(p) => p,
        };
        let ghost pm = parent.model();
        proof {
            lemma_resolve_wf(doc, pt);
        }
        match parent {
            Json::Array(a) => {
                let c = match child {
                    None => {
                        return Err(ApplicationError::ArraySyntaxError(path.clone()));
                    },
                    Some(c) => c,
                };
                let prop = c.path_without_leading_slash();
                let pc = chars_of(prop.as_str());
                let ghost t = last_raw_token(path@).unwrap();
                assert((seq!['/'] + t).drop_first() =~= t);
                let idx = match parse_usize_exec(&pc) {
                    None => {
                        return Err(ApplicationError::ArraySyntaxError(path.clone()));
                    },
                    Some(i) => i,
                };
                if idx >= a.len() {
                    return Err(ApplicationError::ArrayOutOfBounds(path.clone()));
                }
                let mut items = a.clone();
                let ghost av = items_model(*a);
                proof {
                    lemma_wf_array(pm);
                }
                items.remove(idx);
                assert(items_model(items) =~= av.remove(idx as int));
                new_parent = Json::Array(items);
                proof {
                    lemma_wf_array(new_parent.model());
                }
            },
            Json::Object(m) => {
                let c = match child {
                    None => {
                        return Err(ApplicationError::PathNotFound(path.clone()));
                    },
                    Some(c) => c,
                };
                let raw = c.path_without_leading_slash();
                let ghost t = last_raw_token(path@).unwrap();
                assert((seq!['/'] + t).drop_first() =~= t);
                let rc = chars_of(raw.as_str());
                let kc = decode_token_exec(&rc);
                let key = string_of(kc.as_slice());
                let mut entries = copy_entries(m);
                let removed = member_remove(&mut entries, key.as_str());
                if !removed {
                    return Err(ApplicationError::PathNotFound(path.clone()));
                }
                new_parent = Json::Object(entries);
                proof {
                    lemma_obj_remove_wf(entries_model(*m), decode_token(t));
                }
            },
            _ => {
                return Err(ApplicationError::NotApplicable(PatchOperation::Remove { path: path.clone() }));
            },
        }
    }
    proof {
        lemma_update_at_wf(doc, pt, new_parent.model());
    }
    replace_at(target, &ptoks, 0, new_parent);
    Ok(())
}

/// Whether the tokens `f` are a proper prefix of the tokens `p`.
pub(crate) fn proper_prefix_exec(f: &Vec<Vec<char>>, p: &Vec<Vec<char>>) -> (r: bool)
    ensures
        r == is_proper_prefix(toks_view(f@), toks_view(p@)),
{
    if f.len() >= p.len() {
        return false;
    }
    let mut i: usize = 0;
    while i < f.len()
        invariant
            i <= f.len(),
            f.len() < p.len(),
            forall|j: int| 0 <= j < i ==> toks_view(f@)[j] == toks_view(p@)[j],
        decreases f.len() - i,
    {
        if !crate::json::chars_eq(&f[i], &p[i]) {
            assert(toks_view(f@)[i as int] != toks_view(p@)[i as int]);
            return false;
        }
        i = i + 1;
    }
    true
}

impl Clone for PatchOperation {
    fn clone(&self) -> (r: PatchOperation)
        ensures
            r@ == self@,
    {
        match self {
            PatchOperation::Add { path, value } => PatchOperation::Add { path: path.clone(), value: value.clone() },
            PatchOperation::Remove { path } => PatchOperation::Remove { path: path.clone() },
            PatchOperation::Replace { path, value } => PatchOperation::Replace {
                path: path.clone(),
                value: value.clone(),
            },
            PatchOperation::Move { from, path } => PatchOperation::Move { from: from.clone(), path: path.clone() },
            PatchOperation::Copy { from, path } => PatchOperation::Copy { from: from.clone(), path: path.clone() },
            PatchOperation::Test { path, value } => PatchOperation::Test { path: path.clone(), value: value.clone() },
        }
    }
}

impl PatchOperation {
    /// The path that the operation writes to or tests.
    pub fn get_path(&self) -> (p: &Pointer)
        ensures
            p@ == self@.path(),
    {
        match self {
            PatchOperation::Add { path, .. } => path,
            PatchOperation::Remove { path } => path,
            PatchOperation::Replace { path, .. } => path,
            PatchOperation::Move { path, .. } => path,
            PatchOperation::Copy { path, .. } => path,
            PatchOperation::Test { path, .. } => path,
        }
    }

    /// Whether the values that the operation carries are well formed.
    pub fn is_well_formed(&self) -> (r: bool)
        ensures
            r == self@.wf(),
    {
        match self {
            PatchOperation::Add { value, .. } => value.is_well_formed(),
            PatchOperation::Replace { value, .. } => value.is_well_formed(),
            PatchOperation::Test { value, .. } => value.is_well_formed(),
            _ => true,
        }
    }

    /// Applies this operation to `target`.
    ///
    /// On success `target` holds the patched document; on failure it is left as
    /// it was and the error says why.
    pub fn apply(&self, target: &mut Json) -> (r: Result<(), ApplicationError>)
        requires
            old(target).wf(),
            self@.wf(),
            !op_panics(self@, old(target).model()),
        ensures
            outcome_matches(spec_apply(self@, old(target).model()), r, old(target).model(), final(target).model()),
            final(target).wf(),
    {
        reveal(spec_apply);
        reveal(op_panics);
        let ghost doc = target.model();
        let path = self.get_path();
        let (parent_ptr, _child) = pointer_split(path);
        if parent_ptr.get(target).is_none() {
            return Err(ApplicationError::PathNotFound(parent_ptr));
        }
        match self {
            PatchOperation::Add { path, value } => apply_add(target, path, value.clone()),
            PatchOperation::Remove { path } => apply_remove(target, path),
            PatchOperation::Replace { path, value } => {
                let toks = match path.lookup_token_chars() {
                    None => {
                        return Err(ApplicationError::PathNotFound(path.clone()));
                    },
                    Some(t) => t,
                };
                if resolve_exec(target, &toks).is_none() {
                    return Err(ApplicationError::PathNotFound(path.clone()));
                }
                let ghost tv = toks_view(toks@);
                assert(tv.skip(0) =~= tv);
                let v = value.clone();
                proof {
                    lemma_update_at_wf(doc, tv, v.model());
                }
                replace_at(target, &toks, 0, v);
                Ok(())
            },
            PatchOperation::Move { from, path } => {
                let from_tokens = from.token_chars();
                let path_tokens = path.token_chars();
                if proper_prefix_exec(&from_tokens, &path_tokens) {
                    return Err(ApplicationError::NotApplicable(self.clone()));
                }
                let value = match from.get(target) {
                    None => {
                        return Err(ApplicationError::PathNotFound(from.clone()));
                    },
                    Some(v) => v.clone(),
                };
                proof {
                    lemma_resolve_wf(doc, lookup_tokens(from@).unwrap());
                }
                let mut copy = target.clone();
                match apply_remove(&mut copy, from) {
                    Ok(()) => {},
                    Err(ApplicationError::NotApplicable(op)) => {},
                    Err(e) => {
                        return Err(e);
                    },
                }
                match apply_add(&mut copy, path, value) {
                    Ok(()) => {},
                    Err(e) => {
                        return Err(e);
                    },
                }
                *target = copy;
                Ok(())
            },
            PatchOperation::Copy { from, path } => {
                let value = match from.get(target) {
                    None => {
                        return Err(ApplicationError::PathNotFound(from.clone()));
                    },
                    Some(v) => v.clone(),
                };
                proof {
                    lemma_resolve_wf(doc, lookup_tokens(from@).unwrap());
                }
                apply_add(target, path, value)
            },
            PatchOperation::Test { path, value } => {
                match path.get(target) {
                    None => Err(ApplicationError::PathNotFound(path.clone())),
                    Some(vut) => {
                        if vut.equals(value) {
                            Ok(())
                        } else {
                            Err(
                                ApplicationError::TestFailed {
                                    path: path.clone(),
                                    value: vut.clone(),
                                    test_value: value.clone(),
                                },
                            )
                        }
                    },
                }
            },
        }
    }
}

} // verus!

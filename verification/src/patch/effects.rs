//! What single operations do: the facts that the laws of patches and the proof
//! of generated patches rest on.
use vstd::prelude::*;

use crate::json::{lemma_obj_get_insert, lemma_obj_get_remove, obj_find, obj_get, obj_insert, obj_remove, sorted_keys, JsonV};
use crate::diff::member_path;
use crate::patch::operations::{
    is_proper_prefix, last_raw_token, lemma_path_of_push, op_panics, parent_path, path_of, spec_add,
    spec_apply, spec_remove, ErrV, OpV,
};
use crate::pointer::{
    lemma_resolve_push, lemma_resolve_update_at, lemma_write_then_read, lookup_tokens, pointer_get, raw_tokens_of, resolve,
    strip_slash, tokens_of, update_at,
};
use crate::text::{
    decimal, decode_token, escape_key, parse_usize, lemma_decimal, lemma_decimal_parse, lemma_decode_escape_key,
    lemma_escape_key_shape, lemma_replace_pair_absent, lemma_split_on_cons, lemma_split_on_plain,
};

verus! {

/// Whether no token holds a `/`.
pub open spec fn plain_tokens(raw: Seq<Seq<char>>) -> bool {
    forall|i: int| 0 <= i < raw.len() ==> !(#[trigger] raw[i]).contains('/')
}

/// The tokens with their escapes undone.
pub open spec fn decoded(raw: Seq<Seq<char>>) -> Seq<Seq<char>> {
    raw.map_values(|t: Seq<char>| decode_token(t))
}

/// A pointer string written from tokens without `/` splits back into them,
/// and its parent and last token are the ones it was written from.
pub proof fn lemma_path_of_tokens(raw: Seq<Seq<char>>)
    requires
        plain_tokens(raw),
    ensures
        raw_tokens_of(path_of(raw)) == raw,
        lookup_tokens(path_of(raw)) == Some(decoded(raw)),
        raw.len() > 0 ==> parent_path(path_of(raw)) == path_of(raw.drop_last()),
        raw.len() > 0 ==> last_raw_token(path_of(raw)) == Some(raw.last()),
    decreases raw.len(),
{
    if raw.len() == 0 {
        assert(decoded(raw) =~= Seq::<Seq<char>>::empty());
    } else {
        let rest = raw.drop_first();
        assert(plain_tokens(rest)) by {
            assert forall|i: int| 0 <= i < rest.len() implies !(#[trigger] rest[i]).contains('/') by {
                assert(rest[i] == raw[i + 1]);
            }
        }
        lemma_path_of_tokens(rest);
        let p = path_of(raw);
        assert(p == seq!['/'] + raw[0] + path_of(rest));
        assert(p[0] == '/');
        assert(strip_slash(p) =~= raw[0] + path_of(rest));
        assert(!raw[0].contains('/'));
        if rest.len() == 0 {
            assert(path_of(rest) =~= Seq::<char>::empty());
            lemma_split_on_plain(raw[0], '/');
            assert(raw[0] + path_of(rest) =~= raw[0]);
            assert(raw =~= seq![raw[0]]);
        } else {
            let y = rest[0] + path_of(rest.drop_first());
            assert(path_of(rest) =~= seq!['/'] + y);
            assert(raw[0] + path_of(rest) =~= raw[0] + seq!['/'] + y);
            lemma_split_on_cons(raw[0], '/', y);
            assert(strip_slash(path_of(rest)) =~= y);
            assert(raw =~= seq![raw[0]] + rest);
        }
        assert(raw_tokens_of(p) == raw);
        assert(tokens_of(p) =~= decoded(raw));
    }
}

/// The tokens of a member below `raw`.
pub proof fn lemma_member_tokens(raw: Seq<Seq<char>>, k: Seq<char>)
    requires
        plain_tokens(raw),
    ensures
        plain_tokens(raw.push(escape_key(k))),
        decoded(raw.push(escape_key(k))) == decoded(raw).push(k),
        path_of(raw.push(escape_key(k))) == path_of(raw) + seq!['/'] + escape_key(k),
        raw.push(escape_key(k)).drop_last() == raw,
{
    lemma_escape_key_shape(k);
    lemma_decode_escape_key(k);
    lemma_path_of_push(raw, escape_key(k));
    let r = raw.push(escape_key(k));
    assert forall|i: int| 0 <= i < r.len() implies !(#[trigger] r[i]).contains('/') by {
        if i < raw.len() {
            assert(r[i] == raw[i]);
        }
    }
    assert(decoded(r) =~= decoded(raw).push(k));
    assert(r.drop_last() =~= raw);
}

/// The tokens of an element below `raw`.
pub proof fn lemma_index_tokens(raw: Seq<Seq<char>>, i: usize)
    requires
        plain_tokens(raw),
    ensures
        plain_tokens(raw.push(decimal(i as nat))),
        decoded(raw.push(decimal(i as nat))) == decoded(raw).push(decimal(i as nat)),
        path_of(raw.push(decimal(i as nat))) == path_of(raw) + seq!['/'] + decimal(i as nat),
        raw.push(decimal(i as nat)).drop_last() == raw,
{
    let d = decimal(i as nat);
    lemma_decimal_parse(i);
    lemma_replace_pair_absent(d, '~', '1', '/');
    lemma_replace_pair_absent(d, '~', '0', '~');
    lemma_path_of_push(raw, d);
    let r = raw.push(d);
    assert forall|j: int| 0 <= j < r.len() implies !(#[trigger] r[j]).contains('/') by {
        if j < raw.len() {
            assert(r[j] == raw[j]);
        }
    }
    assert(decoded(r) =~= decoded(raw).push(d));
    assert(r.drop_last() =~= raw);
}

/// Where a path reaches a value, the path of its container reaches one too.
pub proof fn lemma_parent_resolves(raw: Seq<Seq<char>>, doc: JsonV)
    requires
        plain_tokens(raw),
        raw.len() > 0,
        resolve(doc, decoded(raw)) is Some,
    ensures
        pointer_get(doc, parent_path(path_of(raw))) is Some,
{
    let pr = raw.drop_last();
    assert(plain_tokens(pr)) by {
        assert forall|i: int| 0 <= i < pr.len() implies !(#[trigger] pr[i]).contains('/') by {
            assert(pr[i] == raw[i]);
        }
    }
    lemma_path_of_tokens(raw);
    lemma_path_of_tokens(pr);
    let t = decoded(raw);
    assert(decoded(pr) =~= t.drop_last());
    assert(t.drop_last().push(t.last()) =~= t);
    lemma_resolve_push(doc, t.drop_last(), t.last());
}

/// Replacing at a path that reaches a value writes the new value there.
pub proof fn lemma_apply_replace(raw: Seq<Seq<char>>, value: JsonV, doc: JsonV)
    requires
        plain_tokens(raw),
        resolve(doc, decoded(raw)) is Some,
    ensures
        spec_apply(OpV::Replace { path: path_of(raw), value }, doc) == Ok::<JsonV, crate::patch::operations::ErrV>(
            update_at(doc, decoded(raw), value),
        ),
        !op_panics(OpV::Replace { path: path_of(raw), value }, doc),
{
    reveal(spec_apply);
    reveal(op_panics);
    lemma_path_of_tokens(raw);
    if raw.len() > 0 {
        lemma_parent_resolves(raw, doc);
    } else {
        assert(path_of(raw) =~= Seq::<char>::empty());
        assert(raw_tokens_of(path_of(raw)).len() == 0);
    }
}

/// Removing the member `k` of the object that `raw` reaches takes it out.
pub proof fn lemma_apply_remove_member(raw: Seq<Seq<char>>, k: Seq<char>, doc: JsonV, m: Seq<(Seq<char>, JsonV)>)
    requires
        plain_tokens(raw),
        resolve(doc, decoded(raw)) == Some(JsonV::Object(m)),
        obj_find(m, k) is Some,
    ensures
        spec_apply(OpV::Remove { path: path_of(raw.push(escape_key(k))) }, doc)
            == Ok::<JsonV, crate::patch::operations::ErrV>(update_at(doc, decoded(raw), JsonV::Object(obj_remove(m, k)))),
        !op_panics(OpV::Remove { path: path_of(raw.push(escape_key(k))) }, doc),
{
    reveal(spec_apply);
    reveal(op_panics);
    lemma_member_tokens(raw, k);
    lemma_path_of_tokens(raw);
    lemma_path_of_tokens(raw.push(escape_key(k)));
    lemma_decode_escape_key(k);
}

/// Adding the member `k`, written escaped, to the object that `raw` reaches
/// sets it.
pub proof fn lemma_apply_add_member(
    raw: Seq<Seq<char>>,
    k: Seq<char>,
    value: JsonV,
    doc: JsonV,
    m: Seq<(Seq<char>, JsonV)>,
)
    requires
        plain_tokens(raw),
        resolve(doc, decoded(raw)) == Some(JsonV::Object(m)),
    ensures
        spec_apply(OpV::Add { path: path_of(raw.push(escape_key(k))), value }, doc)
            == Ok::<JsonV, crate::patch::operations::ErrV>(update_at(doc, decoded(raw), JsonV::Object(obj_insert(m, k, value)))),
        !op_panics(OpV::Add { path: path_of(raw.push(escape_key(k))), value }, doc),
{
    reveal(spec_apply);
    reveal(op_panics);
    lemma_member_tokens(raw, k);
    lemma_decode_escape_key(k);
    lemma_path_of_tokens(raw);
    lemma_path_of_tokens(raw.push(escape_key(k)));
}

/// Removing the element `i` of the array that `raw` reaches takes it out.
pub proof fn lemma_apply_remove_index(raw: Seq<Seq<char>>, i: usize, doc: JsonV, a: Seq<JsonV>)
    requires
        plain_tokens(raw),
        resolve(doc, decoded(raw)) == Some(JsonV::Array(a)),
        i < a.len(),
    ensures
        spec_apply(OpV::Remove { path: path_of(raw.push(decimal(i as nat))) }, doc)
            == Ok::<JsonV, crate::patch::operations::ErrV>(update_at(doc, decoded(raw), JsonV::Array(a.remove(i as int)))),
        !op_panics(OpV::Remove { path: path_of(raw.push(decimal(i as nat))) }, doc),
{
    reveal(spec_apply);
    reveal(op_panics);
    lemma_index_tokens(raw, i);
    lemma_decimal_parse(i);
    lemma_path_of_tokens(raw);
    lemma_path_of_tokens(raw.push(decimal(i as nat)));
}

/// Adding at the index `i` of the array that `raw` reaches inserts there.
pub proof fn lemma_apply_add_index(raw: Seq<Seq<char>>, i: usize, value: JsonV, doc: JsonV, a: Seq<JsonV>)
    requires
        plain_tokens(raw),
        resolve(doc, decoded(raw)) == Some(JsonV::Array(a)),
        i <= a.len(),
    ensures
        spec_apply(OpV::Add { path: path_of(raw.push(decimal(i as nat))), value }, doc)
            == Ok::<JsonV, crate::patch::operations::ErrV>(update_at(doc, decoded(raw), JsonV::Array(a.insert(i as int, value)))),
        !op_panics(OpV::Add { path: path_of(raw.push(decimal(i as nat))), value }, doc),
{
    reveal(spec_apply);
    reveal(op_panics);
    lemma_index_tokens(raw, i);
    lemma_decimal_parse(i);
    lemma_decimal(i as nat);
    lemma_path_of_tokens(raw);
    lemma_path_of_tokens(raw.push(decimal(i as nat)));
    let d = decimal(i as nat);
    if d == seq!['-'] {
        assert(crate::text::digit_value(d[0]) is Some);
    }
}

/// A `test` that passes leaves the document as it was.
pub proof fn lemma_test_keeps_document(path: Seq<char>, value: JsonV, doc: JsonV)
    ensures
        spec_apply(OpV::Test { path, value }, doc) matches Ok(d) ==> d == doc,
{
    reveal(spec_apply);
}

/// After a `replace` succeeds, its path reads the new value.
pub proof fn lemma_replace_then_get(path: Seq<char>, value: JsonV, doc: JsonV)
    ensures
        spec_apply(OpV::Replace { path, value }, doc) matches Ok(d) ==> pointer_get(d, path) == Some(value),
{
    reveal(spec_apply);
    if let Ok(d) = spec_apply(OpV::Replace { path, value }, doc) {
        lemma_resolve_update_at(doc, lookup_tokens(path).unwrap(), value);
    }
}

/// An `add` on its own does what the addition inside a `move` or `copy` does.
pub proof fn lemma_add_is_spec_add(path: Seq<char>, value: JsonV, doc: JsonV)
    ensures
        spec_apply(OpV::Add { path, value }, doc) == spec_add(path, value, doc),
{
    reveal(spec_apply);
}

/// A `remove` on its own does what the removal inside a `move` does.
pub proof fn lemma_remove_is_spec_remove(path: Seq<char>, doc: JsonV)
    ensures
        spec_apply(OpV::Remove { path }, doc) == spec_remove(path, doc),
{
    reveal(spec_apply);
}

/// A `copy` whose target's container exists is an `add`, at its path, of the
/// value at `from`; where `from` reaches nothing, it fails with that path.
pub proof fn lemma_copy_is_add(from: Seq<char>, path: Seq<char>, doc: JsonV)
    requires
        pointer_get(doc, parent_path(path)) is Some,
    ensures
        spec_apply(OpV::Copy { from, path }, doc) == match pointer_get(doc, from) {
            Some(v) => spec_apply(OpV::Add { path, value: v }, doc),
            None => Err(ErrV::PathNotFound(from)),
        },
{
    reveal(spec_apply);
}

/// A `move` whose target's container exists, and whose `from` is not above
/// its path, is a `remove` at `from` followed by an `add`, at its path, of the
/// value that was at `from`; a `remove` that does not apply is skipped.
pub proof fn lemma_move_is_remove_then_add(from: Seq<char>, path: Seq<char>, doc: JsonV)
    requires
        pointer_get(doc, parent_path(path)) is Some,
    ensures
        spec_apply(OpV::Move { from, path }, doc) == if is_proper_prefix(tokens_of(from), tokens_of(path)) {
            Err(ErrV::NotApplicable(OpV::Move { from, path }))
        } else {
            match pointer_get(doc, from) {
                None => Err(ErrV::PathNotFound(from)),
                Some(v) => match spec_apply(OpV::Remove { path: from }, doc) {
                    Ok(d) => spec_apply(OpV::Add { path, value: v }, d),
                    Err(ErrV::NotApplicable(_)) => spec_apply(OpV::Add { path, value: v }, doc),
                    Err(e) => Err(e),
                },
            }
        },
{
    reveal(spec_apply);
    lemma_remove_is_spec_remove(from, doc);
    if let Some(v) = pointer_get(doc, from) {
        if let Ok(d) = spec_remove(from, doc) {
            lemma_add_is_spec_add(path, v, d);
        }
        lemma_add_is_spec_add(path, v, doc);
    }
}

/// Keys written one after another as escaped reference tokens, each after a
/// `/`, read back as those keys: the tokens of the pointer undo the escapes.
pub proof fn lemma_escaped_keys_tokens(keys: Seq<Seq<char>>)
    ensures
        tokens_of(path_of(keys.map_values(|k: Seq<char>| escape_key(k)))) == keys,
        lookup_tokens(path_of(keys.map_values(|k: Seq<char>| escape_key(k)))) == Some(keys),
{
    let raw = keys.map_values(|k: Seq<char>| escape_key(k));
    assert forall|i: int| 0 <= i < raw.len() implies !(#[trigger] raw[i]).contains('/') by {
        lemma_escape_key_shape(keys[i]);
    }
    lemma_path_of_tokens(raw);
    assert forall|i: int| 0 <= i < keys.len() implies #[trigger] decoded(raw)[i] == keys[i] by {
        lemma_decode_escape_key(keys[i]);
    }
    assert(decoded(raw) =~= keys);
    assert(tokens_of(path_of(raw)) =~= keys);
}

/// Appending a key as `diff`'s `push_key` does, a `/` and the escaped key,
/// extends the pointer written from the escaped keys by that key.
pub proof fn lemma_push_key_path(keys: Seq<Seq<char>>, k: Seq<char>)
    ensures
        member_path(path_of(keys.map_values(|k: Seq<char>| escape_key(k))), k) == path_of(
            keys.push(k).map_values(|k: Seq<char>| escape_key(k)),
        ),
{
    let raw = keys.map_values(|k: Seq<char>| escape_key(k));
    lemma_path_of_push(raw, escape_key(k));
    assert(keys.push(k).map_values(|k: Seq<char>| escape_key(k)) =~= raw.push(escape_key(k)));
}

/// An `add` whose last token is `-`, into a container that is an array, appends
/// the value to that array, whatever the array holds, the empty array
/// included: the container then reads as the array with the value at its end.
pub proof fn lemma_add_dash_appends(path: Seq<char>, value: JsonV, doc: JsonV, a: Seq<JsonV>)
    requires
        pointer_get(doc, parent_path(path)) == Some(JsonV::Array(a)),
        last_raw_token(path) == Some(seq!['-']),
    ensures
        spec_apply(OpV::Add { path, value }, doc) matches Ok(d) && pointer_get(d, parent_path(path)) == Some(
            JsonV::Array(a.push(value)),
        ),
{
    reveal(spec_apply);
    lemma_write_then_read(doc, parent_path(path), JsonV::Array(a.push(value)));
}

/// A `move` is refused as not applicable exactly when the container of its
/// path exists and the tokens of `from` are a proper prefix of those of `path`:
/// fewer of them, each equal to the token of `path` at the same place. A `move`
/// whose `from` differs from `path` in any token of `from` is never refused so.
pub proof fn lemma_move_refused(from: Seq<char>, path: Seq<char>, doc: JsonV)
    ensures
        (spec_apply(OpV::Move { from, path }, doc) matches Err(ErrV::NotApplicable(_))) <==> (pointer_get(
            doc,
            parent_path(path),
        ) is Some && tokens_of(from).len() < tokens_of(path).len() && tokens_of(path).take(
            tokens_of(from).len() as int,
        ) == tokens_of(from)),
{
    reveal(spec_apply);
    let f = tokens_of(from);
    let p = tokens_of(path);
    if f.len() < p.len() {
        if p.take(f.len() as int) == f {
            assert forall|i: int| 0 <= i < f.len() implies f[i] == p[i] by {
                assert(p.take(f.len() as int)[i] == p[i]);
            }
        }
        if is_proper_prefix(f, p) {
            assert(p.take(f.len() as int) =~= f);
        }
    }
    if let Some(v) = pointer_get(doc, from) {
        assert(!(spec_add(path, v, doc) matches Err(ErrV::NotApplicable(_))));
        if let Ok(d) = spec_remove(from, doc) {
            assert(!(spec_add(path, v, d) matches Err(ErrV::NotApplicable(_))));
        }
    }
}

/// Only an `add`, a `move` or a `copy` can panic, and only by adding below a
/// last token: a `remove`, a `replace` or a `test` never panics, whatever it
/// finds, a failing `test` included.
pub proof fn lemma_only_additions_panic(op: OpV, doc: JsonV)
    ensures
        op_panics(op, doc) ==> (op is Add || op is Move || op is Copy) && last_raw_token(op.path()) is Some,
{
    reveal(op_panics);
}

/// An `add` at an index of an array inserts the value there, moving the
/// elements from that index on one place up, where the index is at most the
/// array's length, and fails as out of bounds where it is larger.
pub proof fn lemma_add_index_inserts(path: Seq<char>, value: JsonV, doc: JsonV, a: Seq<JsonV>, i: usize)
    requires
        pointer_get(doc, parent_path(path)) == Some(JsonV::Array(a)),
        last_raw_token(path) matches Some(t) && t != seq!['-'] && parse_usize(t) == Some(i),
    ensures
        i <= a.len() ==> (spec_apply(OpV::Add { path, value }, doc) matches Ok(d) && pointer_get(
            d,
            parent_path(path),
        ) == Some(JsonV::Array(a.insert(i as int, value)))),
        i > a.len() ==> spec_apply(OpV::Add { path, value }, doc) == Err::<JsonV, ErrV>(
            ErrV::ArrayOutOfBounds(path),
        ),
{
    reveal(spec_apply);
    if i <= a.len() {
        lemma_write_then_read(doc, parent_path(path), JsonV::Array(a.insert(i as int, value)));
    }
}

/// An `add` into an object sets the member whose key is the last token of the
/// path with its escapes undone, and leaves every other member as it was.
pub proof fn lemma_add_member_sets(path: Seq<char>, value: JsonV, doc: JsonV, m: Seq<(Seq<char>, JsonV)>)
    requires
        pointer_get(doc, parent_path(path)) == Some(JsonV::Object(m)),
        sorted_keys(m),
        last_raw_token(path) is Some,
    ensures
        spec_apply(OpV::Add { path, value }, doc) matches Ok(d) && pointer_get(d, parent_path(path)) matches Some(
            JsonV::Object(m2),
        ) && forall|q: Seq<char>|
            #[trigger] obj_get(m2, q) == if q == decode_token(last_raw_token(path).unwrap()) {
                Some(value)
            } else {
                obj_get(m, q)
            },
{
    reveal(spec_apply);
    let k = decode_token(last_raw_token(path).unwrap());
    lemma_write_then_read(doc, parent_path(path), JsonV::Object(obj_insert(m, k, value)));
    assert forall|q: Seq<char>| #[trigger] obj_get(obj_insert(m, k, value), q) == if q == k {
        Some(value)
    } else {
        obj_get(m, q)
    } by {
        lemma_obj_get_insert(m, k, value, q);
    }
}

/// A `remove` in an object takes out the member whose key is the last token of
/// the path with its escapes undone, leaving every other member as it was, and
/// fails with the path where there is no such member.
pub proof fn lemma_remove_member_takes_out(path: Seq<char>, doc: JsonV, m: Seq<(Seq<char>, JsonV)>)
    requires
        pointer_get(doc, parent_path(path)) == Some(JsonV::Object(m)),
        sorted_keys(m),
        last_raw_token(path) is Some,
    ensures
        obj_get(m, decode_token(last_raw_token(path).unwrap())) is None ==> spec_apply(OpV::Remove { path }, doc)
            == Err::<JsonV, ErrV>(ErrV::PathNotFound(path)),
        obj_get(m, decode_token(last_raw_token(path).unwrap())) is Some ==> (spec_apply(OpV::Remove { path }, doc) matches Ok(d)
            && pointer_get(d, parent_path(path)) matches Some(JsonV::Object(m2)) && forall|q: Seq<char>|
            #[trigger] obj_get(m2, q) == if q == decode_token(last_raw_token(path).unwrap()) {
                None
            } else {
                obj_get(m, q)
            }),
{
    reveal(spec_apply);
    let k = decode_token(last_raw_token(path).unwrap());
    lemma_write_then_read(doc, parent_path(path), JsonV::Object(obj_remove(m, k)));
    assert forall|q: Seq<char>| #[trigger] obj_get(obj_remove(m, k), q) == if q == k {
        None
    } else {
        obj_get(m, q)
    } by {
        lemma_obj_get_remove(m, k, q);
    }
}

/// A `remove` at an index of an array takes that element out, moving the
/// later ones one place down, and fails as out of bounds where there is no
/// element at the index.
pub proof fn lemma_remove_index_takes_out(path: Seq<char>, doc: JsonV, a: Seq<JsonV>, i: usize)
    requires
        pointer_get(doc, parent_path(path)) == Some(JsonV::Array(a)),
        last_raw_token(path) matches Some(t) && parse_usize(t) == Some(i),
    ensures
        i < a.len() ==> (spec_apply(OpV::Remove { path }, doc) matches Ok(d) && pointer_get(d, parent_path(path))
            == Some(JsonV::Array(a.remove(i as int)))),
        i >= a.len() ==> spec_apply(OpV::Remove { path }, doc) == Err::<JsonV, ErrV>(ErrV::ArrayOutOfBounds(path)),
{
    reveal(spec_apply);
    if i < a.len() {
        lemma_write_then_read(doc, parent_path(path), JsonV::Array(a.remove(i as int)));
    }
}

/// A `test` at a path that reaches a value passes, leaving the document as it
/// was, exactly when that value equals the expected one as a JSON value, and
/// otherwise fails with the path, the value found and the value expected.
pub proof fn lemma_test_compares(path: Seq<char>, value: JsonV, doc: JsonV, found: JsonV)
    requires
        pointer_get(doc, parent_path(path)) is Some,
        pointer_get(doc, path) == Some(found),
    ensures
        found.same(value) ==> spec_apply(OpV::Test { path, value }, doc) == Ok::<JsonV, ErrV>(doc),
        !found.same(value) ==> spec_apply(OpV::Test { path, value }, doc) == Err::<JsonV, ErrV>(
            ErrV::TestFailed { path, value: found, test_value: value },
        ),
        !op_panics(OpV::Test { path, value }, doc),
{
    reveal(spec_apply);
    reveal(op_panics);
}

} // verus!

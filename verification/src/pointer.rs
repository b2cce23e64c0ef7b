//! JSON Pointer support (RFC 6901).
//!
//! A [`Pointer`] holds a pointer string. Its reference tokens are the pieces
//! between `/` separators, with `~1` read as `/` and then `~0` read as `~`.
use vstd::prelude::*;

use crate::json::{
    entries_model, items_model, lemma_obj_pos_same_keys, member_get, member_position, obj_find,
    obj_get, Json, JsonV,
};
use crate::text::{
    count_char, join_on, lemma_split_on_join,
    chars_of, decode_token, decode_token_exec, parse_usize, parse_usize_exec, split_exec, split_on,
    string_of,
};

verus! {

/// A JSON Pointer as defined by RFC 6901, held as its pointer string.
#[derive(Debug, PartialEq, Eq, Hash)]
pub struct Pointer(String);

impl View for Pointer {
    type V = Seq<char>;

    closed spec fn view(&self) -> Seq<char> {
        self.0@
    }
}

/// The path with one leading `/` removed, where there is one.
pub open spec fn strip_slash(p: Seq<char>) -> Seq<char> {
    if p.len() > 0 && p[0] == '/' {
        p.drop_first()
    } else {
        p
    }
}

/// The reference tokens of a path as written, escapes kept: none for the empty
/// path, else the pieces between `/` after one leading `/` is dropped.
pub open spec fn raw_tokens_of(p: Seq<char>) -> Seq<Seq<char>> {
    if p.len() == 0 {
        Seq::empty()
    } else {
        split_on(strip_slash(p), '/')
    }
}

/// The reference tokens of a path with their escapes undone.
pub open spec fn tokens_of(p: Seq<char>) -> Seq<Seq<char>> {
    raw_tokens_of(p).map_values(|t: Seq<char>| decode_token(t))
}

/// The tokens by which a lookup walks the document: the empty path names the
/// whole document, a path that does not start with `/` names nothing.
pub open spec fn lookup_tokens(p: Seq<char>) -> Option<Seq<Seq<char>>> {
    if p.len() == 0 {
        Some(Seq::empty())
    } else if p[0] != '/' {
        None
    } else {
        Some(tokens_of(p))
    }
}

/// The array index that a token names in a lookup: decimal digits without a
/// sign and without a leading zero, of a value that fits in a `usize`.
pub open spec fn lookup_index(t: Seq<char>) -> Option<usize> {
    if t.len() > 0 && (t[0] == '+' || (t[0] == '0' && t.len() != 1)) {
        None
    } else {
        parse_usize(t)
    }
}

/// The value that the tokens `toks` reach from `doc`: the member with the
/// token as key in an object, the element at the token's index in an array.
pub open spec fn resolve(doc: JsonV, toks: Seq<Seq<char>>) -> Option<JsonV>
    decreases toks.len(),
{
    if toks.len() == 0 {
        Some(doc)
    } else {
        match doc {
            JsonV::Object(m) => match obj_get(m, toks[0]) {
                Some(v) => resolve(v, toks.drop_first()),
                None => None,
            },
            JsonV::Array(a) => match lookup_index(toks[0]) {
                Some(i) => if i < a.len() {
                    resolve(a[i as int], toks.drop_first())
                } else {
                    None
                },
                None => None,
            },
            _ => None,
        }
    }
}

/// The value that the pointer string `p` addresses in `doc`.
pub open spec fn pointer_get(doc: JsonV, p: Seq<char>) -> Option<JsonV> {
    match lookup_tokens(p) {
        Some(toks) => resolve(doc, toks),
        None => None,
    }
}

/// `doc` with the value that `toks` reaches replaced by `new`.
pub open spec fn update_at(doc: JsonV, toks: Seq<Seq<char>>, new: JsonV) -> JsonV
    decreases toks.len(),
{
    if toks.len() == 0 {
        new
    } else {
        match doc {
            JsonV::Object(m) => match obj_find(m, toks[0]) {
                Some(i) => JsonV::Object(
                    m.update(i, (m[i].0, update_at(m[i].1, toks.drop_first(), new))),
                ),
                None => doc,
            },
            JsonV::Array(a) => match lookup_index(toks[0]) {
                Some(i) => if i < a.len() {
                    JsonV::Array(a.update(i as int, update_at(a[i as int], toks.drop_first(), new)))
                } else {
                    doc
                },
                None => doc,
            },
            _ => doc,
        }
    }
}

/// The views of a vector of token vectors.
pub open spec fn toks_view(toks: Seq<Vec<char>>) -> Seq<Seq<char>> {
    toks.map_values(|t: Vec<char>| t@)
}

/// The array index that a token names in a lookup.
pub fn lookup_index_exec(t: &Vec<char>) -> (r: Option<usize>)
    ensures
        r == lookup_index(t@),
{
    if t.len() > 0 && (t[0] == '+' || (t[0] == '0' && t.len() != 1)) {
        None
    } else {
        parse_usize_exec(t)
    }
}

impl Pointer {
    /// Creates a pointer from a pointer string. The string is kept as it is;
    /// the empty string addresses the whole document.
    pub fn new(path: &str) -> (p: Pointer)
        ensures
            p@ == path@,
    {
        Pointer(path.to_string())
    }

    /// Creates a pointer that owns the given pointer string.
    pub fn from_string(path: String) -> (p: Pointer)
        ensures
            p@ == path@,
    {
        Pointer(path)
    }

    /// The pointer string.
    pub fn as_str(&self) -> (s: &str)
        ensures
            s@ == self@,
    {
        self.0.as_str()
    }

    /// The reference tokens as written, escapes kept, as character vectors.
    pub fn raw_token_chars(&self) -> (r: Vec<Vec<char>>)
        ensures
            toks_view(r@) == raw_tokens_of(self@),
    {
        let cs = chars_of(self.0.as_str());
        if cs.len() == 0 {
            let r: Vec<Vec<char>> = Vec::new();
            assert(toks_view(r@) =~= raw_tokens_of(self@));
            return r;
        }
        let start: usize = if cs[0] == '/' {
            1
        } else {
            0
        };
        assert(cs@.skip(start as int) =~= strip_slash(cs@));
        let r = split_exec(&cs, start, '/');
        assert(toks_view(r@) =~= raw_tokens_of(self@));
        r
    }

    /// The reference tokens with their escapes undone, as character vectors.
    pub fn token_chars(&self) -> (r: Vec<Vec<char>>)
        ensures
            toks_view(r@) == tokens_of(self@),
    {
        let raw = self.raw_token_chars();
        let mut r: Vec<Vec<char>> = Vec::new();
        let mut i: usize = 0;
        while i < raw.len()
            invariant
                i <= raw.len(),
                toks_view(raw@) == raw_tokens_of(self@),
                r.len() == i,
                forall|j: int| 0 <= j < i ==> #[trigger] r@[j]@ == decode_token(raw@[j]@),
            decreases raw.len() - i,
        {
            let d = decode_token_exec(&raw[i]);
            r.push(d);
            i = i + 1;
        }
        assert(toks_view(r@) =~= tokens_of(self@));
        r
    }

    /// Returns the decoded reference tokens of this pointer.
    ///
    /// The empty pointer has none. Otherwise one leading `/` is dropped, the rest
    /// is split on `/`, and in each piece `~1` becomes `/`, then `~0` becomes `~`.
    pub fn tokens(&self) -> (r: Vec<String>)
        ensures
            r@.len() == tokens_of(self@).len(),
            forall|i: int| 0 <= i < r@.len() ==> #[trigger] r@[i]@ == tokens_of(self@)[i],
    {
        let toks = self.token_chars();
        let mut r: Vec<String> = Vec::new();
        let mut i: usize = 0;
        while i < toks.len()
            invariant
                i <= toks.len(),
                toks_view(toks@) == tokens_of(self@),
                r.len() == i,
                forall|j: int| 0 <= j < i ==> #[trigger] r@[j]@ == toks@[j]@,
            decreases toks.len() - i,
        {
            let s = string_of(toks[i].as_slice());
            r.push(s);
            i = i + 1;
        }
        r
    }

    /// Returns the reference tokens as written, escapes kept.
    pub fn raw_tokens(&self) -> (r: Vec<String>)
        ensures
            r@.len() == raw_tokens_of(self@).len(),
            forall|i: int| 0 <= i < r@.len() ==> #[trigger] r@[i]@ == raw_tokens_of(self@)[i],
    {
        let toks = self.raw_token_chars();
        let mut r: Vec<String> = Vec::new();
        let mut i: usize = 0;
        while i < toks.len()
            invariant
                i <= toks.len(),
                toks_view(toks@) == raw_tokens_of(self@),
                r.len() == i,
                forall|j: int| 0 <= j < i ==> #[trigger] r@[j]@ == toks@[j]@,
            decreases toks.len() - i,
        {
            let s = string_of(toks[i].as_slice());
            r.push(s);
            i = i + 1;
        }
        r
    }

    /// Returns the pointer string without its leading `/`, where it has one.
    pub fn path_without_leading_slash(&self) -> (r: String)
        ensures
            r@ == strip_slash(self@),
    {
        let mut cs = chars_of(self.0.as_str());
        if cs.len() > 0 && cs[0] == '/' {
            let rest = cs.split_off(1);
            proof {
                assert(rest@ =~= strip_slash(self@));
            }
            string_of(rest.as_slice())
        } else {
            string_of(cs.as_slice())
        }
    }

    /// The tokens by which a lookup with this pointer walks a document, if the
    /// pointer can name anything.
    pub fn lookup_token_chars(&self) -> (r: Option<Vec<Vec<char>>>)
        ensures
            match lookup_tokens(self@) {
                Some(t) => r is Some && toks_view(r.unwrap()@) == t,
                None => r is None,
            },
    {
        let cs = chars_of(self.0.as_str());
        if cs.len() == 0 {
            let r: Vec<Vec<char>> = Vec::new();
            assert(toks_view(r@) =~= Seq::<Seq<char>>::empty());
            Some(r)
        } else if cs[0] != '/' {
            None
        } else {
            Some(self.token_chars())
        }
    }

    /// Returns the value addressed by this pointer in `object`, to be written
    /// through, or `None` when there is no such value or the pointer string
    /// does not start with `/` (and is not empty). A value written through the
    /// result stands in `object` at the addressed place.
    pub fn get_mut<'a>(&self, object: &'a mut Json) -> (r: Option<&'a mut Json>)
        ensures
            match pointer_get(old(object).model(), self@) {
                Some(v) => r is Some && r->Some_0.model() == v && final(object).model() == update_at(
                    old(object).model(),
                    lookup_tokens(self@).unwrap(),
                    final(r->Some_0).model(),
                ),
                None => r is None && final(object).model() == old(object).model(),
            },
    {
        match self.lookup_token_chars() {
            None => None,
            Some(toks) => {
                assert(toks_view(toks@).skip(0) =~= toks_view(toks@));
                resolve_mut(object, &toks, 0)
            },
        }
    }

    /// Returns the value addressed by this pointer in `object`, or `None` when
    /// there is no such value or the pointer string does not start with `/`
    /// (and is not empty).
    pub fn get<'a>(&self, object: &'a Json) -> (r: Option<&'a Json>)
        ensures
            match pointer_get(object.model(), self@) {
                Some(v) => r is Some && r.unwrap().model() == v,
                None => r is None,
            },
    {
        match self.lookup_token_chars() {
            None => None,
            Some(toks) => resolve_exec(object, &toks),
        }
    }
}

impl From<String> for Pointer {
    fn from(path: String) -> (p: Pointer)
        ensures
            p@ == path@,
    {
        Pointer(path)
    }
}

impl vstd::std_specs::convert::FromSpecImpl<String> for Pointer {
    open spec fn obeys_from_spec() -> bool {
        true
    }

    closed spec fn from_spec(path: String) -> Pointer {
        Pointer(path)
    }
}

impl Clone for Pointer {
    fn clone(&self) -> (p: Pointer)
        ensures
            p@ == self@,
    {
        Pointer(self.0.clone())
    }
}

/// The value that the tokens `toks` reach from `doc`.
pub fn resolve_exec<'a>(doc: &'a Json, toks: &Vec<Vec<char>>) -> (r: Option<&'a Json>)
    ensures
        match resolve(doc.model(), toks_view(toks@)) {
            Some(v) => r is Some && r.unwrap().model() == v,
            None => r is None,
        },
{
    let mut cur: &'a Json = doc;
    let mut i: usize = 0;
    let ghost tv = toks_view(toks@);
    assert(tv.skip(0) =~= tv);
    while i < toks.len()
        invariant
            i <= toks.len(),
            tv == toks_view(toks@),
            resolve(doc.model(), tv) == resolve(cur.model(), tv.skip(i as int)),
        decreases toks.len() - i,
    {
        let ghost rest = tv.skip(i as int);
        assert(rest[0] == toks@[i as int]@);
        assert(rest.drop_first() =~= tv.skip(i + 1));
        match cur {
            Json::Object(m) => {
                let key = string_of(toks[i].as_slice());
                match member_get(m, key.as_str()) {
                    Some(next) => {
                        cur = next;
                    },
                    None => {
                        return None;
                    },
                }
            },
            Json::Array(a) => {
                match lookup_index_exec(&toks[i]) {
                    Some(idx) => {
                        if idx < a.len() {
                            cur = &a[idx];
                        } else {
                            return None;
                        }
                    },
                    None => {
                        return None;
                    },
                }
            },
            _ => {
                return None;
            },
        }
        i = i + 1;
    }
    Some(cur)
}

/// Walking one more token is walking to where `toks` leads, then that token.
pub proof fn lemma_resolve_push(doc: JsonV, toks: Seq<Seq<char>>, t: Seq<char>)
    ensures
        resolve(doc, toks.push(t)) == match resolve(doc, toks) {
            Some(v) => resolve(v, seq![t]),
            None => None,
        },
    decreases toks.len(),
{
    if toks.len() == 0 {
        assert(toks.push(t) =~= seq![t]);
    } else {
        assert(toks.push(t).drop_first() =~= toks.drop_first().push(t));
        match doc {
            JsonV::Object(m) => {
                if let Some(v) = obj_get(m, toks[0]) {
                    lemma_resolve_push(v, toks.drop_first(), t);
                }
            },
            JsonV::Array(a) => {
                if let Some(i) = lookup_index(toks[0]) {
                    if i < a.len() {
                        lemma_resolve_push(a[i as int], toks.drop_first(), t);
                    }
                }
            },
            _ => {},
        }
    }
}

/// Writing one token further down is rewriting, at `toks`, the value found
/// there with the write below it.
pub proof fn lemma_update_at_push(doc: JsonV, toks: Seq<Seq<char>>, t: Seq<char>, new: JsonV)
    requires
        resolve(doc, toks) is Some,
    ensures
        update_at(doc, toks.push(t), new) == update_at(
            doc,
            toks,
            update_at(resolve(doc, toks).unwrap(), seq![t], new),
        ),
    decreases toks.len(),
{
    if toks.len() == 0 {
        assert(toks.push(t) =~= seq![t]);
    } else {
        assert(toks.push(t).drop_first() =~= toks.drop_first().push(t));
        assert(toks.push(t)[0] == toks[0]);
        match doc {
            JsonV::Object(m) => {
                let i = obj_find(m, toks[0]).unwrap();
                lemma_update_at_push(m[i].1, toks.drop_first(), t, new);
            },
            JsonV::Array(a) => {
                let i = lookup_index(toks[0]).unwrap();
                lemma_update_at_push(a[i as int], toks.drop_first(), t, new);
            },
            _ => {},
        }
    }
}

/// After `new` is written where `toks` reaches a value, `toks` reaches `new`.
pub proof fn lemma_resolve_update_at(doc: JsonV, toks: Seq<Seq<char>>, new: JsonV)
    requires
        resolve(doc, toks) is Some,
    ensures
        resolve(update_at(doc, toks, new), toks) == Some(new),
    decreases toks.len(),
{
    if toks.len() > 0 {
        match doc {
            JsonV::Object(m) => {
                let i = obj_find(m, toks[0]).unwrap();
                let child = update_at(m[i].1, toks.drop_first(), new);
                lemma_obj_pos_same_keys(m, i, child, toks[0]);
                lemma_resolve_update_at(m[i].1, toks.drop_first(), new);
            },
            JsonV::Array(a) => {
                let i = lookup_index(toks[0]).unwrap();
                lemma_resolve_update_at(a[i as int], toks.drop_first(), new);
            },
            _ => {},
        }
    }
}

/// Writing back the value that a path reaches leaves the document as it was.
pub proof fn lemma_update_at_same(doc: JsonV, toks: Seq<Seq<char>>)
    requires
        resolve(doc, toks) is Some,
    ensures
        update_at(doc, toks, resolve(doc, toks).unwrap()) == doc,
    decreases toks.len(),
{
    if toks.len() > 0 {
        match doc {
            JsonV::Object(m) => {
                let i = obj_find(m, toks[0]).unwrap();
                lemma_update_at_same(m[i].1, toks.drop_first());
                assert(m.update(i, (m[i].0, m[i].1)) =~= m);
            },
            JsonV::Array(a) => {
                let i = lookup_index(toks[0]).unwrap();
                lemma_update_at_same(a[i as int], toks.drop_first());
                assert(a.update(i as int, a[i as int]) =~= a);
            },
            _ => {},
        }
    }
}

/// Of two writes at the same path, the second is what remains.
pub proof fn lemma_update_at_twice(doc: JsonV, toks: Seq<Seq<char>>, first: JsonV, second: JsonV)
    requires
        resolve(doc, toks) is Some,
    ensures
        update_at(update_at(doc, toks, first), toks, second) == update_at(doc, toks, second),
    decreases toks.len(),
{
    if toks.len() > 0 {
        match doc {
            JsonV::Object(m) => {
                let i = obj_find(m, toks[0]).unwrap();
                let c1 = update_at(m[i].1, toks.drop_first(), first);
                lemma_obj_pos_same_keys(m, i, c1, toks[0]);
                lemma_update_at_twice(m[i].1, toks.drop_first(), first, second);
                let m1 = m.update(i, (m[i].0, c1));
                assert(m1.update(i, (m1[i].0, update_at(m1[i].1, toks.drop_first(), second))) =~= m.update(
                    i,
                    (m[i].0, update_at(m[i].1, toks.drop_first(), second)),
                ));
            },
            JsonV::Array(a) => {
                let i = lookup_index(toks[0]).unwrap();
                let c1 = update_at(a[i as int], toks.drop_first(), first);
                lemma_update_at_twice(a[i as int], toks.drop_first(), first, second);
                let a1 = a.update(i as int, c1);
                assert(a1.update(i as int, update_at(a1[i as int], toks.drop_first(), second)) =~= a.update(
                    i as int,
                    update_at(a[i as int], toks.drop_first(), second),
                ));
            },
            _ => {},
        }
    }
}

/// The empty pointer addresses the whole document.
pub proof fn lemma_empty_pointer_whole(doc: JsonV)
    ensures
        pointer_get(doc, Seq::empty()) == Some(doc),
{
}

/// Giving one member another value gives its model that member's new model.
proof fn lemma_entries_model_update(v0: Vec<(String, Json)>, p: int)
    requires
        0 <= p < v0.len(),
    ensures
        forall|v1: Vec<(String, Json)>|
            v1@ == v0@.update(p, (v0@[p].0, v1@[p].1)) ==> #[trigger] entries_model(v1) == entries_model(
                v0,
            ).update(p, (v0@[p].0@, v1@[p].1.model())),
        forall|v1: Vec<(String, Json)>|
            v1@ == v0@.update(p, (v0@[p].0, v1@[p].1)) && v1@[p].1.model() == v0@[p].1.model()
                ==> #[trigger] entries_model(v1) == entries_model(v0),
{
    assert forall|v1: Vec<(String, Json)>|
        v1@ == v0@.update(p, (v0@[p].0, v1@[p].1)) && v1@[p].1.model() == v0@[p].1.model()
            implies #[trigger] entries_model(v1) == entries_model(v0) by {
        assert(entries_model(v1) =~= entries_model(v0));
    }
    assert forall|v1: Vec<(String, Json)>|
        v1@ == v0@.update(p, (v0@[p].0, v1@[p].1)) implies #[trigger] entries_model(v1) == entries_model(
            v0,
        ).update(p, (v0@[p].0@, v1@[p].1.model())) by {
        assert(entries_model(v1) =~= entries_model(v0).update(p, (v0@[p].0@, v1@[p].1.model())));
    }
}

/// The value of the member at index `p`, to be written through.
fn member_value_mut<'a>(m: &'a mut Vec<(String, Json)>, p: usize) -> (r: &'a mut Json)
    requires
        p < old(m).len(),
    ensures
        *r == old(m)@[p as int].1,
        final(m)@ == old(m)@.update(p as int, (old(m)@[p as int].0, *final(r))),
{
    &mut m[p].1
}

/// The members of an object, to be written through.
fn object_entries_mut<'a>(doc: &'a mut Json) -> (r: Option<&'a mut Vec<(String, Json)>>)
    ensures
        match *old(doc) {
            Json::Object(m) => r is Some && *r->Some_0 == m && *final(doc) == Json::Object(*final(r->Some_0)),
            _ => r is None && *final(doc) == *old(doc),
        },
{
    match doc {
        Json::Object(m) => Some(m),
        _ => None,
    }
}

/// The elements of an array, to be written through.
fn array_items_mut<'a>(doc: &'a mut Json) -> (r: Option<&'a mut Vec<Json>>)
    ensures
        match *old(doc) {
            Json::Array(a) => r is Some && *r->Some_0 == a && *final(doc) == Json::Array(*final(r->Some_0)),
            _ => r is None && *final(doc) == *old(doc),
        },
{
    match doc {
        Json::Array(a) => Some(a),
        _ => None,
    }
}

/// The value that `toks[depth..]` reach from the object with members `m`, to
/// be written through.
fn resolve_member_mut<'a>(m: &'a mut Vec<(String, Json)>, toks: &Vec<Vec<char>>, depth: usize) -> (r: Option<&'a mut Json>)
    requires
        depth < toks.len(),
    ensures
        match resolve(JsonV::Object(entries_model(*old(m))), toks_view(toks@).skip(depth as int)) {
            Some(v) => r is Some && r->Some_0.model() == v && JsonV::Object(entries_model(*final(m))) == update_at(
                JsonV::Object(entries_model(*old(m))),
                toks_view(toks@).skip(depth as int),
                final(r->Some_0).model(),
            ),
            None => r is None && entries_model(*final(m)) == entries_model(*old(m)),
        },
    decreases toks.len() - depth, 0nat,
{
    let ghost tv = toks_view(toks@).skip(depth as int);
    let ghost mm = entries_model(*m);
    assert(tv[0] == toks@[depth as int]@);
    assert(tv.drop_first() =~= toks_view(toks@).skip(depth + 1));
    let key = string_of(toks[depth].as_slice());
    let (p, found) = member_position(m, key.as_str());
    if !found {
        return None;
    }
    assert(mm[p as int].0 == tv[0]);
    assert(obj_find(mm, tv[0]) == Some(p as int));
    proof {
        lemma_entries_model_update(*m, p as int);
    }
    resolve_mut(member_value_mut(m, p), toks, depth + 1)
}

/// Giving one element another value gives its model that element's new model.
proof fn lemma_items_model_update(v0: Vec<Json>, p: int)
    requires
        0 <= p < v0.len(),
    ensures
        forall|v1: Vec<Json>|
            v1@ == v0@.update(p, v1@[p]) ==> #[trigger] items_model(v1) == items_model(v0).update(
                p,
                v1@[p].model(),
            ),
        forall|v1: Vec<Json>|
            v1@ == v0@.update(p, v1@[p]) && v1@[p].model() == v0@[p].model() ==> #[trigger] items_model(v1)
                == items_model(v0),
{
    assert forall|v1: Vec<Json>| v1@ == v0@.update(p, v1@[p]) implies #[trigger] items_model(v1)
        == items_model(v0).update(p, v1@[p].model()) by {
        assert(items_model(v1) =~= items_model(v0).update(p, v1@[p].model()));
    }
    assert forall|v1: Vec<Json>|
        v1@ == v0@.update(p, v1@[p]) && v1@[p].model() == v0@[p].model() implies #[trigger] items_model(v1)
            == items_model(v0) by {
        assert(items_model(v1) =~= items_model(v0));
    }
}

/// The value that `toks[depth..]` reach from the array with elements `a`, to
/// be written through.
fn resolve_element_mut<'a>(a: &'a mut Vec<Json>, toks: &Vec<Vec<char>>, depth: usize) -> (r: Option<&'a mut Json>)
    requires
        depth < toks.len(),
    ensures
        match resolve(JsonV::Array(items_model(*old(a))), toks_view(toks@).skip(depth as int)) {
            Some(v) => r is Some && r->Some_0.model() == v && JsonV::Array(items_model(*final(a))) == update_at(
                JsonV::Array(items_model(*old(a))),
                toks_view(toks@).skip(depth as int),
                final(r->Some_0).model(),
            ),
            None => r is None && items_model(*final(a)) == items_model(*old(a)),
        },
    decreases toks.len() - depth, 0nat,
{
    let ghost tv = toks_view(toks@).skip(depth as int);
    let ghost aa = items_model(*a);
    assert(tv[0] == toks@[depth as int]@);
    assert(tv.drop_first() =~= toks_view(toks@).skip(depth + 1));
    match lookup_index_exec(&toks[depth]) {
        Some(idx) => {
            if idx < a.len() {
                proof {
                    lemma_items_model_update(*a, idx as int);
                }
                resolve_mut(&mut a[idx], toks, depth + 1)
            } else {
                None
            }
        },
        None => None,
    }
}

/// The value that `toks[depth..]` reach from `doc`, to be written through.
pub fn resolve_mut<'a>(doc: &'a mut Json, toks: &Vec<Vec<char>>, depth: usize) -> (r: Option<&'a mut Json>)
    requires
        depth <= toks.len(),
    ensures
        match resolve(old(doc).model(), toks_view(toks@).skip(depth as int)) {
            Some(v) => r is Some && r->Some_0.model() == v && final(doc).model() == update_at(
                old(doc).model(),
                toks_view(toks@).skip(depth as int),
                final(r->Some_0).model(),
            ),
            None => r is None && final(doc).model() == old(doc).model(),
        },
    decreases toks.len() - depth, 1nat,
{
    let ghost tv = toks_view(toks@).skip(depth as int);
    if depth == toks.len() {
        return Some(doc);
    }
    assert(tv[0] == toks@[depth as int]@);
    assert(tv.drop_first() =~= toks_view(toks@).skip(depth + 1));
    let ghost old_model = doc.model();
    let kind: u8 = match &*doc {
        Json::Object(_) => 1,
        Json::Array(_) => 2,
        _ => 0,
    };
    if kind == 1 {
        match object_entries_mut(doc) {
            Some(m) => resolve_member_mut(m, toks, depth),
            None => None,
        }
    } else if kind == 2 {
        match array_items_mut(doc) {
            Some(a) => resolve_element_mut(a, toks, depth),
            None => None,
        }
    } else {
        None
    }
}

/// A value written where a pointer addresses a value, as through
/// [`Pointer::get_mut`], is what the pointer reads afterwards.
pub proof fn lemma_write_then_read(doc: JsonV, p: Seq<char>, new: JsonV)
    requires
        pointer_get(doc, p) is Some,
    ensures
        pointer_get(update_at(doc, lookup_tokens(p).unwrap(), new), p) == Some(new),
{
    lemma_resolve_update_at(doc, lookup_tokens(p).unwrap(), new);
}

/// A pointer that is empty or starts with `/` has one reference token for each
/// `/` in it, as [`Pointer::tokens`] and [`Pointer::raw_tokens`] give them.
pub proof fn lemma_token_count(p: Seq<char>)
    requires
        p.len() == 0 || p[0] == '/',
    ensures
        tokens_of(p).len() == count_char(p, '/'),
        raw_tokens_of(p).len() == count_char(p, '/'),
{
    if p.len() > 0 {
        lemma_split_on_join(p.drop_first(), '/');
    }
}

/// The reference tokens as written, joined with `/`, give the pointer string
/// without its leading `/`, as [`Pointer::path_without_leading_slash`] gives it.
pub proof fn lemma_raw_tokens_join(p: Seq<char>)
    ensures
        join_on(raw_tokens_of(p), '/') == strip_slash(p),
{
    if p.len() > 0 {
        lemma_split_on_join(strip_slash(p), '/');
    }
}

} // verus!

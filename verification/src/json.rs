//! JSON documents and their mathematical model.
//!
//! An object keeps its members sorted by key, each key once, which is the
//! order in which a JSON map without insertion order walks its members.
use vstd::prelude::*;

use crate::text::{chars_lt, chars_of, key_lt, lemma_key_lt_irreflexive, lemma_key_lt_total, lemma_key_lt_transitive};

verus! {

/// A JSON number, kept as the three kinds that a JSON parser distinguishes.
#[derive(Clone, Copy, Debug, PartialEq, Eq)]
pub enum Number {
    /// A non-negative integer.
    PosInt(u64),
    /// A negative integer.
    NegInt(i64),
    /// A finite floating point number, held by its IEEE-754 bit pattern.
    Float(u64),
}

/// A JSON document.
#[derive(Debug, PartialEq, Eq)]
pub enum Json {
    Null,
    Bool(bool),
    Number(Number),
    String(String),
    Array(Vec<Json>),
    Object(Vec<(String, Json)>),
}

/// The mathematical model of a JSON document.
pub enum JsonV {
    Null,
    Bool(bool),
    Number(Number),
    Str(Seq<char>),
    Array(Seq<JsonV>),
    Object(Seq<(Seq<char>, JsonV)>),
}

/// The bits of a float other than its sign.
pub open spec fn magnitude_bits(b: u64) -> u64 {
    b & 0x7fff_ffff_ffff_ffffu64
}

impl Number {
    /// The number with the two zeros of floating point made one, so that two
    /// numbers are equal as JSON numbers exactly when their normal forms are equal.
    pub open spec fn normalized(self) -> Number {
        match self {
            Number::Float(b) => if magnitude_bits(b) == 0 {
                Number::Float(0)
            } else {
                self
            },
            _ => self,
        }
    }

    /// Whether two numbers are equal as JSON numbers: integers by value and
    /// kind, floats by value.
    pub fn same(&self, other: &Number) -> (r: bool)
        ensures
            r == (self.normalized() == other.normalized()),
    {
        match (self, other) {
            (Number::PosInt(a), Number::PosInt(b)) => *a == *b,
            (Number::NegInt(a), Number::NegInt(b)) => *a == *b,
            (Number::Float(a), Number::Float(b)) => {
                let a = *a;
                let b = *b;
                let za = a & 0x7fff_ffff_ffff_ffffu64 == 0;
                let zb = b & 0x7fff_ffff_ffff_ffffu64 == 0;
                assert(a == 0u64 ==> a & 0x7fff_ffff_ffff_ffffu64 == 0) by (bit_vector);
                assert(b == 0u64 ==> b & 0x7fff_ffff_ffff_ffffu64 == 0) by (bit_vector);
                a == b || (za && zb)
            },
            (Number::PosInt(_), _) => false,
            (Number::NegInt(_), _) => false,
            (Number::Float(_), _) => false,
        }
    }
}

/// Whether the keys of `m` are strictly increasing.
pub open spec fn sorted_keys(m: Seq<(Seq<char>, JsonV)>) -> bool {
    forall|i: int, j: int| 0 <= i < j < m.len() ==> key_lt(#[trigger] m[i].0, #[trigger] m[j].0)
}

impl JsonV {
    /// Every object in the document has its members sorted by key, each key once.
    pub open spec fn wf(self) -> bool
        decreases self,
    {
        match self {
            JsonV::Array(a) => forall|i: int| 0 <= i < a.len() ==> (#[trigger] a[i]).wf(),
            JsonV::Object(m) => {
                &&& sorted_keys(m)
                &&& forall|i: int| 0 <= i < m.len() ==> (#[trigger] m[i]).1.wf()
            },
            _ => true,
        }
    }
}

impl JsonV {
    /// Every array in the document has a length that a `usize` holds, as every
    /// array of a document in memory does.
    pub open spec fn arrays_fit(self) -> bool
        decreases self,
    {
        match self {
            JsonV::Array(a) => a.len() <= usize::MAX && forall|i: int| 0 <= i < a.len() ==> (#[trigger] a[i]).arrays_fit(),
            JsonV::Object(m) => forall|i: int| 0 <= i < m.len() ==> (#[trigger] m[i]).1.arrays_fit(),
            _ => true,
        }
    }
}

/// Unfolds the length bound of the arrays of an array.
pub proof fn lemma_fits_array(x: JsonV)
    requires
        x is Array,
    ensures
        x.arrays_fit() == (x->Array_0.len() <= usize::MAX && forall|i: int|
            0 <= i < x->Array_0.len() ==> (#[trigger] x->Array_0[i]).arrays_fit()),
{
    assert forall|i: int| 0 <= i < x->Array_0.len() implies decreases_to!(x => x->Array_0[i]) by {
        assert(decreases_to!(x => x->Array_0));
        assert(decreases_to!(x->Array_0 => x->Array_0[i]));
    }
}

/// Unfolds the length bound of the arrays of an object.
pub proof fn lemma_fits_object(x: JsonV)
    requires
        x is Object,
    ensures
        x.arrays_fit() == (forall|i: int|
            0 <= i < x->Object_0.len() ==> (#[trigger] x->Object_0[i]).1.arrays_fit()),
{
    assert forall|i: int| 0 <= i < x->Object_0.len() implies decreases_to!(x => x->Object_0[i].1) by {
        assert(decreases_to!(x => x->Object_0));
        assert(decreases_to!(x->Object_0 => x->Object_0[i]));
        assert(decreases_to!(x->Object_0[i] => x->Object_0[i].1));
    }
}

impl JsonV {
    /// The document with every floating-point zero made positive. Two
    /// documents are equal as JSON values exactly when their normal forms are
    /// equal: numbers compare by value, so `0.0` equals `-0.0`.
    pub open spec fn norm(self) -> JsonV
        decreases self,
    {
        match self {
            JsonV::Number(n) => JsonV::Number(n.normalized()),
            JsonV::Array(a) => JsonV::Array(
                Seq::new(a.len(), |i: int| if 0 <= i < a.len() { a[i].norm() } else { JsonV::Null }),
            ),
            JsonV::Object(m) => JsonV::Object(
                Seq::new(
                    m.len(),
                    |i: int|
                        if 0 <= i < m.len() {
                            (m[i].0, m[i].1.norm())
                        } else {
                            (Seq::empty(), JsonV::Null)
                        },
                ),
            ),
            _ => self,
        }
    }

    /// Whether two documents are equal as JSON values.
    pub open spec fn same(self, other: JsonV) -> bool {
        self.norm() == other.norm()
    }
}

/// Unfolds the normal form of an array.
pub proof fn lemma_norm_array(x: JsonV)
    requires
        x is Array,
    ensures
        x.norm() is Array,
        x.norm()->Array_0.len() == x->Array_0.len(),
        forall|i: int| 0 <= i < x->Array_0.len() ==> #[trigger] x.norm()->Array_0[i] == x->Array_0[i].norm(),
{
    assert forall|i: int| 0 <= i < x->Array_0.len() implies decreases_to!(x => x->Array_0[i]) by {
        assert(decreases_to!(x => x->Array_0));
        assert(decreases_to!(x->Array_0 => x->Array_0[i]));
    }
}

/// Unfolds the normal form of an object: the same keys, values in normal form.
pub proof fn lemma_norm_object(x: JsonV)
    requires
        x is Object,
    ensures
        x.norm() is Object,
        x.norm()->Object_0.len() == x->Object_0.len(),
        forall|i: int|
            0 <= i < x->Object_0.len() ==> #[trigger] x.norm()->Object_0[i] == (
                x->Object_0[i].0,
                x->Object_0[i].1.norm(),
            ),
{
    assert forall|i: int| 0 <= i < x->Object_0.len() implies decreases_to!(x => x->Object_0[i].1) by {
        assert(decreases_to!(x => x->Object_0));
        assert(decreases_to!(x->Object_0 => x->Object_0[i]));
        assert(decreases_to!(x->Object_0[i] => x->Object_0[i].1));
    }
}

/// Arrays whose elements are equal one by one as JSON values are equal.
pub proof fn lemma_same_arrays(a: Seq<JsonV>, b: Seq<JsonV>)
    requires
        a.len() == b.len(),
        forall|i: int| 0 <= i < a.len() ==> (#[trigger] a[i]).same(b[i]),
    ensures
        JsonV::Array(a).same(JsonV::Array(b)),
{
    lemma_norm_array(JsonV::Array(a));
    lemma_norm_array(JsonV::Array(b));
    assert(JsonV::Array(a).norm()->Array_0 =~= JsonV::Array(b).norm()->Array_0);
}

/// The value for a key depends on the keys alone and on that member's value.
pub proof fn lemma_obj_pos_keys(m: Seq<(Seq<char>, JsonV)>, n: Seq<(Seq<char>, JsonV)>, k: Seq<char>)
    requires
        m.len() == n.len(),
        forall|i: int| 0 <= i < m.len() ==> (#[trigger] m[i]).0 == n[i].0,
    ensures
        obj_pos(m, k) == obj_pos(n, k),
    decreases m.len(),
{
    if m.len() > 0 {
        assert(m[0].0 == n[0].0);
        assert forall|i: int| 0 <= i < m.drop_first().len() implies (#[trigger] m.drop_first()[i]).0
            == n.drop_first()[i].0 by {
            assert(m.drop_first()[i] == m[i + 1]);
            assert(n.drop_first()[i] == n[i + 1]);
        }
        lemma_obj_pos_keys(m.drop_first(), n.drop_first(), k);
    }
}

/// An optional value in normal form.
pub open spec fn opt_norm(o: Option<JsonV>) -> Option<JsonV> {
    match o {
        Some(v) => Some(v.norm()),
        None => None,
    }
}

/// Sorted members whose values for every key are equal as JSON values make
/// objects that are equal as JSON values.
pub proof fn lemma_same_objects(a: Seq<(Seq<char>, JsonV)>, b: Seq<(Seq<char>, JsonV)>)
    requires
        sorted_keys(a),
        sorted_keys(b),
        forall|q: Seq<char>| #[trigger] opt_norm(obj_get(a, q)) == opt_norm(obj_get(b, q)),
    ensures
        JsonV::Object(a).same(JsonV::Object(b)),
{
    let xa = JsonV::Object(a);
    let xb = JsonV::Object(b);
    lemma_norm_object(xa);
    lemma_norm_object(xb);
    let na = xa.norm()->Object_0;
    let nb = xb.norm()->Object_0;
    assert(sorted_keys(na)) by {
        assert forall|i: int, j: int| 0 <= i < j < na.len() implies key_lt(#[trigger] na[i].0, #[trigger] na[j].0) by {
            assert(na[i].0 == a[i].0 && na[j].0 == a[j].0);
        }
    }
    assert(sorted_keys(nb)) by {
        assert forall|i: int, j: int| 0 <= i < j < nb.len() implies key_lt(#[trigger] nb[i].0, #[trigger] nb[j].0) by {
            assert(nb[i].0 == b[i].0 && nb[j].0 == b[j].0);
        }
    }
    assert forall|q: Seq<char>| obj_get(na, q) == obj_get(nb, q) by {
        lemma_obj_pos_keys(a, na, q);
        lemma_obj_pos_keys(b, nb, q);
        assert(opt_norm(obj_get(a, q)) == opt_norm(obj_get(b, q)));
        assert(obj_get(na, q) == opt_norm(obj_get(a, q)));
        assert(obj_get(nb, q) == opt_norm(obj_get(b, q)));
    }
    lemma_obj_extensional(na, nb);
}

/// Unfolds well-formedness of an array.
pub proof fn lemma_wf_array(x: JsonV)
    requires
        x is Array,
    ensures
        x.wf() == (forall|i: int| 0 <= i < x->Array_0.len() ==> (#[trigger] x->Array_0[i]).wf()),
{
    assert forall|i: int| 0 <= i < x->Array_0.len() implies decreases_to!(x => x->Array_0[i]) by {
        assert(decreases_to!(x => x->Array_0));
        assert(decreases_to!(x->Array_0 => x->Array_0[i]));
    }
}

/// Unfolds well-formedness of an object.
pub proof fn lemma_wf_object(x: JsonV)
    requires
        x is Object,
    ensures
        x.wf() == (sorted_keys(x->Object_0) && forall|i: int|
            0 <= i < x->Object_0.len() ==> (#[trigger] x->Object_0[i]).1.wf()),
{
    assert forall|i: int| 0 <= i < x->Object_0.len() implies decreases_to!(x => x->Object_0[i].1) by {
        assert(decreases_to!(x => x->Object_0));
        assert(decreases_to!(x->Object_0 => x->Object_0[i]));
        assert(decreases_to!(x->Object_0[i] => x->Object_0[i].1));
    }
}

/// The models of the members of an object.
pub open spec fn entries_model(v: Vec<(String, Json)>) -> Seq<(Seq<char>, JsonV)>
    decreases v,
{
    Seq::new(
        v.len() as nat,
        |i: int|
            if 0 <= i < v.len() {
                (v[i].0@, v[i].1.model())
            } else {
                (Seq::empty(), JsonV::Null)
            },
    )
}

/// The models of the elements of an array.
pub open spec fn items_model(v: Vec<Json>) -> Seq<JsonV>
    decreases v,
{
    Seq::new(
        v.len() as nat,
        |i: int|
            if 0 <= i < v.len() {
                v[i].model()
            } else {
                JsonV::Null
            },
    )
}

impl Json {
    pub open spec fn model(self) -> JsonV
        decreases self,
    {
        match self {
            Json::Null => JsonV::Null,
            Json::Bool(b) => JsonV::Bool(b),
            Json::Number(n) => JsonV::Number(n),
            Json::String(s) => JsonV::Str(s@),
            Json::Array(v) => JsonV::Array(items_model(v)),
            Json::Object(v) => JsonV::Object(entries_model(v)),
        }
    }

    pub open spec fn wf(self) -> bool {
        self.model().wf()
    }
}


/// The index at which the member with key `k` stands, or would stand, in the
/// sorted members `m`: the number of members whose key is less than `k`.
pub open spec fn obj_pos(m: Seq<(Seq<char>, JsonV)>, k: Seq<char>) -> nat
    decreases m.len(),
{
    if m.len() == 0 || !key_lt(m[0].0, k) {
        0
    } else {
        1 + obj_pos(m.drop_first(), k)
    }
}

/// The index of the member with key `k`, if there is one.
pub open spec fn obj_find(m: Seq<(Seq<char>, JsonV)>, k: Seq<char>) -> Option<int> {
    let p = obj_pos(m, k) as int;
    if p < m.len() && m[p].0 == k {
        Some(p)
    } else {
        None
    }
}

/// The value of the member with key `k`, if there is one.
pub open spec fn obj_get(m: Seq<(Seq<char>, JsonV)>, k: Seq<char>) -> Option<JsonV> {
    match obj_find(m, k) {
        Some(i) => Some(m[i].1),
        None => None,
    }
}

/// The members with `k` set to `v`: replaced where the key is present, inserted
/// in key order where it is not.
pub open spec fn obj_insert(m: Seq<(Seq<char>, JsonV)>, k: Seq<char>, v: JsonV) -> Seq<(Seq<char>, JsonV)> {
    let p = obj_pos(m, k) as int;
    if obj_find(m, k) is Some {
        m.update(p, (k, v))
    } else {
        m.insert(p, (k, v))
    }
}

/// The members without the member with key `k`.
pub open spec fn obj_remove(m: Seq<(Seq<char>, JsonV)>, k: Seq<char>) -> Seq<(Seq<char>, JsonV)> {
    match obj_find(m, k) {
        Some(i) => m.remove(i),
        None => m,
    }
}

pub proof fn lemma_obj_pos(m: Seq<(Seq<char>, JsonV)>, k: Seq<char>)
    ensures
        obj_pos(m, k) <= m.len(),
        forall|j: int| 0 <= j < obj_pos(m, k) ==> key_lt(#[trigger] m[j].0, k),
        obj_pos(m, k) < m.len() ==> !key_lt(m[obj_pos(m, k) as int].0, k),
    decreases m.len(),
{
    if m.len() > 0 && key_lt(m[0].0, k) {
        lemma_obj_pos(m.drop_first(), k);
        assert forall|j: int| 0 <= j < obj_pos(m, k) implies key_lt(#[trigger] m[j].0, k) by {
            if j > 0 {
                assert(m[j] == m.drop_first()[j - 1]);
            }
        }
    }
}

pub proof fn lemma_obj_pos_at(m: Seq<(Seq<char>, JsonV)>, k: Seq<char>, i: int)
    requires
        0 <= i <= m.len(),
        forall|j: int| 0 <= j < i ==> key_lt(#[trigger] m[j].0, k),
        i < m.len() ==> !key_lt(m[i].0, k),
    ensures
        obj_pos(m, k) == i,
    decreases m.len(),
{
    if i > 0 {
        assert(key_lt(m[0].0, k));
        assert forall|j: int| 0 <= j < i - 1 implies key_lt(#[trigger] m.drop_first()[j].0, k) by {
            assert(m.drop_first()[j] == m[j + 1]);
        }
        lemma_obj_pos_at(m.drop_first(), k, i - 1);
    }
}

/// In sorted members, the member with a given key is the one `obj_find` finds.
pub proof fn lemma_obj_find_sorted(m: Seq<(Seq<char>, JsonV)>, k: Seq<char>)
    requires
        sorted_keys(m),
    ensures
        forall|i: int| 0 <= i < m.len() && m[i].0 == k ==> obj_find(m, k) == Some(i),
        obj_find(m, k) matches Some(i) ==> 0 <= i < m.len() && m[i].0 == k,
        obj_find(m, k) is None ==> forall|i: int| 0 <= i < m.len() ==> m[i].0 != k,
{
    lemma_obj_pos(m, k);
    assert forall|i: int| 0 <= i < m.len() && m[i].0 == k implies obj_find(m, k) == Some(i) by {
        lemma_key_lt_irreflexive(k);
        assert forall|j: int| 0 <= j < i implies key_lt(#[trigger] m[j].0, k) by {}
        lemma_obj_pos_at(m, k, i);
    }
}

pub proof fn lemma_obj_insert_sorted(m: Seq<(Seq<char>, JsonV)>, k: Seq<char>, v: JsonV)
    requires
        sorted_keys(m),
    ensures
        sorted_keys(obj_insert(m, k, v)),
{
    lemma_obj_pos(m, k);
    lemma_obj_find_sorted(m, k);
    let p = obj_pos(m, k) as int;
    let r = obj_insert(m, k, v);
    if obj_find(m, k) is Some {
        assert forall|i: int, j: int| 0 <= i < j < r.len() implies key_lt(#[trigger] r[i].0, #[trigger] r[j].0) by {
            assert(r[i].0 == m[i].0);
            assert(r[j].0 == m[j].0);
        }
    } else {
        if p < m.len() {
            lemma_key_lt_total(m[p].0, k);
        }
        assert forall|i: int, j: int| 0 <= i < j < r.len() implies key_lt(#[trigger] r[i].0, #[trigger] r[j].0) by {
            if j < p {
                assert(r[i] == m[i] && r[j] == m[j]);
            } else if j == p {
                assert(r[i] == m[i]);
            } else if i < p {
                assert(r[i] == m[i] && r[j] == m[j - 1]);
                lemma_key_lt_transitive(m[i].0, k, m[p].0);
                if j - 1 > p {
                    lemma_key_lt_transitive(m[i].0, m[p].0, m[j - 1].0);
                }
            } else if i == p {
                assert(r[j] == m[j - 1]);
                if j - 1 > p {
                    lemma_key_lt_transitive(k, m[p].0, m[j - 1].0);
                }
            } else {
                assert(r[i] == m[i - 1] && r[j] == m[j - 1]);
            }
        }
    }
}

pub proof fn lemma_obj_remove_sorted(m: Seq<(Seq<char>, JsonV)>, k: Seq<char>)
    requires
        sorted_keys(m),
    ensures
        sorted_keys(obj_remove(m, k)),
{
    let r = obj_remove(m, k);
    if let Some(p) = obj_find(m, k) {
        lemma_obj_find_sorted(m, k);
        assert forall|i: int, j: int| 0 <= i < j < r.len() implies key_lt(#[trigger] r[i].0, #[trigger] r[j].0) by {
            let i0 = if i < p { i } else { i + 1 };
            let j0 = if j < p { j } else { j + 1 };
            assert(r[i] == m[i0] && r[j] == m[j0]);
        }
    }
}

/// Inserting a well-formed value into well-formed members keeps them well formed.
pub proof fn lemma_obj_insert_wf(m: Seq<(Seq<char>, JsonV)>, k: Seq<char>, v: JsonV)
    requires
        JsonV::Object(m).wf(),
        v.wf(),
    ensures
        JsonV::Object(obj_insert(m, k, v)).wf(),
{
    lemma_obj_insert_sorted(m, k, v);
    let r = obj_insert(m, k, v);
    let p = obj_pos(m, k) as int;
    lemma_obj_pos(m, k);
    assert forall|i: int| 0 <= i < r.len() implies (#[trigger] r[i]).1.wf() by {
        if obj_find(m, k) is Some {
            if i != p {
                assert(r[i] == m[i]);
            }
        } else {
            if i < p {
                assert(r[i] == m[i]);
            } else if i > p {
                assert(r[i] == m[i - 1]);
            }
        }
    }
}

/// Removing a member keeps well-formed members well formed.
pub proof fn lemma_obj_remove_wf(m: Seq<(Seq<char>, JsonV)>, k: Seq<char>)
    requires
        JsonV::Object(m).wf(),
    ensures
        JsonV::Object(obj_remove(m, k)).wf(),
{
    lemma_obj_remove_sorted(m, k);
    let r = obj_remove(m, k);
    if let Some(p) = obj_find(m, k) {
        lemma_obj_find_sorted(m, k);
        assert forall|i: int| 0 <= i < r.len() implies (#[trigger] r[i]).1.wf() by {
            let i0 = if i < p { i } else { i + 1 };
            assert(r[i] == m[i0]);
        }
    }
}

/// In sorted members, the value for a key is the value of the member that
/// carries the key, if one does.
pub proof fn lemma_obj_get_sorted(m: Seq<(Seq<char>, JsonV)>, k: Seq<char>)
    requires
        sorted_keys(m),
    ensures
        forall|i: int| 0 <= i < m.len() && m[i].0 == k ==> obj_get(m, k) == Some(m[i].1),
        obj_get(m, k) is None <==> forall|i: int| 0 <= i < m.len() ==> m[i].0 != k,
{
    lemma_obj_find_sorted(m, k);
}

/// Sorted members with the same value for every key are the same members.
pub proof fn lemma_obj_extensional(a: Seq<(Seq<char>, JsonV)>, b: Seq<(Seq<char>, JsonV)>)
    requires
        sorted_keys(a),
        sorted_keys(b),
        forall|k: Seq<char>| obj_get(a, k) == obj_get(b, k),
    ensures
        a == b,
    decreases a.len() + b.len(),
{
    if a.len() == 0 && b.len() == 0 {
        assert(a =~= b);
    } else if a.len() == 0 {
        lemma_obj_get_sorted(b, b[0].0);
        lemma_obj_get_sorted(a, b[0].0);
        assert(obj_get(a, b[0].0) == obj_get(b, b[0].0));
    } else if b.len() == 0 {
        lemma_obj_get_sorted(a, a[0].0);
        lemma_obj_get_sorted(b, a[0].0);
        assert(obj_get(a, a[0].0) == obj_get(b, a[0].0));
    } else {
        let ka = a[0].0;
        let kb = b[0].0;
        lemma_obj_get_sorted(a, ka);
        lemma_obj_get_sorted(b, ka);
        lemma_obj_get_sorted(a, kb);
        lemma_obj_get_sorted(b, kb);
        assert(obj_get(a, ka) == obj_get(b, ka));
        assert(obj_get(a, kb) == obj_get(b, kb));
        // the first keys agree: a smaller first key would be missing on the other side
        lemma_key_lt_total(ka, kb);
        if ka != kb {
            if key_lt(ka, kb) {
                assert forall|i: int| 0 <= i < b.len() implies b[i].0 != ka by {
                    if i > 0 {
                        lemma_key_lt_transitive(ka, kb, b[i].0);
                    }
                    lemma_key_lt_irreflexive(ka);
                }
            } else {
                assert forall|i: int| 0 <= i < a.len() implies a[i].0 != kb by {
                    if i > 0 {
                        lemma_key_lt_transitive(kb, ka, a[i].0);
                    }
                    lemma_key_lt_irreflexive(kb);
                }
            }
        }
        assert(a[0] == b[0]);
        let ta = a.drop_first();
        let tb = b.drop_first();
        assert(sorted_keys(ta)) by {
            assert forall|i: int, j: int| 0 <= i < j < ta.len() implies key_lt(#[trigger] ta[i].0, #[trigger] ta[j].0) by {
                assert(ta[i] == a[i + 1] && ta[j] == a[j + 1]);
            }
        }
        assert(sorted_keys(tb)) by {
            assert forall|i: int, j: int| 0 <= i < j < tb.len() implies key_lt(#[trigger] tb[i].0, #[trigger] tb[j].0) by {
                assert(tb[i] == b[i + 1] && tb[j] == b[j + 1]);
            }
        }
        assert forall|k: Seq<char>| obj_get(ta, k) == obj_get(tb, k) by {
            lemma_obj_get_sorted(ta, k);
            lemma_obj_get_sorted(tb, k);
            lemma_obj_get_sorted(a, k);
            lemma_obj_get_sorted(b, k);
            if k == ka {
                lemma_key_lt_irreflexive(ka);
                assert forall|i: int| 0 <= i < ta.len() implies ta[i].0 != k by {
                    assert(ta[i] == a[i + 1]);
                }
                assert forall|i: int| 0 <= i < tb.len() implies tb[i].0 != k by {
                    assert(tb[i] == b[i + 1]);
                }
            } else {
                assert(obj_get(a, k) == obj_get(b, k));
                if let Some(v) = obj_get(ta, k) {
                    let i = choose|i: int| 0 <= i < ta.len() && ta[i].0 == k;
                    assert(a[i + 1] == ta[i]);
                } else {
                    if obj_get(tb, k) is Some {
                        let i = choose|i: int| 0 <= i < tb.len() && tb[i].0 == k;
                        assert(b[i + 1] == tb[i]);
                        assert(obj_get(b, k) == Some(tb[i].1));
                        assert forall|j: int| 0 <= j < a.len() implies a[j].0 != k by {
                            if j > 0 {
                                assert(a[j] == ta[j - 1]);
                            }
                        }
                    }
                }
                if let Some(v) = obj_get(tb, k) {
                    let i = choose|i: int| 0 <= i < tb.len() && tb[i].0 == k;
                    assert(b[i + 1] == tb[i]);
                    if obj_get(ta, k) is None {
                        assert forall|j: int| 0 <= j < a.len() implies a[j].0 != k by {
                            if j > 0 {
                                assert(a[j] == ta[j - 1]);
                            }
                        }
                    }
                }
            }
        }
        lemma_obj_extensional(ta, tb);
        assert(a =~= seq![a[0]] + ta);
        assert(b =~= seq![b[0]] + tb);
    }
}

/// The value for a key after inserting into sorted members.
pub proof fn lemma_obj_get_insert(m: Seq<(Seq<char>, JsonV)>, k: Seq<char>, v: JsonV, q: Seq<char>)
    requires
        sorted_keys(m),
    ensures
        obj_get(obj_insert(m, k, v), q) == if q == k { Some(v) } else { obj_get(m, q) },
{
    let r = obj_insert(m, k, v);
    lemma_obj_insert_sorted(m, k, v);
    lemma_obj_pos(m, k);
    lemma_obj_find_sorted(m, k);
    lemma_obj_get_sorted(r, q);
    lemma_obj_get_sorted(m, q);
    let p = obj_pos(m, k) as int;
    if obj_find(m, k) is Some {
        assert(r[p] == (k, v));
        if q != k {
            if let Some(w) = obj_get(m, q) {
                let i = choose|i: int| 0 <= i < m.len() && m[i].0 == q;
                assert(r[i] == m[i]);
            } else {
                assert forall|i: int| 0 <= i < r.len() implies r[i].0 != q by {
                    if i != p {
                        assert(r[i] == m[i]);
                    }
                }
            }
        }
    } else {
        assert(r[p] == (k, v));
        if q != k {
            if let Some(w) = obj_get(m, q) {
                let i = choose|i: int| 0 <= i < m.len() && m[i].0 == q;
                if i < p {
                    assert(r[i] == m[i]);
                } else {
                    assert(r[i + 1] == m[i]);
                }
            } else {
                assert forall|i: int| 0 <= i < r.len() implies r[i].0 != q by {
                    if i < p {
                        assert(r[i] == m[i]);
                    } else if i > p {
                        assert(r[i] == m[i - 1]);
                    }
                }
            }
        }
    }
}

/// The value for a key after removing from sorted members.
pub proof fn lemma_obj_get_remove(m: Seq<(Seq<char>, JsonV)>, k: Seq<char>, q: Seq<char>)
    requires
        sorted_keys(m),
    ensures
        obj_get(obj_remove(m, k), q) == if q == k { None } else { obj_get(m, q) },
{
    let r = obj_remove(m, k);
    lemma_obj_remove_sorted(m, k);
    lemma_obj_find_sorted(m, k);
    lemma_obj_get_sorted(r, q);
    lemma_obj_get_sorted(m, q);
    if let Some(p) = obj_find(m, k) {
        if q == k {
            assert forall|i: int| 0 <= i < r.len() implies r[i].0 != q by {
                let i0 = if i < p { i } else { i + 1 };
                assert(r[i] == m[i0]);
                if i0 != p {
                    assert(key_lt(m[i0].0, m[p].0) || key_lt(m[p].0, m[i0].0));
                    lemma_key_lt_irreflexive(k);
                }
            }
        } else {
            if let Some(w) = obj_get(m, q) {
                let i = choose|i: int| 0 <= i < m.len() && m[i].0 == q;
                if i < p {
                    assert(r[i] == m[i]);
                } else {
                    assert(r[i - 1] == m[i]);
                }
            } else {
                assert forall|i: int| 0 <= i < r.len() implies r[i].0 != q by {
                    let i0 = if i < p { i } else { i + 1 };
                    assert(r[i] == m[i0]);
                }
            }
        }
    }
}

/// The position of a key depends on the keys alone: giving a member another
/// value moves no key.
pub proof fn lemma_obj_pos_same_keys(m: Seq<(Seq<char>, JsonV)>, i: int, v: JsonV, k: Seq<char>)
    requires
        0 <= i < m.len(),
    ensures
        obj_pos(m.update(i, (m[i].0, v)), k) == obj_pos(m, k),
    decreases m.len(),
{
    let u = m.update(i, (m[i].0, v));
    if key_lt(m[0].0, k) {
        if i > 0 {
            assert(u.drop_first() =~= m.drop_first().update(i - 1, (m[i].0, v)));
            lemma_obj_pos_same_keys(m.drop_first(), i - 1, v, k);
        } else {
            assert(u.drop_first() =~= m.drop_first());
        }
    }
}

/// The arrays of a document in memory fit their lengths in a `usize`.
pub proof fn lemma_model_fits(j: Json)
    ensures
        j.model().arrays_fit(),
    decreases j,
{
    let x = j.model();
    match j {
        Json::Array(v) => {
            lemma_fits_array(x);
            assert(x->Array_0 == items_model(v));
            assert(items_model(v).len() <= usize::MAX);
            assert forall|i: int| 0 <= i < v.len() implies (#[trigger] items_model(v)[i]).arrays_fit() by {
                assert(decreases_to!(j => v));
                assert(decreases_to!(v => v@));
                assert(decreases_to!(v@ => v@[i]));
                lemma_model_fits(v@[i]);
                assert(items_model(v)[i] == v@[i].model());
            }
        },
        Json::Object(v) => {
            lemma_fits_object(x);
            assert forall|i: int| 0 <= i < v.len() implies (#[trigger] entries_model(v)[i]).1.arrays_fit() by {
                assert(decreases_to!(j => v));
                assert(decreases_to!(v => v@));
                assert(decreases_to!(v@ => v@[i]));
                assert(decreases_to!(v@[i] => v@[i].1));
                lemma_model_fits(v@[i].1);
                assert(entries_model(v)[i] == (v@[i].0@, v@[i].1.model()));
            }
            assert(x->Object_0 == entries_model(v));
        },
        _ => {},
    }
}

/// Whether two character vectors hold the same characters.
pub fn chars_eq(a: &Vec<char>, b: &Vec<char>) -> (r: bool)
    ensures
        r == (a@ == b@),
{
    if a.len() != b.len() {
        return false;
    }
    let mut i: usize = 0;
    while i < a.len()
        invariant
            i <= a.len(),
            a.len() == b.len(),
            forall|j: int| 0 <= j < i ==> a@[j] == b@[j],
        decreases a.len() - i,
    {
        if a[i] != b[i] {
            return false;
        }
        i = i + 1;
    }
    assert(a@ =~= b@);
    true
}

/// Where the member with key `key` stands or would stand among `entries`, and
/// whether it is present.
pub fn member_position(entries: &Vec<(String, Json)>, key: &str) -> (r: (usize, bool))
    ensures
        r.0 as nat == obj_pos(entries_model(*entries), key@),
        r.1 == (obj_find(entries_model(*entries), key@) is Some),
{
    let ghost m = entries_model(*entries);
    let kc = chars_of(key);
    let mut i: usize = 0;
    while i < entries.len()
        invariant
            i <= entries.len(),
            m == entries_model(*entries),
            kc@ == key@,
            forall|j: int| 0 <= j < i ==> key_lt(#[trigger] m[j].0, key@),
        ensures
            i < entries.len() ==> !key_lt(m[i as int].0, key@),
        decreases entries.len() - i,
    {
        let ec = chars_of(entries[i].0.as_str());
        assert(m[i as int].0 == entries[i as int].0@);
        if !chars_lt(&ec, &kc) {
            break;
        }
        i = i + 1;
    }
    let found = if i < entries.len() {
        let ec = chars_of(entries[i].0.as_str());
        chars_eq(&ec, &kc)
    } else {
        false
    };
    proof {
        if i < entries.len() {
            assert(m[i as int].0 == entries[i as int].0@);
        }
        lemma_obj_pos_at(m, key@, i as int);
    }
    (i, found)
}

/// The value of the member with key `key`, if there is one.
pub fn member_get<'a>(entries: &'a Vec<(String, Json)>, key: &str) -> (r: Option<&'a Json>)
    ensures
        match obj_get(entries_model(*entries), key@) {
            Some(v) => r is Some && r.unwrap().model() == v,
            None => r is None,
        },
{
    let (p, found) = member_position(entries, key);
    if found {
        Some(&entries[p].1)
    } else {
        None
    }
}

/// Sets the member with key `key` to `value`, replacing it where present and
/// inserting it in key order where not.
pub fn member_insert(entries: &mut Vec<(String, Json)>, key: String, value: Json)
    ensures
        entries_model(*final(entries)) == obj_insert(entries_model(*old(entries)), key@, value.model()),
{
    let ghost m = entries_model(*entries);
    let ghost kv = key@;
    let ghost vv = value.model();
    let (p, found) = member_position(entries, key.as_str());
    proof {
        lemma_obj_pos(m, kv);
    }
    if found {
        entries.set(p, (key, value));
        assert(entries_model(*entries) =~= m.update(p as int, (kv, vv)));
    } else {
        entries.insert(p, (key, value));
        assert(entries_model(*entries) =~= m.insert(p as int, (kv, vv)));
    }
}

/// Removes the member with key `key`; says whether there was one.
pub fn member_remove(entries: &mut Vec<(String, Json)>, key: &str) -> (removed: bool)
    ensures
        entries_model(*final(entries)) == obj_remove(entries_model(*old(entries)), key@),
        removed == (obj_find(entries_model(*old(entries)), key@) is Some),
{
    let ghost m = entries_model(*entries);
    let (p, found) = member_position(entries, key);
    if found {
        entries.remove(p);
        assert(entries_model(*entries) =~= m.remove(p as int));
    }
    found
}


impl Json {
    /// Whether two documents are equal: same kind, equal scalars, arrays equal
    /// element by element, objects with the same keys and equal values.
    pub fn equals(&self, other: &Json) -> (r: bool)
        ensures
            r == self.model().same(other.model()),
        decreases self,
    {
        match (self, other) {
            (Json::Null, Json::Null) => true,
            (Json::Bool(a), Json::Bool(b)) => *a == *b,
            (Json::Number(a), Json::Number(b)) => a.same(b),
            (Json::String(a), Json::String(b)) => *a == *b,
            (Json::Array(a), Json::Array(b)) => {
                let ghost am = items_model(*a);
                let ghost bm = items_model(*b);
                proof {
                    lemma_norm_array(JsonV::Array(am));
                    lemma_norm_array(JsonV::Array(bm));
                }
                if a.len() != b.len() {
                    assert(JsonV::Array(am).norm()->Array_0.len() != JsonV::Array(bm).norm()->Array_0.len());
                    return false;
                }
                let mut i: usize = 0;
                while i < a.len()
                    invariant
                        i <= a.len(),
                        a.len() == b.len(),
                        *self == Json::Array(*a),
                        *other == Json::Array(*b),
                        am == items_model(*a),
                        bm == items_model(*b),
                        forall|j: int| 0 <= j < i ==> (#[trigger] am[j]).same(bm[j]),
                    decreases a.len() - i,
                {
                    if !a[i].equals(&b[i]) {
                        assert(JsonV::Array(am).norm()->Array_0[i as int] != JsonV::Array(bm).norm()->Array_0[i as int]);
                        return false;
                    }
                    i = i + 1;
                }
                proof {
                    lemma_same_arrays(am, bm);
                }
                true
            },
            (Json::Object(a), Json::Object(b)) => {
                let ghost am = entries_model(*a);
                let ghost bm = entries_model(*b);
                proof {
                    lemma_norm_object(JsonV::Object(am));
                    lemma_norm_object(JsonV::Object(bm));
                }
                if a.len() != b.len() {
                    assert(JsonV::Object(am).norm()->Object_0.len() != JsonV::Object(bm).norm()->Object_0.len());
                    return false;
                }
                let mut i: usize = 0;
                while i < a.len()
                    invariant
                        i <= a.len(),
                        a.len() == b.len(),
                        *self == Json::Object(*a),
                        *other == Json::Object(*b),
                        am == entries_model(*a),
                        bm == entries_model(*b),
                        forall|j: int| 0 <= j < i ==> (#[trigger] am[j]).0 == bm[j].0 && am[j].1.same(bm[j].1),
                    decreases a.len() - i,
                {
                    if a[i].0 != b[i].0 {
                        assert(JsonV::Object(am).norm()->Object_0[i as int] != JsonV::Object(bm).norm()->Object_0[i as int]);
                        return false;
                    }
                    if !a[i].1.equals(&b[i].1) {
                        assert(JsonV::Object(am).norm()->Object_0[i as int] != JsonV::Object(bm).norm()->Object_0[i as int]);
                        return false;
                    }
                    i = i + 1;
                }
                proof {
                    assert forall|j: int| 0 <= j < am.len() implies JsonV::Object(am).norm()->Object_0[j]
                        == JsonV::Object(bm).norm()->Object_0[j] by {
                        assert(am[j].0 == bm[j].0 && am[j].1.same(bm[j].1));
                    }
                    assert(JsonV::Object(am).norm()->Object_0 =~= JsonV::Object(bm).norm()->Object_0);
                }
                true
            },
            _ => false,
        }
    }

    /// Whether every object of the document has its members in strictly
    /// increasing key order.
    pub fn is_well_formed(&self) -> (r: bool)
        ensures
            r == self.wf(),
        decreases self,
    {
        match self {
            Json::Array(a) => {
                assert(self.model() == JsonV::Array(items_model(*a)));
                let mut i: usize = 0;
                while i < a.len()
                    invariant
                        i <= a.len(),
                        *self == Json::Array(*a),
                        self.model() == JsonV::Array(items_model(*a)),
                        forall|j: int| 0 <= j < i ==> (#[trigger] items_model(*a)[j]).wf(),
                    decreases a.len() - i,
                {
                    proof {
                        assert(decreases_to!(*self => a@[i as int]));
                    }
                    if !a[i].is_well_formed() {
                        proof {
                            lemma_wf_array(self.model());
                            assert(!self.model()->Array_0[i as int].wf());
                        }
                        return false;
                    }
                    i = i + 1;
                }
                true
            },
            Json::Object(m) => {
                let ghost mm = entries_model(*m);
                let mut i: usize = 0;
                while i < m.len()
                    invariant
                        i <= m.len(),
                        *self == Json::Object(*m),
                        self.model() == JsonV::Object(entries_model(*m)),
                        mm == entries_model(*m),
                        forall|j: int| 0 <= j < i ==> (#[trigger] mm[j]).1.wf(),
                        forall|j: int, k: int| 0 <= j < k < i ==> key_lt(#[trigger] mm[j].0, #[trigger] mm[k].0),
                    decreases m.len() - i,
                {
                    proof {
                        assert(decreases_to!(*self => m@[i as int].1));
                    }
                    if !m[i].1.is_well_formed() {
                        assert(!mm[i as int].1.wf());
                        return false;
                    }
                    if i > 0 {
                        let prev = chars_of(m[i - 1].0.as_str());
                        let cur = chars_of(m[i].0.as_str());
                        if !chars_lt(&prev, &cur) {
                            assert(!key_lt(mm[i - 1].0, mm[i as int].0));
                            return false;
                        }
                        assert forall|j: int, k: int| 0 <= j < k < i + 1 implies key_lt(#[trigger] mm[j].0, #[trigger] mm[k].0) by {
                            if k == i && j < i - 1 {
                                lemma_key_lt_transitive(mm[j].0, mm[i - 1].0, mm[k].0);
                            }
                        }
                    }
                    i = i + 1;
                }
                true
            },
            _ => true,
        }
    }
}

/// A copy of the members of an object.
pub fn copy_entries(m: &Vec<(String, Json)>) -> (r: Vec<(String, Json)>)
    ensures
        entries_model(r) == entries_model(*m),
{
    let mut out: Vec<(String, Json)> = Vec::new();
    let mut i: usize = 0;
    while i < m.len()
        invariant
            i <= m.len(),
            out.len() == i,
            forall|j: int| 0 <= j < i ==> entries_model(out)[j] == entries_model(*m)[j],
        decreases m.len() - i,
    {
        let k = m[i].0.clone();
        let v = m[i].1.clone();
        out.push((k, v));
        i = i + 1;
    }
    assert(entries_model(out) =~= entries_model(*m));
    out
}

impl Clone for Json {
    fn clone(&self) -> (r: Self)
        ensures
            r.model() == self.model(),
    {
        self.deep_copy()
    }
}

impl Json {
    /// A copy of the document.
    pub fn deep_copy(&self) -> (r: Json)
        ensures
            r.model() == self.model(),
        decreases self,
    {
        match self {
            Json::Null => Json::Null,
            Json::Bool(b) => Json::Bool(*b),
            Json::Number(n) => Json::Number(*n),
            Json::String(s) => Json::String(s.clone()),
            Json::Array(a) => {
                let mut out: Vec<Json> = Vec::new();
                let mut i: usize = 0;
                while i < a.len()
                    invariant
                        i <= a.len(),
                        out.len() == i,
                        *self == Json::Array(*a),
                        self.model() == JsonV::Array(items_model(*a)),
                        forall|j: int| 0 <= j < i ==> items_model(out)[j] == items_model(*a)[j],
                    decreases a.len() - i,
                {
                    proof {
                        assert(decreases_to!(*self => a@[i as int]));
                    }
                    let e = a[i].deep_copy();
                    out.push(e);
                    i = i + 1;
                }
                assert(items_model(out) =~= items_model(*a));
                Json::Array(out)
            },
            Json::Object(m) => {
                let mut out: Vec<(String, Json)> = Vec::new();
                let mut i: usize = 0;
                while i < m.len()
                    invariant
                        i <= m.len(),
                        out.len() == i,
                        *self == Json::Object(*m),
                        self.model() == JsonV::Object(entries_model(*m)),
                        forall|j: int| 0 <= j < i ==> entries_model(out)[j] == entries_model(*m)[j],
                    decreases m.len() - i,
                {
                    let k = m[i].0.clone();
                    proof {
                        assert(decreases_to!(*self => m@[i as int].1));
                    }
                    let v = m[i].1.deep_copy();
                    out.push((k, v));
                    i = i + 1;
                }
                assert(entries_model(out) =~= entries_model(*m));
                Json::Object(out)
            },
        }
    }
}

} // verus!

//! A JSON Patch document: an ordered list of operations.
use vstd::prelude::*;

use crate::json::Json;
use crate::json::JsonV;
use crate::patch::operations::{add_panics, op_panics, spec_apply, ApplicationError, ErrV, OpV, PatchOperation};

verus! {

/// The error that a JSON parser reports.
#[verifier::external_type_specification]
#[verifier::external_body]
pub struct ExJsonError(serde_json::Error);

/// Errors that can occur while parsing or applying a JSON Patch document.
#[derive(Debug)]
pub enum PatchError {
    /// The patch document could not be parsed as valid JSON Patch data.
    ParseError(serde_json::Error),
    /// Applying one of the patch operations failed.
    ApplicationError(ApplicationError),
}

/// A JSON Patch document: operations that are applied in order.
#[derive(Debug, PartialEq, Eq)]
pub struct Patch(Vec<PatchOperation>);

impl View for Patch {
    type V = Seq<OpV>;

    closed spec fn view(&self) -> Seq<OpV> {
        self.0@.map_values(|op: PatchOperation| op@)
    }
}

/// Every operation of the patch carries well-formed values.
pub open spec fn ops_wf(ops: Seq<OpV>) -> bool {
    forall|i: int| 0 <= i < ops.len() ==> (#[trigger] ops[i]).wf()
}

/// The document after applying the operations in order, or the error of the
/// first operation that fails.
pub open spec fn spec_apply_patch(ops: Seq<OpV>, doc: JsonV) -> Result<JsonV, ErrV>
    decreases ops.len(),
{
    if ops.len() == 0 {
        Ok(doc)
    } else {
        match spec_apply(ops[0], doc) {
            Ok(d) => spec_apply_patch(ops.drop_first(), d),
            Err(e) => Err(e),
        }
    }
}

/// Whether one of the operations that are reached, in order, panics.
pub open spec fn patch_panics(ops: Seq<OpV>, doc: JsonV) -> bool
    decreases ops.len(),
{
    if ops.len() == 0 {
        false
    } else if op_panics(ops[0], doc) {
        true
    } else {
        match spec_apply(ops[0], doc) {
            Ok(d) => patch_panics(ops.drop_first(), d),
            Err(_) => false,
        }
    }
}

/// Applying the operations `a` and then `b` as one patch is applying `a`, then
/// applying `b` to its result: operations run in order, and the first failure
/// stops the rest.
pub proof fn lemma_apply_patch_append(a: Seq<OpV>, b: Seq<OpV>, doc: JsonV)
    ensures
        spec_apply_patch(a + b, doc) == match spec_apply_patch(a, doc) {
            Ok(d) => spec_apply_patch(b, d),
            Err(e) => Err(e),
        },
        patch_panics(a + b, doc) == (patch_panics(a, doc) || match spec_apply_patch(a, doc) {
            Ok(d) => patch_panics(b, d),
            Err(_) => false,
        }),
    decreases a.len(),
{
    if a.len() == 0 {
        assert(a + b =~= b);
    } else {
        assert((a + b)[0] == a[0]);
        assert((a + b).drop_first() =~= a.drop_first() + b);
        if let Ok(d) = spec_apply(a[0], doc) {
            lemma_apply_patch_append(a.drop_first(), b, d);
        }
    }
}

/// A patch of `remove`, `replace` and `test` operations never panics, so
/// `try_apply` always gives its outcome, a failing `test` included.
pub proof fn lemma_no_additions_no_panic(ops: Seq<OpV>, doc: JsonV)
    requires
        forall|i: int| 0 <= i < ops.len() ==> !((#[trigger] ops[i]) is Add || ops[i] is Move || ops[i] is Copy),
    ensures
        !patch_panics(ops, doc),
    decreases ops.len(),
{
    if ops.len() > 0 {
        crate::patch::effects::lemma_only_additions_panic(ops[0], doc);
        assert(!(ops[0] is Add || ops[0] is Move || ops[0] is Copy));
        if let Ok(d) = spec_apply(ops[0], doc) {
            let rest = ops.drop_first();
            assert forall|i: int| 0 <= i < rest.len() implies !((#[trigger] rest[i]) is Add || rest[i] is Move
                || rest[i] is Copy) by {
                assert(rest[i] == ops[i + 1]);
            }
            lemma_no_additions_no_panic(rest, d);
        }
    }
}

/// A patch of one operation does what the operation does.
pub proof fn lemma_apply_patch_single(op: OpV, doc: JsonV)
    ensures
        spec_apply_patch(seq![op], doc) == spec_apply(op, doc),
        patch_panics(seq![op], doc) == op_panics(op, doc),
{
    let rest = seq![op].drop_first();
    assert(rest =~= Seq::<OpV>::empty());
    if let Ok(d) = spec_apply(op, doc) {
        assert(spec_apply_patch(rest, d) == Ok::<JsonV, ErrV>(d));
        assert(!patch_panics(rest, d));
    }
}

/// Whether adding at `path` in `target` would set a member of a boolean, a
/// number or a string.
fn add_panics_exec(path: &crate::pointer::Pointer, target: &Json) -> (r: bool)
    ensures
        r == add_panics(path@, target.model()),
{
    let (parent_ptr, child) = crate::patch::operations::pointer_split(path);
    match parent_ptr.get(target) {
        None => false,
        Some(parent) => match parent {
            Json::Bool(_) | Json::Number(_) | Json::String(_) => child.is_some(),
            _ => false,
        },
    }
}

impl PatchOperation {
    /// Whether applying this operation to `target` would set a member of a
    /// boolean, a number or a string, which cannot hold members.
    pub fn panics_on(&self, target: &Json) -> (r: bool)
        requires
            target.wf(),
        ensures
            r == op_panics(self@, target.model()),
    {
        reveal(op_panics);
        let (parent_ptr, _child) = crate::patch::operations::pointer_split(self.get_path());
        if parent_ptr.get(target).is_none() {
            return false;
        }
        match self {
            PatchOperation::Add { path, .. } => add_panics_exec(path, target),
            PatchOperation::Move { from, path } => {
                let from_tokens = from.token_chars();
                let path_tokens = path.token_chars();
                if crate::patch::operations::proper_prefix_exec(&from_tokens, &path_tokens) {
                    return false;
                }
                if from.get(target).is_none() {
                    return false;
                }
                let mut copy = target.clone();
                match crate::patch::operations::apply_remove(&mut copy, from) {
                    Ok(()) => add_panics_exec(path, &copy),
                    Err(ApplicationError::NotApplicable(_)) => add_panics_exec(path, target),
                    Err(_) => false,
                }
            },
            PatchOperation::Copy { from, path } => {
                if from.get(target).is_none() {
                    return false;
                }
                add_panics_exec(path, target)
            },
            _ => false,
        }
    }
}

impl Patch {
    /// Creates a patch without operations.
    pub fn empty() -> (p: Patch)
        ensures
            p@ == Seq::<OpV>::empty(),
    {
        let p = Patch(Vec::new());
        assert(p@ =~= Seq::<OpV>::empty());
        p
    }

    /// Creates a patch from a list of operations, keeping their order.
    pub fn new_with(ops: Vec<PatchOperation>) -> (p: Patch)
        ensures
            p@ == ops@.map_values(|op: PatchOperation| op@),
    {
        Patch(ops)
    }

    /// The operations of the patch, in order.
    pub fn operations(&self) -> (ops: &Vec<PatchOperation>)
        ensures
            ops@.map_values(|op: PatchOperation| op@) == self@,
    {
        &self.0
    }

    /// Whether every operation carries well-formed values.
    pub fn is_well_formed(&self) -> (r: bool)
        ensures
            r == ops_wf(self@),
    {
        let mut i: usize = 0;
        while i < self.0.len()
            invariant
                i <= self.0.len(),
                self@ == self.0@.map_values(|op: PatchOperation| op@),
                forall|j: int| 0 <= j < i ==> (#[trigger] self@[j]).wf(),
            decreases self.0.len() - i,
        {
            if !self.0[i].is_well_formed() {
                assert(!self@[i as int].wf());
                return false;
            }
            i = i + 1;
        }
        true
    }

    /// Applies the operations in order to a copy of `target`, stopping at the
    /// first that would panic (`None`) or fail.
    fn run(&self, target: &Json, stop_before_panic: bool) -> (r: Option<Result<Json, PatchError>>)
        requires
            target.wf(),
            ops_wf(self@),
            !stop_before_panic ==> !patch_panics(self@, target.model()),
        ensures
            r is None <==> patch_panics(self@, target.model()),
            r matches Some(res) ==> match spec_apply_patch(self@, target.model()) {
                Ok(d) => res matches Ok(j) && j.model() == d && j.wf(),
                Err(e) => res matches Err(PatchError::ApplicationError(ae)) && ae@ == e,
            },
    {
        let ghost ops = self@;
        let ghost doc = target.model();
        let mut t = target.clone();
        let mut i: usize = 0;
        assert(ops.skip(0) =~= ops);
        while i < self.0.len()
            invariant
                i <= self.0.len(),
                ops == self@,
                doc == target.model(),
                ops == self.0@.map_values(|op: PatchOperation| op@),
                ops_wf(ops),
                t.wf(),
                !stop_before_panic ==> !patch_panics(self@, doc),
                spec_apply_patch(ops, doc) == spec_apply_patch(ops.skip(i as int), t.model()),
                patch_panics(ops, doc) == patch_panics(ops.skip(i as int), t.model()),
            decreases self.0.len() - i,
        {
            let ghost rest = ops.skip(i as int);
            assert(rest[0] == self.0@[i as int]@);
            assert(rest.drop_first() =~= ops.skip(i + 1));
            if stop_before_panic && self.0[i].panics_on(&t) {
                assert(patch_panics(rest, t.model()));
                return None;
            }
            assert(!op_panics(rest[0], t.model()));
            let ghost before = t.model();
            match self.0[i].apply(&mut t) {
                Ok(()) => {},
                Err(e) => {
                    assert(spec_apply(rest[0], before) == Err::<JsonV, ErrV>(e@));
                    assert(spec_apply_patch(rest, before) == Err::<JsonV, ErrV>(e@));
                    assert(!patch_panics(rest, before));
                    return Some(Err(PatchError::ApplicationError(e)));
                },
            }
            i = i + 1;
        }
        assert(ops.skip(i as int) =~= Seq::<OpV>::empty());
        Some(Ok(t))
    }

    /// Applies this patch to `target` and returns the patched document.
    ///
    /// `target` itself is not changed. The operations are applied in order, and
    /// the first one that fails stops the application with its error.
    pub fn apply(&self, target: &Json) -> (r: Result<Json, PatchError>)
        requires
            target.wf(),
            ops_wf(self@),
            !patch_panics(self@, target.model()),
        ensures
            match spec_apply_patch(self@, target.model()) {
                Ok(d) => r matches Ok(j) && j.model() == d && j.wf(),
                Err(e) => r matches Err(PatchError::ApplicationError(ae)) && ae@ == e,
            },
    {
        self.run(target, false).unwrap()
    }

    /// Applies this patch as [`Patch::apply`] does, but first checks each
    /// operation: where one would set a member of a boolean, a number or a
    /// string, it returns `None` instead of applying it.
    pub fn try_apply(&self, target: &Json) -> (r: Option<Result<Json, PatchError>>)
        requires
            target.wf(),
            ops_wf(self@),
        ensures
            r is None <==> patch_panics(self@, target.model()),
            r matches Some(res) ==> match spec_apply_patch(self@, target.model()) {
                Ok(d) => res matches Ok(j) && j.model() == d && j.wf(),
                Err(e) => res matches Err(PatchError::ApplicationError(ae)) && ae@ == e,
            },
    {
        self.run(target, true)
    }
}

impl From<Vec<PatchOperation>> for Patch {
    /// Converts a list of operations into a patch, keeping their order.
    fn from(ops: Vec<PatchOperation>) -> (p: Patch)
        ensures
            p@ == ops@.map_values(|op: PatchOperation| op@),
    {
        Patch(ops)
    }
}

impl vstd::std_specs::convert::FromSpecImpl<Vec<PatchOperation>> for Patch {
    open spec fn obeys_from_spec() -> bool {
        true
    }

    closed spec fn from_spec(ops: Vec<PatchOperation>) -> Patch {
        Patch(ops)
    }
}

impl From<ApplicationError> for PatchError {
    fn from(e: ApplicationError) -> (r: PatchError)
        ensures
            r == PatchError::ApplicationError(e),
    {
        PatchError::ApplicationError(e)
    }
}

impl vstd::std_specs::convert::FromSpecImpl<ApplicationError> for PatchError {
    open spec fn obeys_from_spec() -> bool {
        true
    }

    open spec fn from_spec(e: ApplicationError) -> PatchError {
        PatchError::ApplicationError(e)
    }
}

impl Default for Patch {
    /// Creates a patch without operations.
    fn default() -> (p: Patch)
        ensures
            p@ == Seq::<OpV>::empty(),
    {
        Patch::empty()
    }
}

} // verus!

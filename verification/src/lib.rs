//! JSON Pointer (RFC 6901), JSON Patch (RFC 6902), JSON Merge Patch
//! (RFC 7396) and patch generation, over a verified model of JSON documents.
use vstd::prelude::*;

pub mod diff;
pub mod diff_proofs;
pub mod json;
pub mod merge_patch;
pub mod patch;
pub mod pointer;
pub mod text;

verus! {
} // verus!

//! JSON Patch support (RFC 6902).
//!
//! A patch is an ordered list of operations (`add`, `remove`, `replace`,
//! `move`, `copy`, `test`) whose paths are JSON Pointers. The operations are
//! applied in order, and application stops at the first failing operation.
pub mod effects;
pub mod operations;
pub mod patch;

pub use operations::{ApplicationError, PatchOperation};
pub use patch::{Patch, PatchError};

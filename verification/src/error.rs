//! The one way a merge can fail.

use vstd::prelude::*;
use crate::tree::Tree;
use crate::value::Value;

verus! {

/// Why a merge failed.
#[derive(Debug)]
pub enum MergeError {
    /// A value that is not null was to be overridden by a value of another
    /// kind. The first field is the base value, the second the override.
    MergeWrongType(Value, Value),
}

/// The result of a merge.
pub type MergeResult<T> = Result<T, MergeError>;

/// The error of a result, if it is one.
pub open spec fn error_of<T>(res: MergeResult<T>) -> Option<MergeError> {
    match res {
        Ok(_) => None,
        Err(e) => Some(e),
    }
}

/// Whether `err` is exactly what the clash `clash` calls for: none where
/// there is no clash, and otherwise the error that carries its two values.
pub open spec fn reports(err: Option<MergeError>, clash: Option<(Tree, Tree)>) -> bool {
    match err {
        None => clash is None,
        Some(MergeError::MergeWrongType(base, over)) => clash == Some((base@, over@)),
    }
}

} // verus!

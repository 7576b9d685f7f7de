//! The merge capability.

use vstd::prelude::*;
use crate::error::{error_of, MergeError, MergeResult};

verus! {

/// A type whose values can be merged: an override is merged into a base, which
/// is changed in place.
pub trait Merge: Sized {
    /// Whether the type keeps the contract of `merge`. A type does not by
    /// itself: an implementation that states `conflicts` and `merged` says so
    /// here, and is then held to them.
    open spec fn obeys_merge_spec() -> bool {
        false
    }

    /// Whether merging `over` into `self` fails.
    open spec fn conflicts(&self, over: &Self) -> bool {
        false
    }

    /// Whether merging `over` into `self` may leave `after` behind and end with
    /// the error `err`, or without one where it is `None`.
    open spec fn merged(&self, over: &Self, after: &Self, err: Option<MergeError>) -> bool {
        true
    }

    /// Merges `other` into `self`.
    fn merge(&mut self, other: Self) -> (res: MergeResult<()>)
        ensures
            Self::obeys_merge_spec() ==> (res is Err <==> old(self).conflicts(&other)),
            Self::obeys_merge_spec() ==> old(self).merged(&other, final(self), error_of(res)),
    ;
}

} // verus!

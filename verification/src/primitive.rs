//! Merging values that have no parts: the override takes the base's place.

use vstd::prelude::*;
use crate::error::{MergeError, MergeResult};
use crate::merge::Merge;

verus! {

/// A truth value is replaced by the override.
impl Merge for bool {
    open spec fn obeys_merge_spec() -> bool {
        true
    }

    open spec fn conflicts(&self, over: &bool) -> bool {
        false
    }

    open spec fn merged(&self, over: &bool, after: &bool, err: Option<MergeError>) -> bool {
        *after == *over && err is None
    }

    fn merge(&mut self, other: bool) -> (res: MergeResult<()>)
        ensures
            *final(self) == other,
            res is Ok,
    {
        *self = other;
        Ok(())
    }
}

/// A character is replaced by the override.
impl Merge for char {
    open spec fn obeys_merge_spec() -> bool {
        true
    }

    open spec fn conflicts(&self, over: &char) -> bool {
        false
    }

    open spec fn merged(&self, over: &char, after: &char, err: Option<MergeError>) -> bool {
        *after == *over && err is None
    }

    fn merge(&mut self, other: char) -> (res: MergeResult<()>)
        ensures
            *final(self) == other,
            res is Ok,
    {
        *self = other;
        Ok(())
    }
}

/// An integer is replaced by the override.
impl Merge for u8 {
    open spec fn obeys_merge_spec() -> bool {
        true
    }

    open spec fn conflicts(&self, over: &u8) -> bool {
        false
    }

    open spec fn merged(&self, over: &u8, after: &u8, err: Option<MergeError>) -> bool {
        *after == *over && err is None
    }

    fn merge(&mut self, other: u8) -> (res: MergeResult<()>)
        ensures
            *final(self) == other,
            res is Ok,
    {
        *self = other;
        Ok(())
    }
}

/// An integer is replaced by the override.
impl Merge for u16 {
    open spec fn obeys_merge_spec() -> bool {
        true
    }

    open spec fn conflicts(&self, over: &u16) -> bool {
        false
    }

    open spec fn merged(&self, over: &u16, after: &u16, err: Option<MergeError>) -> bool {
        *after == *over && err is None
    }

    fn merge(&mut self, other: u16) -> (res: MergeResult<()>)
        ensures
            *final(self) == other,
            res is Ok,
    {
        *self = other;
        Ok(())
    }
}

/// An integer is replaced by the override.
impl Merge for u32 {
    open spec fn obeys_merge_spec() -> bool {
        true
    }

    open spec fn conflicts(&self, over: &u32) -> bool {
        false
    }

    open spec fn merged(&self, over: &u32, after: &u32, err: Option<MergeError>) -> bool {
        *after == *over && err is None
    }

    fn merge(&mut self, other: u32) -> (res: MergeResult<()>)
        ensures
            *final(self) == other,
            res is Ok,
    {
        *self = other;
        Ok(())
    }
}

/// An integer is replaced by the override.
impl Merge for u64 {
    open spec fn obeys_merge_spec() -> bool {
        true
    }

    open spec fn conflicts(&self, over: &u64) -> bool {
        false
    }

    open spec fn merged(&self, over: &u64, after: &u64, err: Option<MergeError>) -> bool {
        *after == *over && err is None
    }

    fn merge(&mut self, other: u64) -> (res: MergeResult<()>)
        ensures
            *final(self) == other,
            res is Ok,
    {
        *self = other;
        Ok(())
    }
}

/// An integer is replaced by the override.
impl Merge for u128 {
    open spec fn obeys_merge_spec() -> bool {
        true
    }

    open spec fn conflicts(&self, over: &u128) -> bool {
        false
    }

    open spec fn merged(&self, over: &u128, after: &u128, err: Option<MergeError>) -> bool {
        *after == *over && err is None
    }

    fn merge(&mut self, other: u128) -> (res: MergeResult<()>)
        ensures
            *final(self) == other,
            res is Ok,
    {
        *self = other;
        Ok(())
    }
}

/// An integer is replaced by the override.
impl Merge for usize {
    open spec fn obeys_merge_spec() -> bool {
        true
    }

    open spec fn conflicts(&self, over: &usize) -> bool {
        false
    }

    open spec fn merged(&self, over: &usize, after: &usize, err: Option<MergeError>) -> bool {
        *after == *over && err is None
    }

    fn merge(&mut self, other: usize) -> (res: MergeResult<()>)
        ensures
            *final(self) == other,
            res is Ok,
    {
        *self = other;
        Ok(())
    }
}

/// An integer is replaced by the override.
impl Merge for i8 {
    open spec fn obeys_merge_spec() -> bool {
        true
    }

    open spec fn conflicts(&self, over: &i8) -> bool {
        false
    }

    open spec fn merged(&self, over: &i8, after: &i8, err: Option<MergeError>) -> bool {
        *after == *over && err is None
    }

    fn merge(&mut self, other: i8) -> (res: MergeResult<()>)
        ensures
            *final(self) == other,
            res is Ok,
    {
        *self = other;
        Ok(())
    }
}

/// An integer is replaced by the override.
impl Merge for i16 {
    open spec fn obeys_merge_spec() -> bool {
        true
    }

    open spec fn conflicts(&self, over: &i16) -> bool {
        false
    }

    open spec fn merged(&self, over: &i16, after: &i16, err: Option<MergeError>) -> bool {
        *after == *over && err is None
    }

    fn merge(&mut self, other: i16) -> (res: MergeResult<()>)
        ensures
            *final(self) == other,
            res is Ok,
    {
        *self = other;
        Ok(())
    }
}

/// An integer is replaced by the override.
impl Merge for i32 {
    open spec fn obeys_merge_spec() -> bool {
        true
    }

    open spec fn conflicts(&self, over: &i32) -> bool {
        false
    }

    open spec fn merged(&self, over: &i32, after: &i32, err: Option<MergeError>) -> bool {
        *after == *over && err is None
    }

    fn merge(&mut self, other: i32) -> (res: MergeResult<()>)
        ensures
            *final(self) == other,
            res is Ok,
    {
        *self = other;
        Ok(())
    }
}

/// An integer is replaced by the override.
impl Merge for i64 {
    open spec fn obeys_merge_spec() -> bool {
        true
    }

    open spec fn conflicts(&self, over: &i64) -> bool {
        false
    }

    open spec fn merged(&self, over: &i64, after: &i64, err: Option<MergeError>) -> bool {
        *after == *over && err is None
    }

    fn merge(&mut self, other: i64) -> (res: MergeResult<()>)
        ensures
            *final(self) == other,
            res is Ok,
    {
        *self = other;
        Ok(())
    }
}

/// An integer is replaced by the override.
impl Merge for i128 {
    open spec fn obeys_merge_spec() -> bool {
        true
    }

    open spec fn conflicts(&self, over: &i128) -> bool {
        false
    }

    open spec fn merged(&self, over: &i128, after: &i128, err: Option<MergeError>) -> bool {
        *after == *over && err is None
    }

    fn merge(&mut self, other: i128) -> (res: MergeResult<()>)
        ensures
            *final(self) == other,
            res is Ok,
    {
        *self = other;
        Ok(())
    }
}

/// An integer is replaced by the override.
impl Merge for isize {
    open spec fn obeys_merge_spec() -> bool {
        true
    }

    open spec fn conflicts(&self, over: &isize) -> bool {
        false
    }

    open spec fn merged(&self, over: &isize, after: &isize, err: Option<MergeError>) -> bool {
        *after == *over && err is None
    }

    fn merge(&mut self, other: isize) -> (res: MergeResult<()>)
        ensures
            *final(self) == other,
            res is Ok,
    {
        *self = other;
        Ok(())
    }
}

/// A text is replaced by the override.
impl Merge for String {
    open spec fn obeys_merge_spec() -> bool {
        true
    }

    open spec fn conflicts(&self, over: &String) -> bool {
        false
    }

    open spec fn merged(&self, over: &String, after: &String, err: Option<MergeError>) -> bool {
        *after == *over && err is None
    }

    fn merge(&mut self, other: String) -> (res: MergeResult<()>)
        ensures
            *final(self) == other,
            res is Ok,
    {
        *self = other;
        Ok(())
    }
}

/// A sequence is replaced by the override, whole: an override can so take
/// items away as well as add them.
impl<T: Merge> Merge for Vec<T> {
    open spec fn obeys_merge_spec() -> bool {
        true
    }

    open spec fn conflicts(&self, over: &Vec<T>) -> bool {
        false
    }

    open spec fn merged(&self, over: &Vec<T>, after: &Vec<T>, err: Option<MergeError>) -> bool {
        *after == *over && err is None
    }

    fn merge(&mut self, other: Vec<T>) -> (res: MergeResult<()>)
        ensures
            *final(self) == other,
            res is Ok,
    {
        *self = other;
        Ok(())
    }
}

} // verus!

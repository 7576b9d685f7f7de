//! Deep merging of configuration values: an override is merged into a base,
//! the override wins on conflicts, and a value that has a type keeps it.
//!
//! [`Merge`] is the capability. Values without parts and sequences give way
//! to the override (`primitive`). Maps take the union of the keys and merge
//! the values under shared keys (`keyed`, `hashed`, `ordered`). A dynamic
//! [`Value`] is null or a truth value, a number, a string, a sequence or a
//! [`Mapping`]: null takes any override, every other value only one of its
//! own kind (`tree` states what that means, `value` and `mapping` do it, and
//! `laws` holds what follows from it).

pub mod error;
pub mod merge;
pub mod primitive;
pub mod keyed;
pub mod hashed;
pub mod ordered;
pub mod tree;
pub mod value;
pub mod mapping;
pub mod laws;

pub use error::{MergeError, MergeResult};
pub use mapping::Mapping;
pub use merge::Merge;
pub use tree::{Kind, Number};
pub use value::Value;

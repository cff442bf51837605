//! Storage core of a content-addressed, deduplicating archive: slab files,
//! their offset tables, hash indexes, the content store, stream mappings,
//! and the check, repair and migrate operations built on them.
use vstd::prelude::*;

pub mod bytes;
pub mod hash;
pub mod slab;
pub mod writer;
pub mod index;
pub mod check;
pub mod store;
pub mod mapping;
pub mod migrate;
pub mod repair;

verus! {

} // verus!

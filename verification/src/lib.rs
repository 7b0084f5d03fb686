//! A block-tree retrieval and reconstruction core for a hierarchical
//! note store: flat block rows with parent pointers are queried as a
//! bounded subtree closure that stops at nested page boundaries, then
//! rebuilt into one fully nested, typed page tree.

use vstd::prelude::*;

pub mod record;
pub mod props;
pub mod query;
pub mod block;
pub mod tree;
pub mod laws;

verus! {

/// The failures the core surfaces to its callers, as distinguishable kinds.
#[derive(Clone, Copy, PartialEq, Eq, Structural, Debug)]
pub enum BlockError {
    /// The backing store could not be reached.
    StoreUnavailable,
    /// A write was rejected by an integrity rule of the store.
    ConstraintViolation,
    /// No stored row carries the requested identifier.
    NotFound,
    /// No row in the supplied record set carries the requested identifier.
    RootMissing,
    /// The requested identifier resolves to a row that is not a page.
    RootNotAPage,
    /// A stored payload does not match the schema of its declared kind.
    MalformedProperties,
}

impl BlockError {
    /// A human-readable description of the failure.
    pub fn describe(&self) -> String {
        match self {
            BlockError::StoreUnavailable => "the block store is unavailable".to_owned(),
            BlockError::ConstraintViolation => "the store rejected the write".to_owned(),
            BlockError::NotFound => "no block with this identifier".to_owned(),
            BlockError::RootMissing => "the record set holds no such root".to_owned(),
            BlockError::RootNotAPage => "the requested block is not a page".to_owned(),
            BlockError::MalformedProperties => "a stored payload is malformed".to_owned(),
        }
    }
}

} // verus!

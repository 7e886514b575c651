//! Semantic indexing core for a note vault: a vector store holding one
//! fixed-dimension embedding per note together with a bidirectional
//! note-identity mapping, a builder that accumulates embeddings in append
//! order, a binary codec that persists the store exactly, and a selection
//! resolver that turns a fuzzy-matched display line back into a note path.

pub mod builder;
pub mod codec;
pub mod sanitize;
pub mod select;
pub mod store;
mod text;

use vstd::prelude::*;

verus! {

/// Errors raised by the vector-store layer.
#[derive(Debug, PartialEq, Eq)]
pub enum StoreError {
    /// The persisted bytes do not describe a well-formed store.
    CorruptStore,
    /// A note's embedding does not have the store's dimension.
    DimensionMismatch,
    /// Two notes share the same identity key.
    DuplicateId,
}

/// Errors raised by the selection resolver. Both are user-facing and
/// non-fatal: the caller reports them and exits without a store change.
#[derive(Debug, PartialEq, Eq)]
pub enum SelectError {
    /// The user cancelled, or the matcher returned no candidate.
    NoSelection,
    /// The chosen line does not split into exactly a title part and a
    /// relpath part on the fixed delimiter.
    MalformedSelection,
}

impl StoreError {
    /// A short human-readable description, for the process boundary.
    pub fn message(&self) -> (r: &'static str)
        ensures
            r@ == match self {
                StoreError::CorruptStore => "corrupt vector store"@,
                StoreError::DimensionMismatch => "embedding dimension mismatch"@,
                StoreError::DuplicateId => "duplicate note identity"@,
            },
    {
        match self {
            StoreError::CorruptStore => "corrupt vector store",
            StoreError::DimensionMismatch => "embedding dimension mismatch",
            StoreError::DuplicateId => "duplicate note identity",
        }
    }
}

impl SelectError {
    /// A short human-readable description, for the process boundary.
    pub fn message(&self) -> (r: &'static str)
        ensures
            r@ == match self {
                SelectError::NoSelection => "no note selected"@,
                SelectError::MalformedSelection => "invalid selection format"@,
            },
    {
        match self {
            SelectError::NoSelection => "no note selected",
            SelectError::MalformedSelection => "invalid selection format",
        }
    }
}

} // verus!

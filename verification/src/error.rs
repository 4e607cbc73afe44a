//! The errors of the engine.

use vstd::prelude::*;

verus! {

/// The ways in which an operation of the engine can fail.
#[derive(Debug, Clone, Copy, PartialEq, Eq, Structural)]
pub enum Error {
    /// A vector does not have the dimension that was fixed earlier.
    DimensionMismatch,
    /// A record identifier does not name a record.
    NotFound,
    /// A search was made before anything was inserted.
    IndexEmpty,
    /// A snapshot does not describe a well-formed index.
    CorruptIndex,
    /// The embedding function reported a failure.
    EmbeddingError,
}

} // verus!

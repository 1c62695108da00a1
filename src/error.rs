use vstd::prelude::*;

verus! {

/// The ways an operation of the index can fail.
#[derive(Debug, Clone, Copy, PartialEq, Eq, Structural)]
pub enum IndexError {
    /// `avg_doc_length` is not positive and finite, `k1` is negative or not
    /// finite, or `b` lies outside `[0, 1]`.
    InvalidConfiguration,
    /// A term identifier is not below the number of IDF values supplied.
    OutOfRangeTermId,
    /// The number of term-frequency rows differs from the document count.
    DimensionMismatch,
    /// A byte stream is truncated, corrupt, or of another format version.
    DeserializationError,
}

} // verus!

use vstd::prelude::*;

verus! {

/// The errors a store operation can return.
///
/// `NotFound` carries the identifier that was looked up; `DimensionMismatch`
/// carries the store's configured dimension and the offending vector length.
/// `DatabaseError` is reserved for unexpected internal failures reported by
/// the surrounding application (the store itself never constructs it).
#[derive(Debug, Clone, PartialEq, Eq)]
pub enum VectorDBError {
    NotFound(String),
    DimensionMismatch { expected: usize, got: usize },
    DatabaseError(String),
}

} // verus!

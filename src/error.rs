use vstd::prelude::*;

verus! {

/// Why an index operation was refused or failed.
#[derive(Debug, PartialEq, Eq)]
pub enum IndexError {
    UnknownModel,
    IndexAlreadyExists,
    IndexNotFound,
    InvalidSplitterPattern,
    DimensionMismatch,
    EmbeddingCountMismatch,
    ComponentOutOfRange,
    EmbeddingFailure { message: String },
    BackendError { message: String },
}

} // verus!

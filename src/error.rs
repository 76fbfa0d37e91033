use vstd::prelude::*;

verus! {

/// Every way in which an operation on the object store can fail.
#[derive(Debug, Clone, Copy, PartialEq, Eq, Structural)]
pub enum ObjectError {
    NotFound,
    DecompressionError,
    MalformedHeader,
    UnknownKind,
    InvalidSize,
    TruncatedPayload,
    SizeMismatch,
    MalformedEntry,
    TruncatedEntry,
    UnsupportedKind,
    IoError,
}

} // verus!

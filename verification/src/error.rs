use vstd::prelude::*;

verus! {

/// The error kinds that store operations can surface.
#[derive(Debug, PartialEq, Eq, Structural, Clone, Copy)]
pub enum KvsError {
    /// A lookup or removal named a key that is not in the store.
    KeyNotFound,
    /// The underlying storage failed.
    IoError,
    /// Bytes did not parse as a well-formed log record.
    CorruptRecord,
    /// A record of an unexpected kind stood where a `Set` was required.
    UnexpectedCommandType,
    /// A log pointer named a segment that no longer exists.
    DanglingPointer,
    /// An attempt was made to retire the active segment.
    SegmentInUse,
}

} // verus!

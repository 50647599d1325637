use vstd::prelude::*;

verus! {

/// Errors reported by the mapping operations.
#[derive(Clone, Copy, Debug, PartialEq, Eq, Structural)]
pub enum MmError {
    /// Bad alignment, zero length, conflicting flags or a malformed range.
    InvalidInput,
    /// No free virtual range could be found.
    NoMemory,
    /// The descriptor's device cannot be mapped.
    NoSuchDevice,
    /// The flag combination or advice is not supported here.
    OperationNotSupported,
    /// A fixed, non-replacing placement overlaps an existing area.
    AlreadyExists,
    /// An access touched an address that is unmapped or lacks the permission.
    BadAddress,
    /// A descriptor was given but did not resolve to a file.
    BadFileDescriptor,
}

} // verus!

//! The error every kernel operation reports.
use vstd::prelude::*;

verus! {

/// Why an operation was refused.
#[derive(Clone, Copy, PartialEq, Eq, Debug, Structural)]
pub enum KError {
    /// A fixed-capacity table, or physical memory, is exhausted.
    OutOfMemory,
    /// The handle or id is stale, or names nothing.
    BadHandle,
    /// The caller holds the object but not the right.
    AccessDenied,
    /// The operation cannot complete without waiting.
    WouldBlock,
    /// The other side of the channel is gone.
    PeerClosed,
    /// The request does not follow the protocol.
    Protocol,
    /// An argument is outside what the operation accepts.
    InvalidArgument,
    /// The mapping cannot be made.
    InvalidMapping,
    /// The deadline passed.
    TimedOut,
    /// A configured limit would be exceeded.
    LimitExceeded,
    /// The operation does not apply to this object.
    NotSupported,
    /// Something is already mapped or installed there.
    AlreadyMapped,
    /// The object is of another type.
    WrongType,
    /// The frame-slot pool has no run long enough.
    OutOfFrameSlots,
    /// A policy refused a well-formed request.
    PolicyRefused,
    /// A mapping may not be writable and executable at once.
    WXViolation,
}

} // verus!

//! Error kinds reported by the engine.

use vstd::prelude::*;

verus! {

/// Why a dispatch could not be encoded.
#[derive(Clone, Copy, Debug, PartialEq, Eq, Structural)]
pub enum EncodingFault {
    /// Shape and strides have different ranks, or a stride triple is not a triple.
    RankMismatch,
    /// The problem size is zero in a dimension that must be non-zero.
    ZeroSize,
    /// A buffer is missing, or its length does not match what the geometry addresses.
    BufferMismatch,
    /// A selection dimension or an index value lies outside its range.
    IndexOutOfRange,
}

/// The error kinds of the engine. Each is local to the one requested operation.
#[derive(Clone, Copy, Debug, PartialEq, Eq, Structural)]
pub enum KernelError {
    /// The function name is unknown, or the device program failed to build.
    CompileError,
    /// The operation has no kernel registered for the requested element type.
    UnsupportedDataType,
    /// The request was rejected before any device work was recorded.
    EncodingError(EncodingFault),
    /// The device reported a failure after submission.
    DeviceExecutionFailure,
}

} // verus!

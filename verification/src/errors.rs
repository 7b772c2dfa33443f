//! Failure kinds shared by the planning, encoding and decoding stages.

use vstd::prelude::*;

verus! {

/// What went wrong during planning, encoding or decoding.
///
/// `Configuration` is returned by plan computation when the geometry cannot
/// pack whole bytes into a frame.  `SourceRead` and `Subprocess` are reserved
/// for the unverified shell around the library: reading the payload and
/// driving the external container encoder/decoder.  The two mismatch kinds
/// are returned by the decoder when the container does not agree with the
/// expected plan.
#[derive(Clone, Copy, Debug, PartialEq, Eq, Structural)]
pub enum CodecError {
    /// The geometry cannot carry whole bytes (invalid frame/cell layout).
    Configuration,
    /// The payload could not be read.
    SourceRead,
    /// The external container encoder/decoder failed.
    Subprocess,
    /// The container holds a different number of frames than the plan expects.
    FrameCountMismatch,
    /// A decoded frame does not have the planned width, height or pixel count.
    FrameGeometryMismatch,
}

} // verus!

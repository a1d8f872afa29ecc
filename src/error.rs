//! Errors reported by the codec.
use vstd::prelude::*;

verus! {

/// Why an encoding or decoding step failed.
#[derive(Debug, Clone, Copy, PartialEq, Eq, Structural)]
pub enum CodecError {
    /// A value to be coded has magnitude 1170 or more.
    UnsupportedMagnitude,
    /// Encoded input uses the reserved prefix, ends early or is malformed.
    CorruptStream,
}

} // verus!

//! The ways in which reading a frame can fail.
use vstd::prelude::*;

verus! {

/// Why a length prefix or a frame could not be read.
#[derive(Debug, Clone, Copy, PartialEq, Eq, Structural)]
pub enum FrameError {
    /// The input ended before the announced number of bytes was available,
    /// either inside the length prefix or inside the payload.
    Truncated,
    /// The announced length is larger than the reader accepts: larger than
    /// `usize::MAX`, or larger than the maximum the caller has set.
    LengthOverflow,
}

} // verus!

//! The failures that the two operations report.

use vstd::prelude::*;

verus! {

/// Why a compression was refused.
#[derive(Clone, Copy, Debug, PartialEq, Eq, Structural)]
pub enum CompressError {
    /// The input is shorter than the smallest block worth compressing.
    InputTooSmall,
    /// The output buffer cannot hold the worst case for this input.
    BufferTooSmall,
}

/// Why a decompression stopped.
#[derive(Clone, Copy, Debug, PartialEq, Eq, Structural)]
pub enum DecompressError {
    /// The block stands for more bytes than the output buffer holds.
    OutputTooSmall,
    /// The block ends inside a token, or a reference reaches back beyond
    /// the first byte produced.
    CorruptStream,
}

} // verus!

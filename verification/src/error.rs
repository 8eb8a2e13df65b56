//! The failures the library decides on.

use vstd::prelude::*;

verus! {

/// What was found where 16-bit RGB was expected.
#[derive(Debug, PartialEq, Eq)]
pub enum Found {
    /// Another colour type.
    Color { color: String },
    ZeroHeightStrips,
    /// A chunk larger than any the decoder may allocate for.
    ChunkTooLarge { megabytes: u128 },
    /// Samples of another depth.
    OtherDepth,
    /// An output with this many samples per pixel.
    OutputSamples { samples: u16 },
}

/// Why a request was refused.
///
/// A caller needs to tell these apart: a frame that does not match its stack calls for
/// another remedy than a result that would land among its own sources.
#[derive(Debug, PartialEq, Eq)]
pub enum Error {
    /// A readable TIFF that is not what the pipeline accepts.
    UnsupportedFormat { path: String, found: Found },
    /// A stack directory with nothing to stack.
    NoFrames { dir: String },
    /// A test-set root with no stack directories under it.
    NoStacks { root: String },
    /// Frames in one stack disagree on geometry.
    Geometry {
        path: String,
        width: u32,
        height: u32,
        bits: u8,
        reference: String,
        ref_width: u32,
        ref_height: u32,
        ref_bits: u8,
    },
    /// The caller asked the run to stop. The one variant that is not a fault.
    Cancelled,
    /// A band request fell outside the image.
    Bounds { start: u64, end: u64, height: u32 },
    /// A caller-supplied buffer was the wrong size.
    BufferSize { got: usize, want: usize },
    /// The result would land in the directory it was stacked from, and be read back as
    /// an extra frame on the next run.
    OutputInsideStack { output: String, dir: String },
}

} // verus!

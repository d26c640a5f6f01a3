//! Errors.

use vstd::prelude::*;

verus! {

/// Why an operation of this crate was refused.
#[derive(Clone, Copy, Debug, PartialEq, Eq, Structural)]
pub enum Lz4Error {
    /// The logical type is none that this encoding stores.
    UnsupportedDType,
    /// The slice starts behind its end.
    InvalidSliceRange { start: usize, stop: usize },
    /// The slice ends behind the last row.
    SliceStopExceedsRows { stop: usize, n_rows: usize },
    /// The slice does not have the array's length.
    SliceLengthMismatch { slice_len: usize, len: usize },
    /// The validity does not speak of every row.
    ValidityLengthMismatch { validity_len: usize, n_rows: usize },
    /// There are not as many frames as frame metadata.
    FrameCountMismatch { frames: usize, metadata_frames: usize },
    /// The codec refused to compress a frame.
    Compress,
    /// The codec found a frame malformed.
    Decompress,
    /// The array is neither primitive nor a view array.
    UnsupportedArray,
    /// The serialized frame metadata is malformed.
    InvalidMetadata,
    /// The array was given more children than the one for its validity.
    UnexpectedChildren { children: usize },
}

} // verus!

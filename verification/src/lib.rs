//! LZ4-backed compression encodings for variable-width Vortex arrays.
//!
//! [`Lz4Array`] stores UTF-8, binary, or primitive values as one or more LZ4 blocks ("frames").
//! Frame metadata lets slices decompress only the frames that can contribute values to the
//! requested row range. Each frame is compressed on its own: the frames share no dictionary.
//!
//! | Module | What it holds |
//! |---|---|
//! | [`array`] | the encoding: building, slicing, reading and serializing arrays |
//! | [`data`] | the encoded form of a column, and compressing into it |
//! | [`decompress`] | decompressing a slice |
//! | [`frames`], [`plan`] | splitting values into frames, and finding the frames a slice needs |
//! | [`metadata`], [`wire`] | frame metadata and its serialized form |
//! | [`codec`] | the LZ4 block codec |
//! | [`arrays`], [`views`], [`validity`], [`dtype`], [`buffer`] | columns in memory |
//! | [`rows`], [`bytes`] | the mathematics of rows and byte streams |
//! | [`roundtrip`] | what is read back of what was written |
//! | [`slicing`] | slicing and decompressing, in either order |
//! | [`visualize`], [`postscript`], [`template`], [`order`], [`intern`], [`text`] | the layout visualization |

pub mod array;
pub mod arrays;
pub mod buffer;
pub mod bytes;
pub mod codec;
pub mod data;
pub mod decompress;
pub mod dtype;
pub mod error;
pub mod frames;
pub mod intern;
pub mod metadata;
pub mod order;
pub mod plan;
pub mod postscript;
pub mod roundtrip;
pub mod rows;
pub mod slicing;
pub mod template;
pub mod text;
pub mod validity;
pub mod views;
pub mod visualize;
pub mod wire;

pub use array::Lz4;
pub use array::Lz4Array;
pub use data::Lz4Data;
pub use data::Lz4DataParts;
pub use decompress::VarBinDecompressed;
pub use error::Lz4Error;
pub use metadata::Lz4FrameMetadata;
pub use metadata::Lz4Metadata;
pub use views::reconstruct_views;

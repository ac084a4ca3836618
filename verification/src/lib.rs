//! Core of a chunked n-dimensional array storage engine following the Zarr V3
//! data model: a read path that materialises rectilinear regions of an array
//! by locating the intersecting chunks in an abstract key-value store,
//! decoding each chunk through a codec pipeline, and assembling the decoded
//! fragments into a contiguous output buffer.

pub mod array;
pub mod byte_range;
pub mod chunk_grid;
pub mod codec;
pub mod codec_chain;
pub mod concurrency;
pub mod store;
pub mod store_key;
pub mod subset;

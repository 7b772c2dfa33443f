//! A byte-to-raster codec: payload bytes become black-and-white pixel
//! cells on video frames, and frames are sampled back into bytes.
//!
//! The pipeline is planned in `geometry` (frame and cell layout, frame
//! count), painted in `encoder` (bits to cells, chunks to frames, payloads
//! to ordered frame sequences), and reversed in `sampler` and `decoder`
//! (cell means to bits, bits to bytes, frames to the payload).  `order`
//! keeps frame delivery strictly in index order when frames are finished
//! out of order; `file`, `catalog` and `parse` carry the metadata and the
//! probe output that the surrounding tooling exchanges with the codec.

pub mod catalog;
pub mod decoder;
pub mod encoder;
pub mod errors;
pub mod file;
pub mod frame;
pub mod geometry;
pub mod order;
pub mod parse;
pub mod sampler;

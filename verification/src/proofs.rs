//! What holds of the codecs beyond the contract of each function: that the
//! decoders undo the encoders, and what the encoded buffers look like.

pub mod bwt;
pub mod chain;
pub mod counting;
pub mod huff;
pub mod huff_tree;
pub mod mtf;
pub mod pipeline;
pub mod rle;

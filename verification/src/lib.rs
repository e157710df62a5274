//! A lossless byte compressor built as a pipeline of four reversible stages:
//! Burrows-Wheeler transform, adaptive move-to-front, run-length encoding and
//! Huffman coding. Every stage is a function from a byte buffer to a byte
//! buffer, and the container records which stages were applied.

pub mod error;
pub mod utils;
pub mod encoders;
pub mod proofs;

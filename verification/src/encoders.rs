//! The four stage codecs and the driver that chains them.

pub mod bits;
pub mod bwt;
pub mod encoder;
pub mod huff;
pub mod huff_helper;
pub mod huff_order;
pub mod huff_tree;
pub mod mtf;
pub mod rle;

//! Packed 10-bit luma/chroma/alpha sample words and their run-length
//! compression.
pub mod word;
pub mod rle;
pub mod frame;

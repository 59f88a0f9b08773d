//! Quantized similarity engine and sparse approximate-nearest-neighbor search
//! primitives: a bit-plane codec that packs low-resolution quantization codes
//! into machine words, a popcount-table driven similarity engine that works
//! directly on those words, and a sparse inverted index with a ranked query
//! path over its posting lists.

pub mod codec;
pub mod errors;
pub mod multiply;
pub mod popcount;
pub mod quantization;
pub mod query;
pub mod similarity;
pub mod sparse;

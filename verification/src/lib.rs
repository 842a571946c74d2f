//! A small lossless compressor: an LZ77 dictionary coder over a bounded
//! backward window, a bit packer that serialises its blocks as fixed-width
//! fields, and an optional delta filter for streams of 64-bit integers.
//!
//! Every function carries a contract over a mathematical model of its data
//! (sequences of bits, bytes, integers and blocks), and the round trips of
//! the format are stated and proved as lemmas next to the code.

pub mod bit_packer;
pub mod bits;
pub mod delta;
pub mod lz77;
pub mod pipeline;

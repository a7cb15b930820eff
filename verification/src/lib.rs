//! A Huffman-coding compression engine over byte alphabets.
//!
//! The library counts byte occurrences into a weight table, builds a binary
//! prefix tree by greedy minimum-weight merging, derives each byte's bit code
//! from the tree, serializes the tree shape compactly, and packs/unpacks data
//! at the bit level, including a chunked codec that stitches partial bytes
//! across chunk boundaries.

pub mod bits;
pub mod error;
pub mod cmpr;
pub mod code;
pub mod comp;
pub mod dcmpr;
pub mod freqs;
pub mod laws;
pub mod packer;
pub mod tree;
pub mod utils;
pub mod weights;

pub use utils::calc_padding_bits;

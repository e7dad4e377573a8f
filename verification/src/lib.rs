//! Huffman coding over the characters of a string: a prefix-free binary code
//! built from character frequencies, an encoder and a decoder.

pub mod bits;
pub mod codec;
pub mod count;
pub mod huffman;
pub mod laws;
pub mod order;
pub mod queue;
pub mod shape;
pub mod tree;

pub use bits::Bits;
pub use tree::HuffmanTree;

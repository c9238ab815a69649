//! crunch: a small archiver built on Huffman coding and LZ77, verified with Verus.
pub mod bits;
pub mod bit_io;
pub mod lz77;
pub mod huffman_tree;
pub mod huffman;
pub mod stats;
pub mod archive;
pub mod canonical;
pub mod huffman_depth;

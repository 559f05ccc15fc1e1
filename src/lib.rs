//! Huffman coding of byte sequences: frequency analysis, tree construction,
//! code-table derivation and bit-level packing, with the inverse decoder.

pub mod bits;
pub mod codec;
pub mod service;
pub mod table;
pub mod tree;

pub use bits::BitBuffer;
pub use codec::{compress, decode, decompress, encode, CodecError, CompressedPayload};
pub use service::PistonService;
pub use table::{code_table, CodeEntry};
pub use tree::{build_huffman_tree, frequency_table, HuffmanNode};

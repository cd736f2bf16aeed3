//! Parsing of XNB content files: a byte reader, an LSB-word bit reader, the
//! canonical Huffman trees and the LZX decompressor that XNB files use, and
//! the models of the file header and of the assets that it carries.

pub mod error;
pub mod reader;
pub mod bit_reader;
pub mod tree;
pub mod decoder;
pub mod models;

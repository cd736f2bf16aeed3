use vstd::prelude::*;

verus! {

/// Everything that can go wrong while reading an XNB file.
#[derive(Debug, PartialEq, Eq)]
pub enum EnactError {
    /// Offset arithmetic overflowed.
    Overflow,
    /// The file does not start with the magic bytes `XNB`.
    BadMagic,
    /// The target platform byte is not one of `w`, `m`, `x`.
    BadTargetPlatform { byte: u8 },
    /// The format version is not 5.
    BadFormatVersion { version: u8 },
    /// The flag byte holds bits that have no meaning.
    BadFlagBits,
    /// The bit reader was not aligned after moving.
    Unaligned { at: usize },
    /// The LZX window size is outside 15..=21.
    InvalidWindowSize { size: u8 },
    /// The LZX block type is not 1, 2 or 3.
    BadLZXBlockType { t: u32 },
    /// The LZX stream does not decode.
    CorruptedStream,
    /// A Huffman tree was needed before one was read.
    NoTree,
    /// The LZX block type is not supported.
    NotImplemented,
    /// The input ended at `at` while `want` more bytes were needed.
    Eof { at: usize, want: usize },
    /// A type reader name that this library does not know.
    UnknownTypeReader(String),
    /// A surface format number outside 0..=19.
    UnknownSurfaceFormat(i32),
    /// The primary asset names a type reader that the file does not list.
    NoTypeReader,
}

} // verus!

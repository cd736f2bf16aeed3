use crate::error::EnactError;
use crate::reader::{le_u32, take_error, Reader};
use vstd::prelude::*;

verus! {

/// The platform that an XNB file was built for.
#[derive(Debug, Clone, Copy, PartialEq, Eq, Structural)]
pub enum XNBTargetPlatform {
    Windows,
    WindowsPhone,
    Xbox,
}

/// The platform that a platform byte names: `w`, `m` or `x`.
pub open spec fn platform_of(b: u8) -> Option<XNBTargetPlatform> {
    if b == 0x77 {
        Some(XNBTargetPlatform::Windows)
    } else if b == 0x6d {
        Some(XNBTargetPlatform::WindowsPhone)
    } else if b == 0x78 {
        Some(XNBTargetPlatform::Xbox)
    } else {
        None
    }
}

/// The flag byte of an XNB header: bit 0 marks HiDef content, bit 7
/// compressed content; no other bit has a meaning.
#[derive(Debug, Clone, Copy, PartialEq, Eq, Structural)]
pub struct XNBFlagBits {
    bits: u8,
}

impl XNBFlagBits {
    pub const HIDEF: u8 = 1;
    pub const COMPRESSED: u8 = 0x80;

    pub closed spec fn spec_bits(self) -> u8 {
        self.bits
    }

    /// The flags of the byte `bits`.
    pub closed spec fn spec_of(bits: u8) -> Self {
        Self { bits }
    }

    /// Flags are their byte.
    pub proof fn lemma_bits(bits: u8, f: Self)
        ensures
            Self::spec_of(bits).spec_bits() == bits,
            Self::spec_of(f.spec_bits()) == f,
    {
    }

    /// The flags of the byte `bits`, if it sets no bit without a meaning.
    pub fn from_bits(bits: u8) -> (r: Option<Self>)
        ensures
            r is Some <==> bits & 0x7e == 0,
            r matches Some(f) ==> f == Self::spec_of(bits),
    {
        if bits & 0x7e == 0 {
            Some(Self { bits })
        } else {
            None
        }
    }

    /// The flag byte.
    pub fn bits(&self) -> (r: u8)
        ensures
            r == self.spec_bits(),
    {
        self.bits
    }

    /// Whether all the bits of `flag` are set.
    pub fn contains(&self, flag: u8) -> (r: bool)
        ensures
            r == (self.spec_bits() & flag == flag),
    {
        self.bits & flag == flag
    }
}

/// The fixed header of an XNB file.
#[derive(Debug, Clone, Copy, PartialEq, Eq, Structural)]
pub struct XNBFileHeader {
    pub target_platform: XNBTargetPlatform,
    pub format_version: u8,
    pub flag_bits: XNBFlagBits,
    pub compressed_size: u32,
    pub decompressed_size: u32,
}

/// The header at offset `at` of `data`, and the offset where reading it
/// stopped: the magic bytes `XNB`, a platform byte, format version 5, a flag
/// byte without meaningless bits, then the little-endian compressed and
/// decompressed sizes.
pub open spec fn parse_header(data: Seq<u8>, at: int) -> (Result<XNBFileHeader, EnactError>, int) {
    if let Some(e) = take_error(data, at, 3) {
        (Err(e), at)
    } else if !(data[at] == 0x58 && data[at + 1] == 0x4e && data[at + 2] == 0x42) {
        (Err(EnactError::BadMagic), at + 3)
    } else if let Some(e) = take_error(data, at + 3, 1) {
        (Err(e), at + 3)
    } else if platform_of(data[at + 3]) is None {
        (Err(EnactError::BadTargetPlatform { byte: data[at + 3] }), at + 4)
    } else if let Some(e) = take_error(data, at + 4, 1) {
        (Err(e), at + 4)
    } else if data[at + 4] != 5 {
        (Err(EnactError::BadFormatVersion { version: data[at + 4] }), at + 5)
    } else if let Some(e) = take_error(data, at + 5, 1) {
        (Err(e), at + 5)
    } else if data[at + 5] & 0x7e != 0 {
        (Err(EnactError::BadFlagBits), at + 6)
    } else if let Some(e) = take_error(data, at + 6, 4) {
        (Err(e), at + 6)
    } else if let Some(e) = take_error(data, at + 10, 4) {
        (Err(e), at + 10)
    } else {
        (
            Ok(
                XNBFileHeader {
                    target_platform: platform_of(data[at + 3])->Some_0,
                    format_version: 5,
                    flag_bits: XNBFlagBits::spec_of(data[at + 5]),
                    compressed_size: le_u32(data, at + 6) as u32,
                    decompressed_size: le_u32(data, at + 10) as u32,
                },
            ),
            at + 14,
        )
    }
}

impl XNBFileHeader {
    /// Reads the header of an XNB file.
    pub fn from_reader(reader: &mut Reader) -> (r: Result<Self, EnactError>)
        requires
            old(reader).wf(),
        ensures
            final(reader).wf(),
            final(reader).data() == old(reader).data(),
            r == parse_header(old(reader).data(), old(reader).cursor()).0,
            final(reader).cursor() == parse_header(old(reader).data(), old(reader).cursor()).1,
    {
        let magic = reader.bytes(3)?;
        if !(magic[0] == 0x58 && magic[1] == 0x4e && magic[2] == 0x42) {
            return Err(EnactError::BadMagic);
        }
        let byte = reader.u8()?;
        let target_platform = if byte == 0x77 {
            XNBTargetPlatform::Windows
        } else if byte == 0x6d {
            XNBTargetPlatform::WindowsPhone
        } else if byte == 0x78 {
            XNBTargetPlatform::Xbox
        } else {
            return Err(EnactError::BadTargetPlatform { byte });
        };
        let format_version = reader.u8()?;
        if format_version != 5 {
            return Err(EnactError::BadFormatVersion { version: format_version });
        }
        let flags = reader.u8()?;
        let flag_bits = match XNBFlagBits::from_bits(flags) {
            Some(f) => f,
            None => return Err(EnactError::BadFlagBits),
        };
        let compressed_size = reader.u32_le()?;
        let decompressed_size = reader.u32_le()?;
        Ok(Self { target_platform, format_version, flag_bits, compressed_size, decompressed_size })
    }
}

} // verus!

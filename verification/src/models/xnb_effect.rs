use crate::error::EnactError;
use crate::reader::{le_u32, take_error, Reader};
use vstd::prelude::*;

verus! {

/// A little-endian 32-bit byte count at offset `at` of `data` and that many
/// bytes after it, and the offset where reading stopped.
pub open spec fn parse_sized_bytes(data: Seq<u8>, at: int) -> (Result<(u32, Seq<u8>), EnactError>, int) {
    if let Some(e) = take_error(data, at, 4) {
        (Err(e), at)
    } else {
        let size = le_u32(data, at);
        if let Some(e) = take_error(data, at + 4, size) {
            (Err(e), at + 4)
        } else {
            (Ok((size as u32, data.subrange(at + 4, at + 4 + size))), at + 4 + size)
        }
    }
}

/// Reads a 32-bit byte count and that many bytes.
pub fn read_sized_bytes(reader: &mut Reader) -> (r: Result<(u32, Vec<u8>), EnactError>)
    requires
        old(reader).wf(),
    ensures
        final(reader).wf(),
        final(reader).data() == old(reader).data(),
        final(reader).cursor() == parse_sized_bytes(old(reader).data(), old(reader).cursor()).1,
        match parse_sized_bytes(old(reader).data(), old(reader).cursor()).0 {
            Ok((size, bytes)) => r matches Ok((s, v)) && s == size && v@ == bytes,
            Err(e) => r == Err::<(u32, Vec<u8>), EnactError>(e),
        },
{
    let size = reader.u32_le()?;
    let bytes = reader.bytes(size as usize)?;
    Ok((size, vstd::slice::slice_to_vec(bytes)))
}

/// A compiled effect: its size and bytecode.
pub struct XNBEffect {
    pub size: u32,
    pub bytecode: Vec<u8>,
}

impl XNBEffect {
    /// Reads an effect: its byte count, then its bytecode.
    pub fn from_reader(reader: &mut Reader) -> (r: Result<Self, EnactError>)
        requires
            old(reader).wf(),
        ensures
            final(reader).wf(),
            final(reader).data() == old(reader).data(),
            final(reader).cursor() == parse_sized_bytes(old(reader).data(), old(reader).cursor()).1,
            match parse_sized_bytes(old(reader).data(), old(reader).cursor()).0 {
                Ok((size, bytes)) => r matches Ok(fx) && fx.size == size && fx.bytecode@ == bytes,
                Err(e) => r is Err && r->Err_0 == e,
            },
    {
        let (size, bytecode) = read_sized_bytes(reader)?;
        Ok(Self { size, bytecode })
    }
}

} // verus!

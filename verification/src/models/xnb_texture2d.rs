use crate::error::EnactError;
use crate::models::surface_format::{surface_format_of, SurfaceFormat};
use crate::models::xnb_effect::{parse_sized_bytes, read_sized_bytes};
use crate::reader::{as_signed32, le_u32, take_error, Reader};
use vstd::prelude::*;

verus! {

/// One mip level of a texture: its byte count and pixel data.
pub struct XNBImageMIP {
    pub size: u32,
    pub data: Vec<u8>,
}

/// A mip level as values.
pub struct MipModel {
    pub size: u32,
    pub data: Seq<u8>,
}

impl View for XNBImageMIP {
    type V = MipModel;

    open spec fn view(&self) -> MipModel {
        MipModel { size: self.size, data: self.data@ }
    }
}

/// A texture as values.
pub struct TextureModel {
    pub surface_format: SurfaceFormat,
    pub width: u32,
    pub height: u32,
    pub mip_count: u32,
    pub mips: Seq<MipModel>,
}

/// A two-dimensional texture with its mip levels.
pub struct XNBTexture2D {
    pub surface_format: SurfaceFormat,
    pub width: u32,
    pub height: u32,
    pub mip_count: u32,
    pub mips: Vec<XNBImageMIP>,
}

impl View for XNBTexture2D {
    type V = TextureModel;

    open spec fn view(&self) -> TextureModel {
        TextureModel {
            surface_format: self.surface_format,
            width: self.width,
            height: self.height,
            mip_count: self.mip_count,
            mips: self.mips@.map_values(|m: XNBImageMIP| m@),
        }
    }
}

/// Reads `n` more mip levels at offset `at` after those in `acc`; the
/// outcome and the offset where reading stopped.
pub open spec fn parse_mips(data: Seq<u8>, at: int, n: int, acc: Seq<MipModel>) -> (Result<Seq<MipModel>, EnactError>, int)
    decreases n,
{
    if n <= 0 {
        (Ok(acc), at)
    } else {
        match parse_sized_bytes(data, at) {
            (Err(e), c) => (Err(e), c),
            (Ok((size, bytes)), c) => parse_mips(data, c, n - 1, acc.push(MipModel { size, data: bytes })),
        }
    }
}

/// The texture at offset `at`: a little-endian surface format number,
/// width, height and mip count, then the mip levels; the outcome and the
/// offset where reading stopped.
pub open spec fn parse_texture(data: Seq<u8>, at: int) -> (Result<TextureModel, EnactError>, int) {
    if let Some(e) = take_error(data, at, 4) {
        (Err(e), at)
    } else {
        match surface_format_of(as_signed32(le_u32(data, at)) as i32) {
            Err(e) => (Err(e), at + 4),
            Ok(f) => if let Some(e) = take_error(data, at + 4, 4) {
                (Err(e), at + 4)
            } else if let Some(e) = take_error(data, at + 8, 4) {
                (Err(e), at + 8)
            } else if let Some(e) = take_error(data, at + 12, 4) {
                (Err(e), at + 12)
            } else {
                let count = le_u32(data, at + 12);
                match parse_mips(data, at + 16, count, Seq::empty()) {
                    (Err(e), c) => (Err(e), c),
                    (Ok(mips), c) => (
                        Ok(
                            TextureModel {
                                surface_format: f,
                                width: le_u32(data, at + 4) as u32,
                                height: le_u32(data, at + 8) as u32,
                                mip_count: count as u32,
                                mips,
                            },
                        ),
                        c,
                    ),
                }
            },
        }
    }
}

impl XNBImageMIP {
    /// Reads a mip level: its byte count, then its data.
    pub fn from_reader(reader: &mut Reader) -> (r: Result<Self, EnactError>)
        requires
            old(reader).wf(),
        ensures
            final(reader).wf(),
            final(reader).data() == old(reader).data(),
            final(reader).cursor() == parse_sized_bytes(old(reader).data(), old(reader).cursor()).1,
            match parse_sized_bytes(old(reader).data(), old(reader).cursor()).0 {
                Ok((size, bytes)) => r matches Ok(mip) && mip@ == (MipModel { size, data: bytes }),
                Err(e) => r is Err && r->Err_0 == e,
            },
    {
        let (size, data) = read_sized_bytes(reader)?;
        Ok(Self { size, data })
    }
}

impl XNBTexture2D {
    /// Reads a texture: surface format, width, height, mip count, then the
    /// mip levels.
    pub fn from_reader(reader: &mut Reader) -> (r: Result<Self, EnactError>)
        requires
            old(reader).wf(),
        ensures
            final(reader).wf(),
            final(reader).data() == old(reader).data(),
            final(reader).cursor() == parse_texture(old(reader).data(), old(reader).cursor()).1,
            match parse_texture(old(reader).data(), old(reader).cursor()).0 {
                Ok(t) => r matches Ok(tex) && tex@ == t,
                Err(e) => r is Err && r->Err_0 == e,
            },
    {
        let ghost data = reader.data();
        let ghost at = reader.cursor();
        let code = reader.i32_le()?;
        let surface_format = match SurfaceFormat::from_i32(code) {
            Ok(f) => f,
            Err(e) => return Err(e),
        };
        proof {
            crate::models::surface_format::lemma_surface_format_round_trip(surface_format);
            let g = choose|g: SurfaceFormat| g.spec_code() == code;
        }
        let width = reader.u32_le()?;
        let height = reader.u32_le()?;
        let mip_count = reader.u32_le()?;
        let mut mips: Vec<XNBImageMIP> = Vec::new();
        assert(mips@.map_values(|m: XNBImageMIP| m@) =~= Seq::<MipModel>::empty());
        assert(parse_texture(data, at) == match parse_mips(data, at + 16, mip_count as int, Seq::empty()) {
            (Err(e), c) => (Err(e), c),
            (Ok(mips), c) => (Ok::<TextureModel, EnactError>(TextureModel { surface_format, width, height, mip_count, mips }), c),
        });
        let mut i: u32 = 0;
        while i < mip_count
            invariant
                reader.wf(),
                reader.data() == data,
                data == old(reader).data(),
                at == old(reader).cursor(),
                parse_texture(data, at) == match parse_mips(data, at + 16, mip_count as int, Seq::empty()) {
                    (Err(e), c) => (Err(e), c),
                    (Ok(mips), c) => (Ok::<TextureModel, EnactError>(TextureModel { surface_format, width, height, mip_count, mips }), c),
                },
                0 <= i <= mip_count,
                mip_count == le_u32(data, at + 12),
                parse_mips(data, reader.cursor(), mip_count - i, mips@.map_values(|m: XNBImageMIP| m@))
                    == parse_mips(data, at + 16, mip_count as int, Seq::empty()),
            decreases mip_count - i,
        {
            let mip = XNBImageMIP::from_reader(reader)?;
            let ghost before = mips@.map_values(|m: XNBImageMIP| m@);
            mips.push(mip);
            assert(mips@.map_values(|m: XNBImageMIP| m@) =~= before.push(mip@));
            i = i + 1;
        }
        Ok(Self { surface_format, width, height, mip_count, mips })
    }
}

} // verus!

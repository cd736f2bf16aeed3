use crate::error::EnactError;
use vstd::prelude::*;

verus! {

/// The pixel format of a texture.
#[derive(Debug, Clone, Copy, PartialEq, Eq, Structural)]
pub enum SurfaceFormat {
    Color,
    BGR565,
    BGRA5551,
    BGRA4444,
    DXT1,
    DXT3,
    DXT5,
    NormalizedByte2,
    NormalizedByte4,
    RGBA1010102,
    RG32,
    RGBA64,
    Alpha8,
    Single,
    Vector2,
    Vector4,
    HalfSingle,
    HalfVector2,
    HalfVector4,
    HDRBlendable,
}

impl SurfaceFormat {
    /// The number that stands for the format in XNB files.
    pub open spec fn spec_code(self) -> i32 {
        match self {
            SurfaceFormat::Color => 0,
            SurfaceFormat::BGR565 => 1,
            SurfaceFormat::BGRA5551 => 2,
            SurfaceFormat::BGRA4444 => 3,
            SurfaceFormat::DXT1 => 4,
            SurfaceFormat::DXT3 => 5,
            SurfaceFormat::DXT5 => 6,
            SurfaceFormat::NormalizedByte2 => 7,
            SurfaceFormat::NormalizedByte4 => 8,
            SurfaceFormat::RGBA1010102 => 9,
            SurfaceFormat::RG32 => 10,
            SurfaceFormat::RGBA64 => 11,
            SurfaceFormat::Alpha8 => 12,
            SurfaceFormat::Single => 13,
            SurfaceFormat::Vector2 => 14,
            SurfaceFormat::Vector4 => 15,
            SurfaceFormat::HalfSingle => 16,
            SurfaceFormat::HalfVector2 => 17,
            SurfaceFormat::HalfVector4 => 18,
            SurfaceFormat::HDRBlendable => 19,
        }
    }

    /// The number that stands for the format in XNB files.
    #[verifier::when_used_as_spec(spec_code)]
    pub fn code(self) -> (r: i32)
        ensures
            r == self.spec_code(),
    {
        match self {
            SurfaceFormat::Color => 0,
            SurfaceFormat::BGR565 => 1,
            SurfaceFormat::BGRA5551 => 2,
            SurfaceFormat::BGRA4444 => 3,
            SurfaceFormat::DXT1 => 4,
            SurfaceFormat::DXT3 => 5,
            SurfaceFormat::DXT5 => 6,
            SurfaceFormat::NormalizedByte2 => 7,
            SurfaceFormat::NormalizedByte4 => 8,
            SurfaceFormat::RGBA1010102 => 9,
            SurfaceFormat::RG32 => 10,
            SurfaceFormat::RGBA64 => 11,
            SurfaceFormat::Alpha8 => 12,
            SurfaceFormat::Single => 13,
            SurfaceFormat::Vector2 => 14,
            SurfaceFormat::Vector4 => 15,
            SurfaceFormat::HalfSingle => 16,
            SurfaceFormat::HalfVector2 => 17,
            SurfaceFormat::HalfVector4 => 18,
            SurfaceFormat::HDRBlendable => 19,
        }
    }

    /// The format with number `value`; numbers outside 0..=19 name none.
    pub fn from_i32(value: i32) -> (r: Result<SurfaceFormat, EnactError>)
        ensures
            r is Ok <==> 0 <= value <= 19,
            r matches Ok(f) ==> f.spec_code() == value,
            r matches Err(e) ==> e == EnactError::UnknownSurfaceFormat(value),
            r == surface_format_of(value),
    {
        proof {
            lemma_surface_format_numbers(value);
        }
        Ok(
            match value {
                0 => Self::Color,
                1 => Self::BGR565,
                2 => Self::BGRA5551,
                3 => Self::BGRA4444,
                4 => Self::DXT1,
                5 => Self::DXT3,
                6 => Self::DXT5,
                7 => Self::NormalizedByte2,
                8 => Self::NormalizedByte4,
                9 => Self::RGBA1010102,
                10 => Self::RG32,
                11 => Self::RGBA64,
                12 => Self::Alpha8,
                13 => Self::Single,
                14 => Self::Vector2,
                15 => Self::Vector4,
                16 => Self::HalfSingle,
                17 => Self::HalfVector2,
                18 => Self::HalfVector4,
                19 => Self::HDRBlendable,
                _ => return Err(EnactError::UnknownSurfaceFormat(value)),
            },
        )
    }
}

/// Reading a format back from its number gives the format.
pub proof fn lemma_surface_format_round_trip(f: SurfaceFormat)
    ensures
        0 <= f.spec_code() <= 19,
        forall|g: SurfaceFormat| g.spec_code() == f.spec_code() ==> g == f,
{
}

/// The format with number `value`, or the error for a number that names none.
pub open spec fn surface_format_of(value: i32) -> Result<SurfaceFormat, EnactError> {
    if 0 <= value <= 19 {
        Ok(choose|f: SurfaceFormat| f.spec_code() == value)
    } else {
        Err(EnactError::UnknownSurfaceFormat(value))
    }
}

/// The numbers of the surface formats, as the XNA enumeration fixes them:
/// Color 0, BGR565 1, BGRA5551 2, BGRA4444 3, DXT1 4, DXT3 5, DXT5 6,
/// NormalizedByte2 7, NormalizedByte4 8, RGBA1010102 9, RG32 10, RGBA64 11,
/// Alpha8 12, Single 13, Vector2 14, Vector4 15, HalfSingle 16,
/// HalfVector2 17, HalfVector4 18, HDRBlendable 19; no other number names
/// a format.
pub proof fn lemma_surface_format_numbers(v: i32)
    ensures
        surface_format_of(0) == Ok::<SurfaceFormat, EnactError>(SurfaceFormat::Color),
        surface_format_of(1) == Ok::<SurfaceFormat, EnactError>(SurfaceFormat::BGR565),
        surface_format_of(2) == Ok::<SurfaceFormat, EnactError>(SurfaceFormat::BGRA5551),
        surface_format_of(3) == Ok::<SurfaceFormat, EnactError>(SurfaceFormat::BGRA4444),
        surface_format_of(4) == Ok::<SurfaceFormat, EnactError>(SurfaceFormat::DXT1),
        surface_format_of(5) == Ok::<SurfaceFormat, EnactError>(SurfaceFormat::DXT3),
        surface_format_of(6) == Ok::<SurfaceFormat, EnactError>(SurfaceFormat::DXT5),
        surface_format_of(7) == Ok::<SurfaceFormat, EnactError>(SurfaceFormat::NormalizedByte2),
        surface_format_of(8) == Ok::<SurfaceFormat, EnactError>(SurfaceFormat::NormalizedByte4),
        surface_format_of(9) == Ok::<SurfaceFormat, EnactError>(SurfaceFormat::RGBA1010102),
        surface_format_of(10) == Ok::<SurfaceFormat, EnactError>(SurfaceFormat::RG32),
        surface_format_of(11) == Ok::<SurfaceFormat, EnactError>(SurfaceFormat::RGBA64),
        surface_format_of(12) == Ok::<SurfaceFormat, EnactError>(SurfaceFormat::Alpha8),
        surface_format_of(13) == Ok::<SurfaceFormat, EnactError>(SurfaceFormat::Single),
        surface_format_of(14) == Ok::<SurfaceFormat, EnactError>(SurfaceFormat::Vector2),
        surface_format_of(15) == Ok::<SurfaceFormat, EnactError>(SurfaceFormat::Vector4),
        surface_format_of(16) == Ok::<SurfaceFormat, EnactError>(SurfaceFormat::HalfSingle),
        surface_format_of(17) == Ok::<SurfaceFormat, EnactError>(SurfaceFormat::HalfVector2),
        surface_format_of(18) == Ok::<SurfaceFormat, EnactError>(SurfaceFormat::HalfVector4),
        surface_format_of(19) == Ok::<SurfaceFormat, EnactError>(SurfaceFormat::HDRBlendable),
        !(0 <= v <= 19) ==> surface_format_of(v) == Err::<SurfaceFormat, EnactError>(EnactError::UnknownSurfaceFormat(v)),
{
    lemma_surface_format_round_trip(SurfaceFormat::Color);
    assert(SurfaceFormat::Color.spec_code() == 0);
    lemma_surface_format_round_trip(SurfaceFormat::BGR565);
    assert(SurfaceFormat::BGR565.spec_code() == 1);
    lemma_surface_format_round_trip(SurfaceFormat::BGRA5551);
    assert(SurfaceFormat::BGRA5551.spec_code() == 2);
    lemma_surface_format_round_trip(SurfaceFormat::BGRA4444);
    assert(SurfaceFormat::BGRA4444.spec_code() == 3);
    lemma_surface_format_round_trip(SurfaceFormat::DXT1);
    assert(SurfaceFormat::DXT1.spec_code() == 4);
    lemma_surface_format_round_trip(SurfaceFormat::DXT3);
    assert(SurfaceFormat::DXT3.spec_code() == 5);
    lemma_surface_format_round_trip(SurfaceFormat::DXT5);
    assert(SurfaceFormat::DXT5.spec_code() == 6);
    lemma_surface_format_round_trip(SurfaceFormat::NormalizedByte2);
    assert(SurfaceFormat::NormalizedByte2.spec_code() == 7);
    lemma_surface_format_round_trip(SurfaceFormat::NormalizedByte4);
    assert(SurfaceFormat::NormalizedByte4.spec_code() == 8);
    lemma_surface_format_round_trip(SurfaceFormat::RGBA1010102);
    assert(SurfaceFormat::RGBA1010102.spec_code() == 9);
    lemma_surface_format_round_trip(SurfaceFormat::RG32);
    assert(SurfaceFormat::RG32.spec_code() == 10);
    lemma_surface_format_round_trip(SurfaceFormat::RGBA64);
    assert(SurfaceFormat::RGBA64.spec_code() == 11);
    lemma_surface_format_round_trip(SurfaceFormat::Alpha8);
    assert(SurfaceFormat::Alpha8.spec_code() == 12);
    lemma_surface_format_round_trip(SurfaceFormat::Single);
    assert(SurfaceFormat::Single.spec_code() == 13);
    lemma_surface_format_round_trip(SurfaceFormat::Vector2);
    assert(SurfaceFormat::Vector2.spec_code() == 14);
    lemma_surface_format_round_trip(SurfaceFormat::Vector4);
    assert(SurfaceFormat::Vector4.spec_code() == 15);
    lemma_surface_format_round_trip(SurfaceFormat::HalfSingle);
    assert(SurfaceFormat::HalfSingle.spec_code() == 16);
    lemma_surface_format_round_trip(SurfaceFormat::HalfVector2);
    assert(SurfaceFormat::HalfVector2.spec_code() == 17);
    lemma_surface_format_round_trip(SurfaceFormat::HalfVector4);
    assert(SurfaceFormat::HalfVector4.spec_code() == 18);
    lemma_surface_format_round_trip(SurfaceFormat::HDRBlendable);
    assert(SurfaceFormat::HDRBlendable.spec_code() == 19);
}

impl TryFrom<i32> for SurfaceFormat {
    type Error = EnactError;

    fn try_from(value: i32) -> (r: Result<Self, Self::Error>)
        ensures
            r == surface_format_of(value),
    {
        let r = Self::from_i32(value);
        proof {
            if let Ok(f) = r {
                let g = choose|g: SurfaceFormat| g.spec_code() == value;
                lemma_surface_format_round_trip(f);
            }
        }
        r
    }
}

impl vstd::std_specs::convert::TryFromSpecImpl<i32> for SurfaceFormat {
    open spec fn obeys_try_from_spec() -> bool {
        true
    }

    open spec fn try_from_spec(v: i32) -> Result<Self, EnactError> {
        surface_format_of(v)
    }
}

} // verus!

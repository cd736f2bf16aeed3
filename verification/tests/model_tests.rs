use enact_parser::error::EnactError;
use enact_parser::models::surface_format::SurfaceFormat;
use enact_parser::models::type_reader::{TypeReader, TypeReaders};
use enact_parser::models::xnb_effect::XNBEffect;
use enact_parser::models::xnb_file_header::{XNBFileHeader, XNBFlagBits, XNBTargetPlatform};
use enact_parser::models::xnb_texture2d::{XNBImageMIP, XNBTexture2D};
use enact_parser::reader::Reader;
use std::convert::TryFrom;
use std::str::FromStr;

fn header_bytes(platform: u8, version: u8, flags: u8) -> Vec<u8> {
    let mut v = b"XNB".to_vec();
    v.push(platform);
    v.push(version);
    v.push(flags);
    v.extend_from_slice(&100u32.to_le_bytes());
    v.extend_from_slice(&0x0102_0304u32.to_le_bytes());
    v
}

#[test]
fn header_is_read() {
    let buf = header_bytes(b'w', 5, 0x81);
    let mut r = Reader::new(&buf);
    let h = XNBFileHeader::from_reader(&mut r).unwrap();
    assert_eq!(h.target_platform, XNBTargetPlatform::Windows);
    assert_eq!(h.format_version, 5);
    assert_eq!(h.flag_bits.bits(), 0x81);
    assert!(h.flag_bits.contains(XNBFlagBits::HIDEF));
    assert!(h.flag_bits.contains(XNBFlagBits::COMPRESSED));
    assert_eq!(h.compressed_size, 100);
    assert_eq!(h.decompressed_size, 0x0102_0304);
    assert_eq!(r.pos(), 14);
}

#[test]
fn header_platforms() {
    for (b, p) in [(b'm', XNBTargetPlatform::WindowsPhone), (b'x', XNBTargetPlatform::Xbox)] {
        let buf = header_bytes(b, 5, 0);
        let mut r = Reader::new(&buf);
        assert_eq!(XNBFileHeader::from_reader(&mut r).unwrap().target_platform, p);
    }
}

#[test]
fn header_errors() {
    let mut buf = header_bytes(b'w', 5, 0);
    buf[0] = b'Y';
    assert_eq!(XNBFileHeader::from_reader(&mut Reader::new(&buf)), Err(EnactError::BadMagic));
    let buf = header_bytes(b'q', 5, 0);
    assert_eq!(XNBFileHeader::from_reader(&mut Reader::new(&buf)), Err(EnactError::BadTargetPlatform { byte: b'q' }));
    let buf = header_bytes(b'w', 4, 0);
    assert_eq!(XNBFileHeader::from_reader(&mut Reader::new(&buf)), Err(EnactError::BadFormatVersion { version: 4 }));
    let buf = header_bytes(b'w', 5, 0x02);
    assert_eq!(XNBFileHeader::from_reader(&mut Reader::new(&buf)), Err(EnactError::BadFlagBits));
    let buf = header_bytes(b'w', 5, 0);
    assert_eq!(XNBFileHeader::from_reader(&mut Reader::new(&buf[..12])), Err(EnactError::Eof { at: 10, want: 4 }));
    assert_eq!(XNBFileHeader::from_reader(&mut Reader::new(&buf[..2])), Err(EnactError::Eof { at: 0, want: 3 }));
}

#[test]
fn flag_bits_accept_only_known_bits() {
    assert_eq!(XNBFlagBits::from_bits(0).map(|f| f.bits()), Some(0));
    assert_eq!(XNBFlagBits::from_bits(0x80).map(|f| f.bits()), Some(0x80));
    assert!(XNBFlagBits::from_bits(0x40).is_none());
    assert!(XNBFlagBits::from_bits(0xFF).is_none());
    let f = XNBFlagBits::from_bits(1).unwrap();
    assert!(!f.contains(XNBFlagBits::COMPRESSED));
}

#[test]
fn surface_formats_round_trip() {
    for v in 0..20 {
        let f = SurfaceFormat::from_i32(v).unwrap();
        assert_eq!(f.code(), v);
        assert_eq!(SurfaceFormat::try_from(v), Ok(f));
    }
    assert_eq!(SurfaceFormat::from_i32(4), Ok(SurfaceFormat::DXT1));
    assert_eq!(SurfaceFormat::from_i32(20), Err(EnactError::UnknownSurfaceFormat(20)));
    assert_eq!(SurfaceFormat::try_from(-1), Err(EnactError::UnknownSurfaceFormat(-1)));
}

#[test]
fn type_readers_by_name() {
    assert_eq!(TypeReader::from_str("Microsoft.Xna.Framework.Content.Texture2DReader"), Ok(TypeReader::Texture2D));
    assert_eq!(TypeReader::from_str("Microsoft.Xna.Framework.Content.EffectReader"), Ok(TypeReader::Effect));
    assert_eq!(
        TypeReader::from_str("Other"),
        Err(EnactError::UnknownTypeReader("Other".to_string()))
    );
    assert_eq!(TypeReaders::from_str("Microsoft.Xna.Framework.Content.Texture2DReader"), Ok(TypeReaders::Texture2D));
    assert_eq!(
        TypeReaders::from_str("Microsoft.Xna.Framework.Content.EffectReader"),
        Err(EnactError::UnknownTypeReader("Microsoft.Xna.Framework.Content.EffectReader".to_string()))
    );
}

#[test]
fn mip_and_effect_read_sized_bytes() {
    let buf = [3u8, 0, 0, 0, 9, 8, 7, 6];
    let mut r = Reader::new(&buf);
    let mip = XNBImageMIP::from_reader(&mut r).unwrap();
    assert_eq!(mip.size, 3);
    assert_eq!(mip.data, vec![9, 8, 7]);
    assert_eq!(r.pos(), 7);
    let mut r = Reader::new(&buf);
    let fx = XNBEffect::from_reader(&mut r).unwrap();
    assert_eq!(fx.size, 3);
    assert_eq!(fx.bytecode, vec![9, 8, 7]);
    let short = [5u8, 0, 0, 0, 1];
    assert!(matches!(XNBEffect::from_reader(&mut Reader::new(&short)), Err(EnactError::Eof { at: 4, want: 5 })));
}

fn texture_bytes(format: i32, mips: &[&[u8]]) -> Vec<u8> {
    let mut v = Vec::new();
    v.extend_from_slice(&format.to_le_bytes());
    v.extend_from_slice(&2u32.to_le_bytes());
    v.extend_from_slice(&1u32.to_le_bytes());
    v.extend_from_slice(&(mips.len() as u32).to_le_bytes());
    for m in mips {
        v.extend_from_slice(&(m.len() as u32).to_le_bytes());
        v.extend_from_slice(m);
    }
    v
}

#[test]
fn texture_is_read() {
    let buf = texture_bytes(6, &[&[1, 2, 3, 4], &[5]]);
    let mut r = Reader::new(&buf);
    let t = XNBTexture2D::from_reader(&mut r).unwrap();
    assert_eq!(t.surface_format, SurfaceFormat::DXT5);
    assert_eq!(t.width, 2);
    assert_eq!(t.height, 1);
    assert_eq!(t.mip_count, 2);
    assert_eq!(t.mips.len(), 2);
    assert_eq!(t.mips[0].data, vec![1, 2, 3, 4]);
    assert_eq!(t.mips[1].size, 1);
    assert_eq!(r.pos(), buf.len());
}

#[test]
fn texture_errors() {
    let buf = texture_bytes(25, &[]);
    assert!(matches!(XNBTexture2D::from_reader(&mut Reader::new(&buf)), Err(EnactError::UnknownSurfaceFormat(25))));
    let mut buf = texture_bytes(0, &[&[1, 2]]);
    buf.pop();
    assert!(matches!(XNBTexture2D::from_reader(&mut Reader::new(&buf)), Err(EnactError::Eof { at: 20, want: 2 })));
}

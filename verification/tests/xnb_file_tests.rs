use enact_parser::error::EnactError;
use enact_parser::models::surface_format::SurfaceFormat;
use enact_parser::models::xnb_file::XNBFile;
use enact_parser::models::xnb_file_header::{XNBFileHeader, XNBFlagBits, XNBTargetPlatform};
use enact_parser::reader::Reader;

/// Packs bits, most significant first, into 16-bit little-endian words.
struct Bits {
    bits: Vec<bool>,
}

impl Bits {
    fn put(&mut self, v: u32, n: u32) {
        for i in (0..n).rev() {
            self.bits.push((v >> i) & 1 == 1);
        }
    }

    fn bytes(&self) -> Vec<u8> {
        let mut bits = self.bits.clone();
        while bits.len() % 16 != 0 {
            bits.push(false);
        }
        let mut out = Vec::new();
        for chunk in bits.chunks(16) {
            let mut w: u16 = 0;
            for &b in chunk {
                w = (w << 1) | (b as u16);
            }
            out.push((w & 0xFF) as u8);
            out.push((w >> 8) as u8);
        }
        out
    }

    fn pretree(&mut self) {
        for s in 0..20 {
            let l = if s == 0 || s == 16 || s == 17 || s == 18 { 2 } else { 0 };
            self.put(l, 4);
        }
    }

    fn zeros(&mut self, mut n: u32) {
        while n > 0 {
            if n >= 20 {
                let k = n.min(51);
                self.put(0b11, 2);
                self.put(k - 20, 5);
                n -= k;
            } else if n >= 4 {
                let k = n.min(19);
                self.put(0b10, 2);
                self.put(k - 4, 4);
                n -= k;
            } else {
                self.put(0b00, 2);
                n -= 1;
            }
        }
    }
}

/// The stream of one frame with literal 'A' (code 0) and 'B' (code 1).
fn ab_stream(text: &[u8]) -> Vec<u8> {
    let mut b = Bits { bits: Vec::new() };
    b.put(0, 1);
    b.put(1, 3);
    b.put(0, 8);
    b.put(text.len() as u32, 16);
    b.pretree();
    b.zeros(65);
    b.put(0b01, 2);
    b.put(0b01, 2);
    b.zeros(189);
    b.pretree();
    b.zeros(256);
    b.pretree();
    b.zeros(249);
    for &c in text {
        b.put(if c == b'A' { 0 } else { 1 }, 1);
    }
    b.bytes()
}

fn file_bytes(text: &[u8], long_chunk_header: bool) -> Vec<u8> {
    let chunk = ab_stream(text);
    let mut v = b"XNBw\x05\x80".to_vec();
    v.extend_from_slice(&0u32.to_le_bytes());
    v.extend_from_slice(&(text.len() as u32).to_le_bytes());
    if long_chunk_header {
        v.push(0xFF);
        v.extend_from_slice(&(text.len() as u16).to_be_bytes());
        v.extend_from_slice(&(chunk.len() as u16).to_be_bytes());
    } else {
        v.extend_from_slice(&(chunk.len() as u16).to_be_bytes());
    }
    v.extend_from_slice(&chunk);
    v
}

#[test]
fn file_is_decompressed() {
    let buf = file_bytes(b"ABBA", false);
    let mut r = Reader::new(&buf);
    let f = XNBFile::from_reader(&mut r).unwrap();
    assert_eq!(f.header.decompressed_size, 4);
    assert_eq!(f.header.target_platform, XNBTargetPlatform::Windows);
    assert_eq!(f.data, b"ABBA".to_vec());
    assert_eq!(r.pos(), buf.len());
}

#[test]
fn file_with_frame_size_header() {
    let buf = file_bytes(b"BAB", true);
    let mut r = Reader::new(&buf);
    let f = XNBFile::from_reader(&mut r).unwrap();
    assert_eq!(f.data, b"BAB".to_vec());
}

#[test]
fn empty_content_needs_no_chunk() {
    let mut buf = b"XNBx\x05\x00".to_vec();
    buf.extend_from_slice(&[0; 8]);
    let f = XNBFile::from_reader(&mut Reader::new(&buf)).unwrap();
    assert!(f.data.is_empty());
}

#[test]
fn truncated_chunk_is_eof() {
    let mut buf = file_bytes(b"AB", false);
    buf.truncate(buf.len() - 1);
    let n = buf.len();
    match XNBFile::from_reader(&mut Reader::new(&buf)) {
        Err(EnactError::Eof { at, want }) => {
            assert_eq!(at, 16);
            assert_eq!(at + want, n + 1);
        },
        _ => panic!("expected Eof"),
    }
}

#[test]
fn bad_header_stops_reading() {
    let mut buf = file_bytes(b"AB", false);
    buf[4] = 4;
    assert!(matches!(XNBFile::from_reader(&mut Reader::new(&buf)), Err(EnactError::BadFormatVersion { version: 4 })));
}

fn header() -> XNBFileHeader {
    XNBFileHeader {
        target_platform: XNBTargetPlatform::Windows,
        format_version: 5,
        flag_bits: XNBFlagBits::from_bits(0).unwrap(),
        compressed_size: 0,
        decompressed_size: 0,
    }
}

fn content(primary: u8, format: i32) -> Vec<u8> {
    let name = b"Microsoft.Xna.Framework.Content.Texture2DReader";
    let mut v = vec![1u8, name.len() as u8];
    v.extend_from_slice(name);
    v.extend_from_slice(&0u32.to_le_bytes());
    v.push(0);
    v.push(primary);
    v.extend_from_slice(&format.to_le_bytes());
    v.extend_from_slice(&4u32.to_le_bytes());
    v.extend_from_slice(&4u32.to_le_bytes());
    v.extend_from_slice(&1u32.to_le_bytes());
    v.extend_from_slice(&2u32.to_le_bytes());
    v.extend_from_slice(&[0xAB, 0xCD]);
    v
}

#[test]
fn texture_asset_is_read() {
    let f = XNBFile { header: header(), data: content(1, 0) };
    let t = f.read_texture().unwrap();
    assert_eq!(t.surface_format, SurfaceFormat::Color);
    assert_eq!(t.width, 4);
    assert_eq!(t.mips.len(), 1);
    assert_eq!(t.mips[0].data, vec![0xAB, 0xCD]);
}

#[test]
fn unlisted_primary_asset_has_no_type_reader() {
    let f = XNBFile { header: header(), data: content(2, 0) };
    assert!(matches!(f.read_texture(), Err(EnactError::NoTypeReader)));
    let f = XNBFile { header: header(), data: content(0, 0) };
    assert!(matches!(f.read_texture(), Err(EnactError::NoTypeReader)));
}

#[test]
fn texture_asset_errors_come_through() {
    let f = XNBFile { header: header(), data: content(1, 99) };
    assert!(matches!(f.read_texture(), Err(EnactError::UnknownSurfaceFormat(99))));
    let f = XNBFile { header: header(), data: vec![3, 0] };
    assert!(matches!(f.read_texture(), Err(EnactError::Eof { at: 2, want: 4 })));
}

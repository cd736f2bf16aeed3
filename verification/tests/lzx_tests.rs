use enact_parser::bit_reader::BitReader;
use enact_parser::decoder::LZXDecoder;
use enact_parser::error::EnactError;
use enact_parser::reader::Reader;
use enact_parser::tree::Tree;

/// Packs bits, most significant first, into 16-bit little-endian words.
struct Bits {
    bits: Vec<bool>,
}

impl Bits {
    fn new() -> Self {
        Bits { bits: Vec::new() }
    }

    fn put(&mut self, v: u32, n: u32) {
        for i in (0..n).rev() {
            self.bits.push((v >> i) & 1 == 1);
        }
    }

    fn bytes(&self) -> Vec<u8> {
        let mut bits = self.bits.clone();
        while bits.len() % 16 != 0 {
            bits.push(false);
        }
        let mut out = Vec::new();
        for chunk in bits.chunks(16) {
            let mut w: u16 = 0;
            for &b in chunk {
                w = (w << 1) | (b as u16);
            }
            out.push((w & 0xFF) as u8);
            out.push((w >> 8) as u8);
        }
        out
    }

    /// A pretree in which symbols 0, 16, 17 and 18 have 2-bit codes
    /// 00, 01, 10 and 11.
    fn pretree(&mut self) {
        for s in 0..20 {
            let l = if s == 0 || s == 16 || s == 17 || s == 18 { 2 } else { 0 };
            self.put(l, 4);
        }
    }

    /// Lengths stay 0 for `n` entries whose length was 0.
    fn zeros(&mut self, mut n: u32) {
        while n > 0 {
            if n >= 20 {
                let k = n.min(51);
                self.put(0b11, 2);
                self.put(k - 20, 5);
                n -= k;
            } else if n >= 4 {
                let k = n.min(19);
                self.put(0b10, 2);
                self.put(k - 4, 4);
                n -= k;
            } else {
                self.put(0b00, 2);
                n -= 1;
            }
        }
    }

    /// The length of one entry goes from 0 to 1.
    fn one(&mut self) {
        self.put(0b01, 2);
    }

    /// A verbatim block header of the given length whose main tree gives
    /// 1-bit codes to `a` and `b` (a < b), and an empty length tree.
    fn verbatim_block(&mut self, length: u32, a: u32, b: u32) {
        self.put(1, 3);
        self.put(length >> 16, 8);
        self.put(length & 0xFFFF, 16);
        // main tree, first 256 entries
        self.pretree();
        let mut at = 0;
        for s in [a, b] {
            if s < 256 {
                self.zeros(s - at);
                self.one();
                at = s + 1;
            }
        }
        self.zeros(256 - at);
        // main tree, the other 256 entries of a 64 KiB window
        self.pretree();
        let mut at = 256;
        for s in [a, b] {
            if s >= 256 {
                self.zeros(s - at);
                self.one();
                at = s + 1;
            }
        }
        self.zeros(512 - at);
        // length tree
        self.pretree();
        self.zeros(249);
    }
}

#[test]
fn canonical_codes_follow_the_lengths() {
    let t = Tree::from_lengths(&[3, 3, 3, 3, 3, 2, 4, 4]);
    assert_eq!(t.lens, vec![3, 3, 3, 3, 3, 2, 4, 4]);
    assert_eq!(t.codes, vec![2, 3, 4, 5, 6, 0, 14, 15]);
}

#[test]
fn symbols_without_length_get_no_code() {
    let t = Tree::from_lengths(&[0, 1, 0, 2, 2]);
    assert_eq!(t.codes, vec![0, 0, 0, 2, 3]);
}

#[test]
fn decode_finds_the_symbol_of_a_code() {
    let t = Tree::from_lengths(&[3, 3, 3, 3, 3, 2, 4, 4]);
    let mut b = Bits::new();
    b.put(0b1110, 4);
    b.put(0b00, 2);
    b.put(0b011, 3);
    let bytes = b.bytes();
    let mut br = BitReader::new(Reader::new(&bytes));
    assert_eq!(t.decode(&mut br), Ok(6));
    assert_eq!(t.decode(&mut br), Ok(5));
    assert_eq!(t.decode(&mut br), Ok(1));
    assert_eq!(br.bits(7), Ok(0));
}

#[test]
fn decode_without_codes_is_corrupted() {
    let t = Tree::from_lengths(&[0, 0, 0]);
    let bytes = [0xFFu8, 0xFF, 0x34, 0x12];
    let mut br = BitReader::new(Reader::new(&bytes));
    assert_eq!(t.decode(&mut br), Err(EnactError::CorruptedStream));
    assert_eq!(br.bits(16), Ok(0x1234));
}

#[test]
fn read_lengths_applies_deltas_and_runs() {
    let mut b = Bits::new();
    b.pretree();
    b.zeros(3);
    b.one();
    b.put(0b10, 2);
    b.put(1, 4); // five zeros
    b.one();
    let bytes = b.bytes();
    let mut br = BitReader::new(Reader::new(&bytes));
    let mut target = vec![0u8; 10 + 50];
    target[2] = 5;
    assert_eq!(Tree::read_lengths(&mut br, &mut target, 0, 10), Ok(()));
    // entry 2 keeps its 5 through the zero delta
    assert_eq!(&target[..10], &[0, 0, 5, 1, 0, 0, 0, 0, 0, 1]);
}

#[test]
fn read_lengths_without_pretree_codes_is_corrupted() {
    let bytes = [0u8; 12];
    let mut br = BitReader::new(Reader::new(&bytes));
    let mut target = vec![0u8; 60];
    assert_eq!(Tree::read_lengths(&mut br, &mut target, 0, 4), Err(EnactError::CorruptedStream));
}

#[test]
fn new_decoder_checks_window_size() {
    assert!(matches!(LZXDecoder::new(14, 10), Err(EnactError::InvalidWindowSize { size: 14 })));
    assert!(matches!(LZXDecoder::new(22, 10), Err(EnactError::InvalidWindowSize { size: 22 })));
    let d = LZXDecoder::new(21, 4).unwrap();
    assert_eq!(d.pos(), 0);
    assert_eq!(d.into_output(), vec![0xDC; 4]);
}

#[test]
fn decodes_literals() {
    let mut b = Bits::new();
    b.put(0, 1);
    b.verbatim_block(3, 65, 66);
    b.put(0, 1);
    b.put(1, 1);
    b.put(0, 1);
    let bytes = b.bytes();
    let mut br = BitReader::new(Reader::new(&bytes));
    let mut d = LZXDecoder::new(16, 3).unwrap();
    assert_eq!(d.decode_frame(&mut br, 3), Ok(()));
    assert_eq!(d.pos(), 3);
    assert_eq!(d.into_output(), b"ABA".to_vec());
}

#[test]
fn decodes_a_match_with_the_recent_offset() {
    let mut b = Bits::new();
    b.put(0, 1);
    b.verbatim_block(4, 65, 256);
    b.put(0, 1); // 'A'
    b.put(1, 1); // match: length 2, offset 1
    b.put(0, 1); // 'A'
    let bytes = b.bytes();
    let mut br = BitReader::new(Reader::new(&bytes));
    let mut d = LZXDecoder::new(16, 4).unwrap();
    assert_eq!(d.decode_frame(&mut br, 4), Ok(()));
    assert_eq!(d.into_output(), b"AAAA".to_vec());
}

#[test]
fn frames_continue_a_block() {
    let mut b1 = Bits::new();
    b1.put(0, 1);
    b1.verbatim_block(4, 65, 66);
    b1.put(0, 1);
    b1.put(1, 1);
    let bytes1 = b1.bytes();
    let mut b2 = Bits::new();
    b2.put(1, 1);
    b2.put(0, 1);
    let bytes2 = b2.bytes();
    let mut d = LZXDecoder::new(16, 4).unwrap();
    let mut br = BitReader::new(Reader::new(&bytes1));
    assert_eq!(d.decode_frame(&mut br, 2), Ok(()));
    let mut br = BitReader::new(Reader::new(&bytes2));
    assert_eq!(d.decode_frame(&mut br, 2), Ok(()));
    assert_eq!(d.into_output(), b"ABBA".to_vec());
}

#[test]
fn e8_header_is_read_once() {
    let mut b = Bits::new();
    b.put(1, 1);
    b.put(0x1234, 16);
    b.put(0x5678, 16);
    b.verbatim_block(1, 66, 67);
    b.put(0, 1);
    let bytes = b.bytes();
    let mut br = BitReader::new(Reader::new(&bytes));
    let mut d = LZXDecoder::new(16, 1).unwrap();
    assert_eq!(d.decode_frame(&mut br, 1), Ok(()));
    assert_eq!(d.into_output(), b"B".to_vec());
}

#[test]
fn bad_block_type_is_reported() {
    let mut b = Bits::new();
    b.put(0, 1);
    b.put(0, 3);
    let bytes = b.bytes();
    let mut br = BitReader::new(Reader::new(&bytes));
    let mut d = LZXDecoder::new(16, 1).unwrap();
    assert_eq!(d.decode_frame(&mut br, 1), Err(EnactError::BadLZXBlockType { t: 0 }));
}

#[test]
fn uncompressed_blocks_are_not_implemented() {
    let mut b = Bits::new();
    b.put(0, 1);
    b.put(3, 3);
    b.put(0, 8);
    b.put(1, 16);
    let bytes = b.bytes();
    let mut br = BitReader::new(Reader::new(&bytes));
    let mut d = LZXDecoder::new(16, 1).unwrap();
    assert_eq!(d.decode_frame(&mut br, 1), Err(EnactError::NotImplemented));
}

#[test]
fn match_before_the_start_is_corrupted() {
    let mut b = Bits::new();
    b.put(0, 1);
    b.verbatim_block(2, 65, 256);
    b.put(1, 1); // a match at position 0
    let bytes = b.bytes();
    let mut br = BitReader::new(Reader::new(&bytes));
    let mut d = LZXDecoder::new(16, 2).unwrap();
    assert_eq!(d.decode_frame(&mut br, 2), Err(EnactError::CorruptedStream));
}

#[test]
fn empty_stream_is_a_bad_block_type() {
    let bytes: [u8; 0] = [];
    let mut br = BitReader::new(Reader::new(&bytes));
    let mut d = LZXDecoder::new(16, 1).unwrap();
    assert_eq!(d.decode_frame(&mut br, 1), Err(EnactError::BadLZXBlockType { t: 0 }));
}

#[test]
fn read_lengths_fills_a_table_without_room_to_spare() {
    let mut b = Bits::new();
    b.pretree();
    b.one();
    b.zeros(2);
    b.one();
    let bytes = b.bytes();
    let mut br = BitReader::new(Reader::new(&bytes));
    let mut target = vec![0u8; 4];
    assert_eq!(Tree::read_lengths(&mut br, &mut target, 0, 4), Ok(()));
    assert_eq!(target, vec![1, 0, 0, 1]);
}

#[test]
fn read_lengths_of_no_entries_reads_only_the_pretree() {
    let mut b = Bits::new();
    b.pretree();
    b.put(0xABC, 12);
    let bytes = b.bytes();
    let mut br = BitReader::new(Reader::new(&bytes));
    let mut target: Vec<u8> = Vec::new();
    assert_eq!(Tree::read_lengths(&mut br, &mut target, 7, 7), Ok(()));
    assert_eq!(br.bits(12), Ok(0xABC));
}

#[test]
fn a_match_past_the_window_is_corrupted() {
    let mut b = Bits::new();
    b.put(0, 1);
    b.verbatim_block(8, 65, 256);
    b.put(0, 1); // 'A'
    b.put(1, 1); // match of length 2: the window holds only 2 bytes
    let bytes = b.bytes();
    let mut br = BitReader::new(Reader::new(&bytes));
    let mut d = LZXDecoder::new(16, 2).unwrap();
    assert_eq!(d.decode_frame(&mut br, 8), Err(EnactError::CorruptedStream));
    // the literal before the match stays decoded
    assert_eq!(d.pos(), 1);
    assert_eq!(d.into_output(), vec![65, 0xDC]);
}

#[test]
fn read_lengths_keeps_the_entries_before_an_error() {
    let mut b = Bits::new();
    // a pretree in which only symbols 0 and 16 have codes, 00 and 01
    for s in 0..20 {
        b.put(if s == 0 || s == 16 { 2 } else { 0 }, 4);
    }
    b.put(0b01, 2); // entry 0: 0 - 16 mod 17 = 1
    b.put(0xFFFF, 16); // no code
    b.put(0b101, 3);
    let bytes = b.bytes();
    let mut br = BitReader::new(Reader::new(&bytes));
    let mut target = vec![0u8; 60];
    assert_eq!(Tree::read_lengths(&mut br, &mut target, 0, 4), Err(EnactError::CorruptedStream));
    assert_eq!(&target[..4], &[1, 0, 0, 0]);
    // the 16 bits that held no code are consumed
    assert_eq!(br.bits(3), Ok(0b101));
}

#[test]
fn a_frame_past_the_window_reports_a_bad_block() {
    let bytes: [u8; 0] = [];
    let mut br = BitReader::new(Reader::new(&bytes));
    let mut d = LZXDecoder::new(16, 1).unwrap();
    assert_eq!(d.decode_frame(&mut br, 5), Err(EnactError::BadLZXBlockType { t: 0 }));
}

#[test]
fn long_codes_follow_the_short_ones() {
    // one 1-bit code, 0; the 16-bit codes start past it, at 1 << 15
    let mut lens = vec![1u8];
    lens.extend(std::iter::repeat(16u8).take(3));
    let t = Tree::from_lengths(&lens);
    assert_eq!(t.codes, vec![0, 0x8000, 0x8001, 0x8002]);
}

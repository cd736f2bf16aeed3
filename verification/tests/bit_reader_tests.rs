use enact_parser::bit_reader::BitReader;
use enact_parser::reader::Reader;

#[test]
fn words_are_little_endian_and_read_msb_first() {
    // word 0x8421 then 0xF00F
    let buf = [0x21u8, 0x84, 0x0F, 0xF0];
    let mut br = BitReader::new(Reader::new(&buf));
    assert_eq!(br.bits(1), Ok(1));
    assert_eq!(br.bits(4), Ok(0b0000));
    assert_eq!(br.bits(4), Ok(0b1000));
    assert_eq!(br.bits(7), Ok(0b0100001));
    assert_eq!(br.bits(16), Ok(0xF00F));
}

#[test]
fn bits_split_like_one_read() {
    let buf = [0x5Au8, 0xC3, 0x96, 0x69];
    let mut a = BitReader::new(Reader::new(&buf));
    let mut b = BitReader::new(Reader::new(&buf));
    let whole = a.bits(17).unwrap();
    let hi = b.bits(5).unwrap();
    let lo = b.bits(12).unwrap();
    assert_eq!(whole, (hi << 12) | lo);
}

#[test]
fn peek_does_not_consume() {
    let buf = [0x00u8, 0xA0];
    let mut br = BitReader::new(Reader::new(&buf));
    assert_eq!(br.peek(3), Ok(0b101));
    assert_eq!(br.peek(3), Ok(0b101));
    br.consume(2);
    assert_eq!(br.bits(2), Ok(0b10));
    assert_eq!(br.peek(0), Ok(0));
}

#[test]
fn reads_zeros_past_the_end() {
    // one whole word and one odd byte, which is never read
    let buf = [0xFFu8, 0xFF, 0xFF];
    let mut br = BitReader::new(Reader::new(&buf));
    assert_eq!(br.bits(16), Ok(0xFFFF));
    assert_eq!(br.bits(17), Ok(0));
    assert_eq!(br.bits(8), Ok(0));
}

#[test]
fn align_discards_to_the_next_word() {
    let buf = [0xFFu8, 0x00, 0x34, 0x12];
    let mut br = BitReader::new(Reader::new(&buf));
    assert_eq!(br.bits(3), Ok(0));
    br.align();
    assert_eq!(br.bits(16), Ok(0x1234));
    br.align();
    assert_eq!(br.bits(4), Ok(0));
}

#[test]
fn align_on_a_boundary_keeps_position() {
    let buf = [0x34u8, 0x12, 0x78, 0x56];
    let mut br = BitReader::new(Reader::new(&buf));
    assert_eq!(br.bits(16), Ok(0x1234));
    br.align();
    assert_eq!(br.bits(16), Ok(0x5678));
}

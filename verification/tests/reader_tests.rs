use enact_parser::error::EnactError;
use enact_parser::reader::Reader;

#[test]
fn reads_little_and_big_endian_numbers() {
    let buf = [0x01u8, 0x02, 0x01, 0x02, 0x78, 0x56, 0x34, 0x12, 0xFF, 0xFF, 0xFF, 0xFF];
    let mut r = Reader::new(&buf);
    assert_eq!(r.u16_le(), Ok(0x0201));
    assert_eq!(r.u16_be(), Ok(0x0102));
    assert_eq!(r.u32_le(), Ok(0x1234_5678));
    assert_eq!(r.i32_le(), Ok(-1));
    assert_eq!(r.pos(), 12);
}

#[test]
fn u8_and_bytes_advance_the_cursor() {
    let buf = [7u8, 8, 9, 10];
    let mut r = Reader::new(&buf);
    assert_eq!(r.u8(), Ok(7));
    assert_eq!(r.bytes(2), Ok(&buf[1..3]));
    assert_eq!(r.pos(), 3);
    assert_eq!(r.bytes(0), Ok(&buf[3..3]));
}

#[test]
fn eof_reports_position_and_want_and_keeps_cursor() {
    let buf = [1u8, 2, 3];
    let mut r = Reader::new(&buf);
    assert_eq!(r.u8(), Ok(1));
    assert_eq!(r.u32_le(), Err(EnactError::Eof { at: 1, want: 4 }));
    assert_eq!(r.pos(), 1);
    assert_eq!(r.u16_le(), Ok(0x0302));
    assert_eq!(r.u8(), Err(EnactError::Eof { at: 3, want: 1 }));
}

#[test]
fn offset_overflow_is_reported() {
    let buf = [1u8, 2, 3];
    let mut r = Reader::new(&buf);
    assert_eq!(r.u8(), Ok(1));
    assert_eq!(r.bytes(usize::MAX), Err(EnactError::Overflow));
    assert_eq!(r.pos(), 1);
}

#[test]
fn encoded_int_7bit_values() {
    let buf = [0x05u8, 0xAC, 0x02, 0x7F];
    let mut r = Reader::new(&buf);
    assert_eq!(r.encoded_int_7bit(), Ok(5));
    assert_eq!(r.encoded_int_7bit(), Ok(300));
    assert_eq!(r.encoded_int_7bit(), Ok(127));
    assert_eq!(r.pos(), 4);
}

#[test]
fn encoded_int_7bit_five_bytes_wraps_into_sign() {
    let buf = [0xFFu8, 0xFF, 0xFF, 0xFF, 0x0F];
    let mut r = Reader::new(&buf);
    assert_eq!(r.encoded_int_7bit(), Ok(-1));
}

#[test]
fn encoded_int_7bit_overflow_after_five_bytes() {
    let buf = [0x80u8, 0x80, 0x80, 0x80, 0x80, 0x01];
    let mut r = Reader::new(&buf);
    assert_eq!(r.encoded_int_7bit(), Err(EnactError::Overflow));
    assert_eq!(r.pos(), 5);
}

#[test]
fn encoded_int_7bit_eof_inside_the_number() {
    let buf = [0x80u8, 0x80];
    let mut r = Reader::new(&buf);
    assert_eq!(r.encoded_int_7bit(), Err(EnactError::Eof { at: 2, want: 1 }));
    assert_eq!(r.pos(), 2);
}

#[test]
fn string_reads_prefixed_text() {
    let buf = [3u8, b'a', b'b', b'c', 0];
    let mut r = Reader::new(&buf);
    assert_eq!(r.string(), Ok("abc".to_string()));
    assert_eq!(r.pos(), 4);
    assert_eq!(r.string(), Ok(String::new()));
}

#[test]
fn string_replaces_invalid_utf8() {
    let buf = [2u8, b'a', 0xFF];
    let mut r = Reader::new(&buf);
    assert_eq!(r.string(), Ok("a\u{FFFD}".to_string()));
}

#[test]
fn string_with_missing_bytes_is_eof() {
    let buf = [5u8, b'a'];
    let mut r = Reader::new(&buf);
    assert_eq!(r.string(), Err(EnactError::Eof { at: 1, want: 5 }));
    assert_eq!(r.pos(), 1);
}

#[test]
fn string_with_negative_length_fails() {
    // length -1: as a byte count it is usize::MAX, past the end
    let buf = [0xFFu8, 0xFF, 0xFF, 0xFF, 0x0F, b'x'];
    let mut r = Reader::new(&buf);
    assert_eq!(r.string(), Err(EnactError::Overflow));
}

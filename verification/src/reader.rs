use crate::error::EnactError;
use vstd::prelude::*;
use vstd::slice::slice_subrange;
use vstd::utf8::{decode_utf8, valid_utf8};

verus! {

/// The unsigned little-endian value of the two bytes at `i`.
pub open spec fn le_u16(b: Seq<u8>, i: int) -> int {
    b[i] as int + 256 * b[i + 1] as int
}

/// The unsigned big-endian value of the two bytes at `i`.
pub open spec fn be_u16(b: Seq<u8>, i: int) -> int {
    256 * b[i] as int + b[i + 1] as int
}

/// The unsigned little-endian value of the four bytes at `i`.
pub open spec fn le_u32(b: Seq<u8>, i: int) -> int {
    b[i] as int + 256 * b[i + 1] as int + 65536 * b[i + 2] as int + 16777216 * b[i + 3] as int
}

/// The two's complement reading of an unsigned 32-bit value.
pub open spec fn as_signed32(u: int) -> int {
    if u < 0x8000_0000 {
        u
    } else {
        u - 0x1_0000_0000
    }
}

/// Why taking `n` bytes at offset `at` of `data` fails, if it does.
pub open spec fn take_error(data: Seq<u8>, at: int, n: int) -> Option<EnactError> {
    if at + n > usize::MAX {
        Some(EnactError::Overflow)
    } else if at + n > data.len() {
        Some(EnactError::Eof { at: at as usize, want: n as usize })
    } else {
        None
    }
}

/// The 7-bit encoded integer at `at`, read from its `i`-th byte on with `acc`
/// holding the bits of the bytes before: each byte gives its low seven bits,
/// least significant group first, and a clear high bit ends the number; a
/// sixth byte is never read. Besides the outcome, the number of bytes that
/// were consumed.
pub open spec fn int7_decode(data: Seq<u8>, at: int, i: nat, acc: u32) -> (Result<u32, EnactError>, int)
    decreases 5 - i,
{
    if i >= 5 {
        (Err(EnactError::Overflow), i as int)
    } else {
        match take_error(data, at + i, 1) {
            Some(e) => (Err(e), i as int),
            None => {
                let b = data[at + i];
                let acc2 = acc | (((b & 0x7f) as u32) << ((7 * i) as u32));
                if b & 0x80 == 0 {
                    (Ok(acc2), i + 1int)
                } else {
                    int7_decode(data, at, i + 1, acc2)
                }
            },
        }
    }
}

/// A 7-bit encoded integer takes at most five bytes, and at least one when
/// it is read.
pub proof fn lemma_int7_consumed(data: Seq<u8>, at: int, i: nat, acc: u32)
    requires
        i <= 5,
    ensures
        i <= int7_decode(data, at, i, acc).1 <= 5,
        int7_decode(data, at, i, acc).0 is Ok ==> int7_decode(data, at, i, acc).1 >= i + 1,
    decreases 5 - i,
{
    if i < 5 {
        let b = data[at + i];
        let acc2 = acc | (((b & 0x7f) as u32) << ((7 * i) as u32));
        lemma_int7_consumed(data, at, i + 1, acc2);
    }
}

/// The length-prefixed string at `at`: a 7-bit encoded byte count, then
/// that many bytes decoded as UTF-8 with invalid sequences replaced; the
/// outcome and the offset where reading stopped.
pub open spec fn read_string(data: Seq<u8>, at: int) -> (Result<Seq<char>, EnactError>, int) {
    let (res, k) = int7_decode(data, at, 0, 0);
    let c = at + k;
    match res {
        Err(e) => (Err(e), c),
        Ok(u) => {
            let n = (u as i32) as usize as int;
            match take_error(data, c, n) {
                Some(e) => (Err(e), c),
                None => (Ok(utf8_lossy(data.subrange(c, c + n))), c + n),
            }
        },
    }
}

/// A string whose length fits in one 7-bit byte (below 128) has that byte
/// as its length; a length of 128 to 16383 takes two bytes, the first with
/// its high bit set holding the low seven bits and the second the rest. The
/// text is that many bytes after the length, and reading ends after them.
pub proof fn lemma_read_string_lengths(data: Seq<u8>, at: int)
    requires
        0 <= at,
        data.len() <= usize::MAX,
    ensures
        ({
            let n = data[at] as int;
            (at < data.len() && data[at] < 0x80 && at + 1 + n <= data.len()) ==> read_string(data, at) == (
                Ok::<Seq<char>, EnactError>(utf8_lossy(data.subrange(at + 1, at + 1 + n))),
                at + 1 + n,
            )
        }),
        ({
            let n = data[at] - 128 + 128 * data[at + 1];
            (at + 1 < data.len() && data[at] >= 0x80 && data[at + 1] < 0x80 && at + 2 + n <= data.len()) ==> read_string(
                data,
                at,
            ) == (Ok::<Seq<char>, EnactError>(utf8_lossy(data.subrange(at + 2, at + 2 + n))), at + 2 + n)
        }),
{
    if at < data.len() {
        let b0 = data[at];
        assert(b0 < 0x80 ==> (b0 & 0x80u8 == 0 && (0u32 | (((b0 & 0x7fu8) as u32) << 0u32)) == b0 as u32)) by (bit_vector);
        if at + 1 < data.len() {
            let b1 = data[at + 1];
            let a1 = 0u32 | (((b0 & 0x7fu8) as u32) << 0u32);
            assert(b0 >= 0x80 && b1 < 0x80 ==> (b0 & 0x80u8 != 0 && b1 & 0x80u8 == 0 && (0u32 | (((b0 & 0x7fu8) as u32) << 0u32)) | (((b1
                & 0x7fu8) as u32) << 7u32) == (b0 - 128) + 128 * b1)) by (bit_vector);
            if b0 >= 0x80 && b1 < 0x80 {
                let a2 = a1 | (((b1 & 0x7fu8) as u32) << 7u32);
                assert(int7_decode(data, at, 1, a1) == (Ok::<u32, EnactError>(a2), 2int));
                assert(int7_decode(data, at, 0, 0) == int7_decode(data, at, 1, a1));
            }
        }
    }
}

/// What `String::from_utf8_lossy` makes of a byte sequence.
pub uninterp spec fn utf8_lossy(bytes: Seq<u8>) -> Seq<char>;

/// Calls `String::from_utf8_lossy` and takes ownership of the result. Claimed:
/// the result is the function's lossy decoding of the bytes, and on valid
/// UTF-8 it is exactly the decoded text (the documentation promises that
/// valid input is returned unchanged). What it does to invalid sequences is
/// left to the name `utf8_lossy`.
#[verifier::external_body]
fn lossy_string(bytes: &[u8]) -> (s: String)
    ensures
        s@ == utf8_lossy(bytes@),
        valid_utf8(bytes@) ==> s@ == decode_utf8(bytes@),
{
    String::from_utf8_lossy(bytes).into_owned()
}

/// Specialized reader for reading XNB data: a cursor over a byte slice.
#[derive(Clone, Copy)]
pub struct Reader<'a> {
    buf: &'a [u8],
    pos: usize,
}

impl<'a> Reader<'a> {
    /// The bytes that the reader reads.
    pub closed spec fn data(&self) -> Seq<u8> {
        self.buf@
    }

    /// The offset of the next byte to read.
    pub closed spec fn cursor(&self) -> int {
        self.pos as int
    }

    pub open spec fn wf(&self) -> bool {
        0 <= self.cursor() <= self.data().len()
    }

    /// A reader at the start of `buf`.
    pub fn new(buf: &'a [u8]) -> (r: Self)
        ensures
            r.wf(),
            r.data() == buf@,
            r.cursor() == 0,
    {
        Self { buf, pos: 0 }
    }

    /// The offset of the next byte to read.
    pub fn pos(&self) -> (r: usize)
        ensures
            r == self.cursor(),
    {
        self.pos
    }

    fn take(&mut self, n: usize) -> (r: Result<&'a [u8], EnactError>)
        requires
            old(self).wf(),
        ensures
            final(self).wf(),
            final(self).data() == old(self).data(),
            match r {
                Ok(s) => take_error(old(self).data(), old(self).cursor(), n as int) is None
                    && s@ == old(self).data().subrange(old(self).cursor(), old(self).cursor() + n)
                    && final(self).cursor() == old(self).cursor() + n,
                Err(e) => take_error(old(self).data(), old(self).cursor(), n as int) == Some(e)
                    && final(self).cursor() == old(self).cursor(),
            },
    {
        let end = match self.pos.checked_add(n) {
            Some(end) => end,
            None => return Err(EnactError::Overflow),
        };
        if end > self.buf.len() {
            return Err(EnactError::Eof { at: self.pos, want: n });
        }
        let s = slice_subrange(self.buf, self.pos, end);
        self.pos = end;
        Ok(s)
    }

    /// The next `n` bytes.
    pub fn bytes(&mut self, n: usize) -> (r: Result<&'a [u8], EnactError>)
        requires
            old(self).wf(),
        ensures
            final(self).wf(),
            final(self).data() == old(self).data(),
            match r {
                Ok(s) => take_error(old(self).data(), old(self).cursor(), n as int) is None
                    && s@ == old(self).data().subrange(old(self).cursor(), old(self).cursor() + n)
                    && final(self).cursor() == old(self).cursor() + n,
                Err(e) => take_error(old(self).data(), old(self).cursor(), n as int) == Some(e)
                    && final(self).cursor() == old(self).cursor(),
            },
    {
        self.take(n)
    }

    /// The next byte.
    pub fn u8(&mut self) -> (r: Result<u8, EnactError>)
        requires
            old(self).wf(),
        ensures
            final(self).wf(),
            final(self).data() == old(self).data(),
            match r {
                Ok(v) => take_error(old(self).data(), old(self).cursor(), 1) is None
                    && v == old(self).data()[old(self).cursor()]
                    && final(self).cursor() == old(self).cursor() + 1,
                Err(e) => take_error(old(self).data(), old(self).cursor(), 1) == Some(e)
                    && final(self).cursor() == old(self).cursor(),
            },
    {
        let b = self.take(1)?;
        Ok(b[0])
    }

    /// The next two bytes as a little-endian number.
    pub fn u16_le(&mut self) -> (r: Result<u16, EnactError>)
        requires
            old(self).wf(),
        ensures
            final(self).wf(),
            final(self).data() == old(self).data(),
            match r {
                Ok(v) => take_error(old(self).data(), old(self).cursor(), 2) is None
                    && v == le_u16(old(self).data(), old(self).cursor())
                    && final(self).cursor() == old(self).cursor() + 2,
                Err(e) => take_error(old(self).data(), old(self).cursor(), 2) == Some(e)
                    && final(self).cursor() == old(self).cursor(),
            },
    {
        let b = self.take(2)?;
        let x = b[0];
        let y = b[1];
        proof {
            assert((x as u16) | ((y as u16) << 8u16) == x + 256 * y) by (bit_vector);
        }
        Ok((x as u16) | ((y as u16) << 8u16))
    }

    /// The next two bytes as a big-endian number.
    pub fn u16_be(&mut self) -> (r: Result<u16, EnactError>)
        requires
            old(self).wf(),
        ensures
            final(self).wf(),
            final(self).data() == old(self).data(),
            match r {
                Ok(v) => take_error(old(self).data(), old(self).cursor(), 2) is None
                    && v == be_u16(old(self).data(), old(self).cursor())
                    && final(self).cursor() == old(self).cursor() + 2,
                Err(e) => take_error(old(self).data(), old(self).cursor(), 2) == Some(e)
                    && final(self).cursor() == old(self).cursor(),
            },
    {
        let b = self.take(2)?;
        let x = b[0];
        let y = b[1];
        proof {
            assert(((x as u16) << 8u16) | (y as u16) == 256 * x + y) by (bit_vector);
        }
        Ok(((x as u16) << 8u16) | (y as u16))
    }

    fn le_u32_from(x0: u8, x1: u8, x2: u8, x3: u8) -> (v: u32)
        ensures
            v == x0 + 256 * x1 + 65536 * x2 + 16777216 * x3,
    {
        proof {
            assert((x0 as u32) | ((x1 as u32) << 8u32) | ((x2 as u32) << 16u32) | ((x3 as u32) << 24u32)
                == x0 + 256 * x1 + 65536 * x2 + 16777216 * x3) by (bit_vector);
        }
        (x0 as u32) | ((x1 as u32) << 8u32) | ((x2 as u32) << 16u32) | ((x3 as u32) << 24u32)
    }

    /// The next four bytes as a little-endian number.
    pub fn u32_le(&mut self) -> (r: Result<u32, EnactError>)
        requires
            old(self).wf(),
        ensures
            final(self).wf(),
            final(self).data() == old(self).data(),
            match r {
                Ok(v) => take_error(old(self).data(), old(self).cursor(), 4) is None
                    && v == le_u32(old(self).data(), old(self).cursor())
                    && final(self).cursor() == old(self).cursor() + 4,
                Err(e) => take_error(old(self).data(), old(self).cursor(), 4) == Some(e)
                    && final(self).cursor() == old(self).cursor(),
            },
    {
        let b = self.take(4)?;
        Ok(Self::le_u32_from(b[0], b[1], b[2], b[3]))
    }

    /// The next four bytes as a little-endian two's complement number.
    pub fn i32_le(&mut self) -> (r: Result<i32, EnactError>)
        requires
            old(self).wf(),
        ensures
            final(self).wf(),
            final(self).data() == old(self).data(),
            match r {
                Ok(v) => take_error(old(self).data(), old(self).cursor(), 4) is None
                    && v as int == as_signed32(le_u32(old(self).data(), old(self).cursor()))
                    && final(self).cursor() == old(self).cursor() + 4,
                Err(e) => take_error(old(self).data(), old(self).cursor(), 4) == Some(e)
                    && final(self).cursor() == old(self).cursor(),
            },
    {
        let b = self.take(4)?;
        let u = Self::le_u32_from(b[0], b[1], b[2], b[3]);
        proof {
            assert(u < 0x8000_0000u32 ==> (u as i32) as int == u as int) by (bit_vector);
            assert(u >= 0x8000_0000u32 ==> (u as i32) as int == u as int - 0x1_0000_0000int) by (bit_vector);
        }
        Ok(u as i32)
    }

    /// A 7-bit encoded integer: seven bits per byte, least significant
    /// group first, while the high bit of a byte is set; at most five bytes.
    pub fn encoded_int_7bit(&mut self) -> (r: Result<i32, EnactError>)
        requires
            old(self).wf(),
        ensures
            final(self).wf(),
            final(self).data() == old(self).data(),
            ({
                let (res, k) = int7_decode(old(self).data(), old(self).cursor(), 0, 0);
                &&& final(self).cursor() == old(self).cursor() + k
                &&& match res {
                    Ok(u) => r == Ok::<i32, EnactError>(#[verifier::truncate] (u as i32)),
                    Err(e) => r == Err::<i32, EnactError>(e),
                }
            }),
    {
        let ghost data = self.data();
        let ghost at = self.cursor();
        let mut result: u32 = 0;
        let mut bits_read: u32 = 0;
        let mut i: u32 = 0;
        loop
            invariant
                self.wf(),
                self.data() == data,
                data == old(self).data(),
                at == old(self).cursor(),
                0 <= at,
                i <= 5,
                bits_read == 7 * i,
                self.cursor() == at + i,
                int7_decode(data, at, 0, 0) == int7_decode(data, at, i as nat, result),
            decreases 5 - i,
        {
            if bits_read == 35 {
                return Err(EnactError::Overflow);
            }
            let b = self.take(1)?;
            let value = b[0];
            assert(value == data[at + i]);
            result = result | (((value & 0x7F) as u32) << bits_read);
            bits_read = bits_read + 7;
            i = i + 1;
            if value & 0x80 == 0 {
                return Ok(#[verifier::truncate] (result as i32));
            }
        }
    }

    /// A length-prefixed string: a 7-bit encoded byte count, then that many
    /// bytes, decoded as UTF-8 with invalid sequences replaced.
    pub fn string(&mut self) -> (r: Result<String, EnactError>)
        requires
            old(self).wf(),
        ensures
            final(self).wf(),
            final(self).data() == old(self).data(),
            final(self).cursor() == read_string(old(self).data(), old(self).cursor()).1,
            match read_string(old(self).data(), old(self).cursor()).0 {
                Ok(text) => r matches Ok(st) && st@ == text,
                Err(e) => r == Err::<String, EnactError>(e),
            },
    {
        let string_size = self.encoded_int_7bit()?;
        let string_bytes = self.bytes(string_size as usize)?;
        Ok(lossy_string(string_bytes))
    }
}

} // verus!

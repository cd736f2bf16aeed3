use crate::error::EnactError;
use crate::reader::{le_u16, Reader};
use vstd::prelude::*;

verus! {

/// Bit `j` (0 = least significant) of `x`.
pub open spec fn bit_of(x: u32, j: u32) -> u32 {
    (x >> j) & 1
}

/// Whether the bit stream over `data` from offset `start` has its `k`-th
/// 16-bit word: the word's two bytes both lie in `data`.
pub open spec fn has_word(data: Seq<u8>, start: int, k: int) -> bool {
    0 <= k && start + 2 * k + 2 <= data.len()
}

/// Bit `i` of the bit stream over `data` from offset `start`. The stream is
/// made of 16-bit little-endian words, each read most significant bit first;
/// after the last whole word it goes on with zero bits.
pub open spec fn stream_bit(data: Seq<u8>, start: int, i: int) -> u32 {
    if 0 <= i && has_word(data, start, i / 16) {
        ((le_u16(data, start + 2 * (i / 16)) as u32) >> ((15 - i % 16) as u32)) & 1
    } else {
        0
    }
}

/// The `n` stream bits from position `p` on, read as a number whose most
/// significant bit is the first one.
pub open spec fn stream_value(data: Seq<u8>, start: int, p: int, n: nat) -> u32
    decreases n,
{
    if n == 0 {
        0
    } else {
        (stream_value(data, start, p, (n - 1) as nat) << 1u32) | stream_bit(data, start, p + n - 1)
    }
}

proof fn lemma_bit_or(a: u32, b: u32, j: u32)
    requires
        j < 32,
    ensures
        bit_of(a | b, j) == bit_of(a, j) | bit_of(b, j),
{
    assert(((a | b) >> j) & 1 == ((a >> j) & 1) | ((b >> j) & 1)) by (bit_vector)
        requires
            j < 32,
    ;
}

proof fn lemma_or_zero(x: u32)
    ensures
        x | 0 == x,
        0 | x == x,
{
    assert(x | 0 == x && 0 | x == x) by (bit_vector);
}

proof fn lemma_bit_shl(b: u32, k: u32, j: u32)
    requires
        k < 32,
        j < 32,
    ensures
        bit_of(b << k, j) == if j >= k {
            bit_of(b, (j - k) as u32)
        } else {
            0
        },
{
    if j >= k {
        assert(((b << k) >> j) & 1 == (b >> ((j - k) as u32)) & 1) by (bit_vector)
            requires
                k < 32,
                j < 32,
                j >= k,
        ;
    } else {
        assert(((b << k) >> j) & 1 == 0) by (bit_vector)
            requires
                k < 32,
                j < 32,
                j < k,
        ;
    }
}

proof fn lemma_word_bits(w: u32, j: u32)
    requires
        w < 0x10000,
        16 <= j < 32,
    ensures
        bit_of(w, j) == 0,
{
    assert((w >> j) & 1 == 0) by (bit_vector)
        requires
            w < 0x10000,
            16 <= j < 32,
    ;
}

proof fn lemma_bit_is_bit(x: u32, j: u32)
    ensures
        bit_of(x, j) <= 1,
{
    assert((x >> j) & 1 <= 1) by (bit_vector);
}

/// The top `m` bits of `buf` are the stream bits from `p` on: then they
/// are the stream value of `m` bits at `p`.
proof fn lemma_top_value(buf: u32, m: nat, data: Seq<u8>, start: int, p: int)
    requires
        1 <= m <= 32,
        forall|j: u32| 32 - m <= j < 32 ==> #[trigger] bit_of(buf, j) == stream_bit(data, start, p + 31 - j),
    ensures
        buf >> ((32 - m) as u32) == stream_value(data, start, p, m),
    decreases m,
{
    let b0 = stream_bit(data, start, p);
    assert(bit_of(buf, 31) == b0);
    if m == 1 {
        assert(buf >> 31u32 == (buf >> 31u32) & 1) by (bit_vector);
        assert(stream_value(data, start, p, 0) == 0);
        assert(b0 <= 1) by {
            lemma_bit_is_bit(le_u16(data, start + 2 * (p / 16)) as u32, (15 - p % 16) as u32);
        }
        assert((0u32 << 1u32) | b0 == b0) by (bit_vector);
    } else {
        let m1 = (m - 1) as nat;
        lemma_top_value(buf, m1, data, start, p);
        let s = (32 - m) as u32;
        assert(bit_of(buf, s) == stream_bit(data, start, p + m - 1));
        assert(buf >> s == ((buf >> ((s + 1) as u32)) << 1u32) | ((buf >> s) & 1)) by (bit_vector)
            requires
                s < 31,
        ;
    }
}

/// The stream value of `n` bits is below `2^n`.
pub proof fn lemma_value_bound(data: Seq<u8>, start: int, p: int, n: nat)
    requires
        n < 32,
    ensures
        stream_value(data, start, p, n) < (1u32 << (n as u32)),
    decreases n,
{
    if n == 0 {
        assert(1u32 << 0u32 == 1) by (bit_vector);
    } else {
        let n1 = (n - 1) as nat;
        lemma_value_bound(data, start, p, n1);
        let v = stream_value(data, start, p, n1);
        let b = stream_bit(data, start, p + n - 1);
        assert(b <= 1) by {
            if 0 <= p + n - 1 && has_word(data, start, (p + n - 1) / 16) {
                lemma_bit_is_bit(
                    le_u16(data, start + 2 * ((p + n - 1) / 16)) as u32,
                    (15 - (p + n - 1) % 16) as u32,
                );
            }
        }
        let m = n1 as u32;
        assert(v < (1u32 << m) && b <= 1 && m < 31 ==> ((v << 1u32) | b) < (1u32 << ((m + 1) as u32)))
            by (bit_vector);
    }
}

/// Reading `a` bits and then `b` more gives the bits of reading `a + b` at
/// once: the first value is the high part, the second the low `b` bits.
pub proof fn lemma_value_split(data: Seq<u8>, start: int, p: int, a: nat, b: nat)
    requires
        a + b <= 32,
    ensures
        stream_value(data, start, p, a + b) == (stream_value(data, start, p, a) << (b as u32)) | stream_value(
            data,
            start,
            p + a,
            b,
        ),
    decreases b,
{
    let x = stream_value(data, start, p, a);
    if b == 0 {
        assert(stream_value(data, start, p + a, 0) == 0);
        assert((x << 0u32) | 0u32 == x) by (bit_vector);
    } else {
        let b1 = (b - 1) as nat;
        lemma_value_split(data, start, p, a, b1);
        let y = stream_value(data, start, p + a, b1);
        let c = stream_bit(data, start, p + a + b1);
        let bb = b1 as u32;
        assert(stream_value(data, start, p, a + b) == (stream_value(data, start, p, (a + b1) as nat) << 1u32) | c);
        assert(stream_value(data, start, p + a, b) == (y << 1u32) | c);
        assert(bb < 32 ==> (((x << bb) | y) << 1u32) | c == (x << ((bb + 1) as u32)) | ((y << 1u32) | c)) by (bit_vector);
    }
}

/// The first `j` of `l` bits read at `p` are the value of the `l` bits
/// without its low `l - j` bits.
pub proof fn lemma_value_prefix(data: Seq<u8>, start: int, p: int, j: nat, l: nat)
    requires
        j <= l < 32,
    ensures
        stream_value(data, start, p, j) == stream_value(data, start, p, l) >> ((l - j) as u32),
{
    let d = (l - j) as nat;
    lemma_value_split(data, start, p, j, d);
    lemma_value_bound(data, start, p + j, d);
    let x = stream_value(data, start, p, j);
    let y = stream_value(data, start, p + j, d);
    let dd = d as u32;
    lemma_value_bound(data, start, p, j);
    let jj = j as u32;
    assert(dd < 32 && jj + dd < 32 && x < (1u32 << jj) && y < (1u32 << dd) ==> ((x << dd) | y) >> dd == x) by (bit_vector);
}

/// Reads a bit stream of 16-bit little-endian words, most significant bit
/// first, from a byte reader; past the last whole word it reads zeros.
pub struct BitReader<'a> {
    inner: Reader<'a>,
    buf: u32,
    n: u32,
    pad: u32,
    start: Ghost<int>,
    consumed: Ghost<int>,
}

impl<'a> BitReader<'a> {
    /// The bytes under the stream.
    pub closed spec fn stream_data(&self) -> Seq<u8> {
        self.inner.data()
    }

    /// The offset in `stream_data()` where the stream's first word lies.
    pub closed spec fn stream_start(&self) -> int {
        self.start@
    }

    /// How many stream bits have been consumed.
    pub closed spec fn bit_pos(&self) -> int {
        self.consumed@
    }

    /// How many bits are held, read ahead, in the buffer.
    pub closed spec fn buffered(&self) -> nat {
        self.n as nat
    }

    /// The stream value of the next `n` bits.
    pub open spec fn next_value(&self, n: nat) -> u32 {
        stream_value(self.stream_data(), self.stream_start(), self.bit_pos(), n)
    }

    /// The bits of the buffer mirror the stream from `bit_pos` on.
    closed spec fn buffer_mirrors(&self) -> bool {
        forall|j: u32|
            j < 32 ==> #[trigger] bit_of(self.buf, j) == if j + self.n >= 32 {
                stream_bit(self.inner.data(), self.start@, self.consumed@ + 31 - j)
            } else {
                0
            }
    }

    /// Words read: how far the byte reader moved from the stream's start.
    closed spec fn words_read(&self) -> int {
        (self.inner.cursor() - self.start@) / 2
    }

    pub closed spec fn wf(&self) -> bool {
        &&& self.inner.wf()
        &&& self.inner.data().len() + 2 <= usize::MAX
        &&& 0 <= self.start@ <= self.inner.cursor()
        &&& (self.inner.cursor() - self.start@) % 2 == 0
        &&& self.n <= 32
        &&& 0 <= self.consumed@
        &&& (self.consumed@ + self.n) % 16 == 0
        &&& self.consumed@ + self.n >= 16 * self.words_read()
        &&& self.consumed@ + self.n > 16 * self.words_read() ==> self.inner.cursor() + 2 > self.inner.data().len()
        &&& self.buffer_mirrors()
    }

    /// Stream positions are not negative.
    pub proof fn lemma_positions(&self)
        requires
            self.wf(),
        ensures
            0 <= self.stream_start() <= self.stream_data().len(),
            0 <= self.bit_pos(),
    {
    }

    /// A bit reader over the words that `inner` reads from its cursor on.
    /// The byte length must leave room for the cursor arithmetic of a word
    /// read, which every slice does.
    pub fn new(inner: Reader<'a>) -> (r: Self)
        requires
            inner.wf(),
            inner.data().len() + 2 <= usize::MAX,
        ensures
            r.wf(),
            r.stream_data() == inner.data(),
            r.stream_start() == inner.cursor(),
            r.bit_pos() == 0,
            r.buffered() == 0,
    {
        let ghost start = inner.cursor();
        let r = Self { inner, buf: 0, n: 0, pad: 0, start: Ghost(start), consumed: Ghost(0) };
        assert forall|j: u32| j < 32 implies #[trigger] bit_of(r.buf, j) == 0 by {
            assert((0u32 >> j) & 1 == 0) by (bit_vector);
        }
        r
    }

    fn fill(&mut self, want: u32)
        requires
            old(self).wf(),
            want <= 17,
        ensures
            final(self).wf(),
            final(self).stream_data() == old(self).stream_data(),
            final(self).stream_start() == old(self).stream_start(),
            final(self).bit_pos() == old(self).bit_pos(),
            final(self).buffered() >= want,
    {
        let ghost data = self.inner.data();
        let ghost start = self.start@;
        let ghost p = self.consumed@;
        while self.n < want
            invariant
                self.wf(),
                want <= 17,
                self.inner.data() == data,
                self.start@ == start,
                self.consumed@ == p,
            decreases 32 - self.n,
        {
            let ghost old_buf = self.buf;
            let ghost old_n = self.n;
            let ghost cur = self.inner.cursor();
            let ghost reads = self.words_read();
            let w: u16 = match self.inner.u16_le() {
                Ok(w) => w,
                Err(_) => {
                    self.pad = self.pad.wrapping_add(1);
                    0
                },
            };
            let ghost got = self.inner.cursor() == cur + 2;
            let s = 16 - self.n;
            let shifted = (w as u32) << s;
            self.buf = self.buf | shifted;
            self.n = self.n + 16;
            proof {
                if got {
                    assert(p + old_n == 16 * reads);
                    assert(has_word(data, start, reads));
                    assert(w == le_u16(data, start + 2 * reads));
                    assert(self.words_read() == reads + 1);
                } else {
                    assert(cur + 2 > data.len());
                    assert(self.words_read() == reads);
                    assert(w == 0);
                }
                assert forall|j: u32| j < 32 implies #[trigger] bit_of(self.buf, j) == if j + self.n >= 32 {
                    stream_bit(data, start, p + 31 - j)
                } else {
                    0
                } by {
                    lemma_bit_or(old_buf, shifted, j);
                    lemma_bit_shl(w as u32, s, j);
                    lemma_or_zero(bit_of(old_buf, j));
                    lemma_or_zero(bit_of(shifted, j));
                    assert(bit_of(old_buf, j) == if j + old_n >= 32 {
                        stream_bit(data, start, p + 31 - j)
                    } else {
                        0
                    });
                    if j >= s {
                        let jj = (j - s) as u32;
                        if jj >= 16 {
                            lemma_word_bits(w as u32, jj);
                        }
                    }
                    if j + old_n < 32 && j + old_n + 16 >= 32 {
                        // the new word's bits
                        let i = p + 31 - j;
                        let o = 31 - j - old_n;
                        assert(0 <= o < 16);
                        assert(i == p + old_n + o);
                        if got {
                            assert(i == 16 * reads + o);
                            assert(i / 16 == reads && i % 16 == o) by {
                                vstd::arithmetic::div_mod::lemma_fundamental_div_mod_converse(i, 16, reads, o);
                            }
                            assert((j - s) as int == 15 - o);
                        } else {
                            assert(i >= 16 * reads);
                            assert(i / 16 >= reads) by {
                                vstd::arithmetic::div_mod::lemma_div_is_ordered(16 * reads, i, 16);
                                vstd::arithmetic::div_mod::lemma_div_multiples_vanish(reads, 16);
                            }
                            assert(!has_word(data, start, i / 16));
                            assert((0u32 >> ((j - s) as u32)) & 1 == 0) by (bit_vector);
                        }
                    }
                }
            }
        }
    }

    /// The next `n` bits as a number, first bit most significant, without
    /// consuming them. At most 17 bits can be looked at.
    pub fn peek(&mut self, n: u32) -> (r: Result<u32, EnactError>)
        requires
            old(self).wf(),
            n <= 17,
        ensures
            final(self).wf(),
            final(self).stream_data() == old(self).stream_data(),
            final(self).stream_start() == old(self).stream_start(),
            final(self).bit_pos() == old(self).bit_pos(),
            final(self).buffered() >= n,
            r == Ok::<u32, EnactError>(old(self).next_value(n as nat)),
    {
        if n == 0 {
            return Ok(0);
        }
        self.fill(n);
        proof {
            assert forall|j: u32| 32 - n <= j < 32 implies #[trigger] bit_of(self.buf, j) == stream_bit(
                self.inner.data(),
                self.start@,
                self.consumed@ + 31 - j,
            ) by {}
            lemma_top_value(self.buf, n as nat, self.inner.data(), self.start@, self.consumed@);
        }
        Ok(self.buf >> (32 - n))
    }

    /// Drops `n` buffered bits.
    pub fn consume(&mut self, n: u32)
        requires
            old(self).wf(),
            n <= old(self).buffered(),
            n < 32,
        ensures
            final(self).wf(),
            final(self).stream_data() == old(self).stream_data(),
            final(self).stream_start() == old(self).stream_start(),
            final(self).bit_pos() == old(self).bit_pos() + n,
            final(self).buffered() == old(self).buffered() - n,
    {
        let ghost old_buf = self.buf;
        let ghost old_n = self.n;
        self.buf = self.buf << n;
        self.n = self.n - n;
        self.consumed = Ghost(self.consumed@ + n);
        proof {
            assert forall|j: u32| j < 32 implies #[trigger] bit_of(self.buf, j) == if j + self.n >= 32 {
                stream_bit(self.inner.data(), self.start@, self.consumed@ + 31 - j)
            } else {
                0
            } by {
                lemma_bit_shl(old_buf, n, j);
                if j >= n {
                    let jj = (j - n) as u32;
                    assert(bit_of(old_buf, jj) == if jj + old_n >= 32 {
                        stream_bit(self.inner.data(), self.start@, self.consumed@ - n + 31 - jj)
                    } else {
                        0
                    });
                }
            }
        }
    }

    /// The next `n` bits as a number, first bit most significant; they are
    /// consumed. At most 17 bits can be read at once.
    pub fn bits(&mut self, n: u32) -> (r: Result<u32, EnactError>)
        requires
            old(self).wf(),
            n <= 17,
        ensures
            final(self).wf(),
            final(self).stream_data() == old(self).stream_data(),
            final(self).stream_start() == old(self).stream_start(),
            final(self).bit_pos() == old(self).bit_pos() + n,
            r == Ok::<u32, EnactError>(old(self).next_value(n as nat)),
    {
        let v = self.peek(n)?;
        self.consume(n);
        Ok(v)
    }

    /// Discard padding up to the next 16bit boundary.
    pub fn align(&mut self)
        requires
            old(self).wf(),
        ensures
            final(self).wf(),
            final(self).stream_data() == old(self).stream_data(),
            final(self).stream_start() == old(self).stream_start(),
            final(self).bit_pos() % 16 == 0,
            old(self).bit_pos() <= final(self).bit_pos() < old(self).bit_pos() + 16,
    {
        let rem = self.n % 16;
        self.consume(rem);
    }
}

} // verus!

use crate::bit_reader::{lemma_value_bound, stream_bit, stream_value, BitReader};
use crate::error::EnactError;
use crate::tree::{canonical_codes, gap, huffman_decode, lemma_decode_range, lemma_read_lengths_fits, read_lengths_spec, Tree};
use vstd::arithmetic::power2::pow2;
use vstd::prelude::*;

verus! {

/// The kind of an LZX block: verbatim, aligned offset or uncompressed (block
/// type numbers 1, 2 and 3).
#[derive(Debug, Clone, Copy, PartialEq, Eq, Structural)]
pub enum BlockType {
    Verbatim,
    Aligned,
    Uncompressed,
}

/// The block type that a 3-bit block type number names.
pub open spec fn block_type_of(t: u32) -> Option<BlockType> {
    if t == 1 {
        Some(BlockType::Verbatim)
    } else if t == 2 {
        Some(BlockType::Aligned)
    } else if t == 3 {
        Some(BlockType::Uncompressed)
    } else {
        None
    }
}

/// A Huffman tree as values: code lengths and codes.
pub struct TreeModel {
    pub lens: Seq<u8>,
    pub codes: Seq<u32>,
}

impl View for Tree {
    type V = TreeModel;

    open spec fn view(&self) -> TreeModel {
        TreeModel { lens: self.lens@, codes: self.codes@ }
    }
}

/// The tree of canonical codes for the given lengths.
pub open spec fn tree_model(lens: Seq<u8>) -> TreeModel {
    TreeModel { lens, codes: canonical_codes(lens) }
}

pub open spec fn opt_tree(t: Option<Tree>) -> Option<TreeModel> {
    match t {
        Some(t) => Some(t@),
        None => None,
    }
}

/// The state of an LZX decoder, as values.
pub struct LzxModel {
    /// The output window; `pos` bytes of it are decoded.
    pub out: Seq<u8>,
    pub pos: int,
    /// The E8 translation size from the stream header.
    pub e8_size: u32,
    /// The three most recent match offsets.
    pub r: Seq<u32>,
    pub main_elements: int,
    pub header_read: bool,
    pub main_lens: Seq<u8>,
    pub length_lens: Seq<u8>,
    pub aligned_lens: Seq<u8>,
    pub main_tree: Option<TreeModel>,
    pub length_tree: Option<TreeModel>,
    pub align_tree: Option<TreeModel>,
    /// Output bytes left in the current block.
    pub block_remaining: int,
    pub block_type: Option<BlockType>,
}

/// The part of the decoder state that decoding symbols changes: the output
/// window, the decoded length and the recent match offsets.
pub struct OutState {
    pub out: Seq<u8>,
    pub pos: int,
    pub r: Seq<u32>,
}

/// Extra bits of the offset of position slot `slot`.
pub open spec fn extra_bits(slot: int) -> int {
    if slot < 2 {
        0
    } else if slot / 2 - 1 > 17 {
        17
    } else {
        slot / 2 - 1
    }
}

/// The base offset of position slot `slot`: the slots before it cover
/// `2^extra_bits` offsets each.
pub open spec fn position_base(slot: int) -> int
    decreases slot,
{
    if slot <= 0 {
        0
    } else {
        position_base(slot - 1) + pow2(extra_bits(slot - 1) as nat)
    }
}

/// The number of main tree elements for a window of `window_bits` bits.
pub open spec fn main_elements_for(window_bits: int) -> int {
    256 + 8 * if window_bits == 20 {
        42
    } else if window_bits == 21 {
        50
    } else {
        2 * window_bits
    }
}

/// `a - b`, or 0 where `b` exceeds `a`.
pub open spec fn saturating_sub(a: int, b: int) -> int {
    if a > b {
        a - b
    } else {
        0
    }
}

/// The smallest multiple of 16 that is at least `p`.
pub open spec fn align16(p: int) -> int {
    if p % 16 == 0 {
        p
    } else {
        p + 16 - p % 16
    }
}

/// How many bits of the stream over `data` from `start` come from whole
/// words; all bits from there on are zero.
pub open spec fn avail_bits(data: Seq<u8>, start: int) -> int {
    if start + 2 <= data.len() {
        16 * ((data.len() - start) / 2)
    } else {
        0
    }
}

/// `out` after copying `length` bytes to `pos` from `offset` bytes back,
/// byte by byte, so that a copy may repeat what it has just written.
pub open spec fn copy_match(out: Seq<u8>, pos: int, offset: int, length: int) -> Seq<u8> {
    Seq::new(out.len(), |j: int| if pos <= j < pos + length { out[pos - offset + (j - pos) % offset] } else { out[j] })
}

/// A match copies byte by byte: each copied byte is the byte `offset`
/// places before it in the result, so a match may repeat what it has just
/// written; bytes outside the match stay.
pub proof fn lemma_copy_match_bytes(out: Seq<u8>, pos: int, offset: int, length: int, j: int)
    requires
        1 <= offset <= pos,
        0 <= length,
        pos + length <= out.len(),
        0 <= j < out.len(),
    ensures
        copy_match(out, pos, offset, length).len() == out.len(),
        pos <= j < pos + length ==> copy_match(out, pos, offset, length)[j] == copy_match(out, pos, offset, length)[j - offset],
        !(pos <= j < pos + length) ==> copy_match(out, pos, offset, length)[j] == out[j],
{
    if pos <= j < pos + length {
        let i = j - pos;
        if i < offset {
            vstd::arithmetic::div_mod::lemma_small_mod(i as nat, offset as nat);
        } else {
            vstd::arithmetic::div_mod::lemma_mod_sub_multiples_vanish(i, offset);
            assert(j - offset - pos == -offset + i);
        }
    }
}

/// A match of position slot 0, 1 or 2 reuses a recent offset: the slot's
/// entry of the recent-offset list before the match. Every byte it writes
/// equals the byte that many places before it, nothing else changes, and
/// the list afterwards has that entry in front (slot 1 swaps the first two
/// entries, slot 2 the first and the last). A short length header `lh`
/// gives `lh + 2` bytes and reads no further bits.
pub proof fn lemma_recent_offset_match(
    m: OutState,
    sym: int,
    data: Seq<u8>,
    start: int,
    q: int,
    lengths: TreeModel,
    aligned: Option<TreeModel>,
)
    requires
        256 <= sym < 256 + 24,
        m.r.len() == 3,
        m.r[0] >= 1 && m.r[1] >= 1 && m.r[2] >= 1,
        0 <= m.pos <= m.out.len(),
    ensures
        ({
            let slot = (sym - 256) / 8;
            let lh = (sym - 256) % 8;
            let off = m.r[slot] as int;
            &&& decode_match(m, sym, data, start, q, lengths, aligned) matches Ok((o, q2)) ==> {
                &&& o.r == if slot == 0 {
                    m.r
                } else if slot == 1 {
                    seq![m.r[1], m.r[0], m.r[2]]
                } else {
                    seq![m.r[2], m.r[1], m.r[0]]
                }
                &&& off <= m.pos
                &&& o.out.len() == m.out.len()
                &&& m.pos < o.pos <= o.out.len()
                &&& forall|j: int| m.pos <= j < o.pos ==> #[trigger] o.out[j] == o.out[j - off]
                &&& forall|j: int| 0 <= j < m.out.len() && !(m.pos <= j < o.pos) ==> #[trigger] o.out[j] == m.out[j]
                &&& lh < 7 ==> o.pos == m.pos + lh + 2 && q2 == q
            }
            &&& (lh < 7 && off <= m.pos && m.pos + lh + 2 <= m.out.len()) ==> decode_match(
                m,
                sym,
                data,
                start,
                q,
                lengths,
                aligned,
            ) is Ok
        }),
{
    let slot = (sym - 256) / 8;
    let off = m.r[slot] as int;
    lemma_decode_range(lengths.lens, lengths.codes, data, start, q);
    if let Ok((o, q2)) = decode_match(m, sym, data, start, q, lengths, aligned) {
        let length = o.pos - m.pos;
        assert forall|j: int| m.pos <= j < o.pos implies #[trigger] o.out[j] == o.out[j - off] by {
            lemma_copy_match_bytes(m.out, m.pos, off, length, j);
        }
        assert forall|j: int| 0 <= j < m.out.len() && !(m.pos <= j < o.pos) implies #[trigger] o.out[j] == m.out[j] by {
            lemma_copy_match_bytes(m.out, m.pos, off, length, j);
        }
    }
}

/// A match of position slot 3 or more reads a new offset: without an
/// aligned offset tree (or with fewer than 3 extra bits), the slot's extra
/// bits follow the length, and the offset is the slot's base plus those bits
/// minus 2. The new offset goes in front of the recent-offset list, which
/// drops its last entry, and every byte the match writes equals the byte
/// that many places before it.
pub proof fn lemma_new_offset_match(
    m: OutState,
    sym: int,
    data: Seq<u8>,
    start: int,
    q: int,
    lengths: TreeModel,
    aligned: Option<TreeModel>,
)
    requires
        256 + 24 <= sym < 256 + 8 * 51,
        (sym - 256) % 8 < 7,
        aligned is None || extra_bits((sym - 256) / 8) < 3,
        m.r.len() == 3,
        0 <= m.pos <= m.out.len(),
    ensures
        ({
            let slot = (sym - 256) / 8;
            let off = position_base(slot) + stream_value(data, start, q, extra_bits(slot) as nat) - 2;
            decode_match(m, sym, data, start, q, lengths, aligned) matches Ok((o, q2)) ==> {
                &&& o.r == seq![off as u32, m.r[0], m.r[1]]
                &&& q2 == q + extra_bits(slot)
                &&& o.pos == m.pos + (sym - 256) % 8 + 2
                &&& forall|j: int| m.pos <= j < o.pos ==> #[trigger] o.out[j] == o.out[j - off]
            }
        }),
{
    let slot = (sym - 256) / 8;
    let off = position_base(slot) + stream_value(data, start, q, extra_bits(slot) as nat) - 2;
    lemma_position_base_bound(slot);
    if let Ok((o, q2)) = decode_match(m, sym, data, start, q, lengths, aligned) {
        let length = o.pos - m.pos;
        assert forall|j: int| m.pos <= j < o.pos implies #[trigger] o.out[j] == o.out[j - off] by {
            lemma_copy_match_bytes(m.out, m.pos, off, length, j);
        }
    }
}

/// The first position slots: slots 0 to 3 have no extra bits and bases 0
/// to 3; from slot 4 on, each pair of slots has one more extra bit than the
/// pair before (up to 17), and each slot's base follows the offsets of the
/// slot before: bases 4, 6, 8, 12, 16, 24, 32, 48, 64, 96, 128.
pub proof fn lemma_position_slots()
    ensures
        extra_bits(0) == 0 && extra_bits(1) == 0 && extra_bits(2) == 0 && extra_bits(3) == 0,
        forall|s: int| 4 <= s <= 37 ==> #[trigger] extra_bits(s) == s / 2 - 1,
        forall|s: int| 38 <= s ==> #[trigger] extra_bits(s) == 17,
        position_base(0) == 0 && position_base(1) == 1 && position_base(2) == 2 && position_base(3) == 3,
        position_base(4) == 4 && position_base(5) == 6 && position_base(6) == 8 && position_base(7) == 12,
        position_base(8) == 16 && position_base(9) == 24 && position_base(10) == 32 && position_base(11) == 48,
        position_base(12) == 64 && position_base(13) == 96 && position_base(14) == 128,
{
    vstd::arithmetic::power2::lemma2_to64();
    reveal_with_fuel(position_base, 15);
}

/// The eight 3-bit lengths of an aligned offset tree at stream position `p`.
pub open spec fn aligned_lens_at(data: Seq<u8>, start: int, p: int) -> Seq<u8> {
    Seq::new(8, |i: int| stream_value(data, start, p + 3 * i, 3) as u8)
}

/// The start of a block header at stream position `p`: 3 bits of block
/// type, then 8 and 16 bits of block length. Uncompressed blocks are not
/// supported. The outcome: the block type, its length and the new position;
/// or the error and the position where reading stopped.
pub open spec fn block_prefix(data: Seq<u8>, start: int, p: int) -> Result<(BlockType, int, int), (EnactError, int)> {
    let t = stream_value(data, start, p, 3);
    match block_type_of(t) {
        None => Err((EnactError::BadLZXBlockType { t }, p + 3)),
        Some(bt) => if bt == BlockType::Uncompressed {
            Err((EnactError::NotImplemented, p + 27))
        } else {
            Ok((bt, stream_value(data, start, p + 3, 8) as int * 65536 + stream_value(data, start, p + 11, 16) as int, p + 27))
        },
    }
}

/// The trees of a block at stream position `p`: the main tree lengths (the
/// first 256 and the rest in two parts) and the length tree lengths, each
/// delta-coded against the lengths of the block before. On an error, the
/// lengths read so far stay and the trees are those of before.
pub open spec fn block_trees(m: LzxModel, data: Seq<u8>, start: int, p: int) -> Result<(LzxModel, int), (EnactError, LzxModel, int)> {
    match read_lengths_spec(data, start, p, m.main_lens, 0, 256) {
        Err((e, t, q)) => Err((e, LzxModel { main_lens: t, ..m }, q)),
        Ok((ml1, q2)) => match read_lengths_spec(data, start, q2, ml1, 256, m.main_elements) {
            Err((e, t, q)) => Err((e, LzxModel { main_lens: t, ..m }, q)),
            Ok((ml2, q3)) => match read_lengths_spec(data, start, q3, m.length_lens, 0, 249) {
                Err((e, t, q)) => Err((e, LzxModel { main_lens: ml2, length_lens: t, ..m }, q)),
                Ok((ll, q4)) => Ok((
                    LzxModel {
                        main_lens: ml2,
                        length_lens: ll,
                        main_tree: Some(tree_model(ml2.subrange(0, m.main_elements))),
                        length_tree: Some(tree_model(ll.subrange(0, 249))),
                        ..m
                    },
                    q4,
                )),
            },
        },
    }
}

/// Reads the header of a block at stream position `p`: its type and
/// length, for an aligned offset block the eight 3-bit lengths of the
/// aligned offset tree, then the block's trees. On an error, what was read
/// before it stays read.
pub open spec fn block_header(m: LzxModel, data: Seq<u8>, start: int, p: int) -> Result<(LzxModel, int), (EnactError, LzxModel, int)> {
    match block_prefix(data, start, p) {
        Err((e, q)) => Err((e, m, q)),
        Ok((bt, length, q)) => {
            let al = aligned_lens_at(data, start, q);
            let m1 = if bt == BlockType::Aligned {
                LzxModel { aligned_lens: al, align_tree: Some(tree_model(al)), ..m }
            } else {
                m
            };
            let q1 = if bt == BlockType::Aligned {
                q + 24
            } else {
                q
            };
            match block_trees(m1, data, start, q1) {
                Err(err) => Err(err),
                Ok((m2, q2)) => Ok((LzxModel { block_remaining: length, block_type: Some(bt), ..m2 }, q2)),
            }
        },
    }
}

/// The match length of a length header at stream position `q`: headers 0
/// to 6 give 2 to 8; header 7 adds the length tree's symbol to 9.
pub open spec fn match_length(lh: int, lengths: TreeModel, data: Seq<u8>, start: int, q: int) -> Result<(int, int), (EnactError, int)> {
    if lh == 7 {
        match huffman_decode(lengths.lens, lengths.codes, data, start, q) {
            None => Err((EnactError::CorruptedStream, q + 16)),
            Some((l, k)) => Ok((l + 9, q + k)),
        }
    } else {
        Ok((lh + 2, q))
    }
}

/// The verbatim offset bits of `e` extra bits at stream position `q`: with
/// an aligned offset tree and at least 3 extra bits, the top `e - 3` bits
/// followed by an aligned tree symbol for the low 3; else `e` plain bits.
pub open spec fn verbatim_bits(aligned: Option<TreeModel>, e: int, data: Seq<u8>, start: int, q: int) -> Result<(int, int), (EnactError, int)> {
    if aligned is Some && e >= 3 {
        let t = aligned->Some_0;
        let hi = stream_value(data, start, q, (e - 3) as nat) as int;
        match huffman_decode(t.lens, t.codes, data, start, q + e - 3) {
            None => Err((EnactError::CorruptedStream, q + e - 3 + 16)),
            Some((s, k)) => Ok((hi * 8 + s, q + e - 3 + k)),
        }
    } else {
        Ok((stream_value(data, start, q, e as nat) as int, q + e))
    }
}

/// The offset of position slot `slot`, and the new recent offsets: slots 0,
/// 1 and 2 reuse a recent offset (1 and 2 swap it to the front); the others
/// read a new offset, which pushes the recent ones back.
pub open spec fn match_offset(r: Seq<u32>, slot: int, aligned: Option<TreeModel>, data: Seq<u8>, start: int, q: int) -> Result<(int, Seq<u32>, int), (EnactError, int)> {
    if slot == 0 {
        Ok((r[0] as int, r, q))
    } else if slot == 1 {
        Ok((r[1] as int, seq![r[1], r[0], r[2]], q))
    } else if slot == 2 {
        Ok((r[2] as int, seq![r[2], r[1], r[0]], q))
    } else {
        match verbatim_bits(aligned, extra_bits(slot), data, start, q) {
            Err(e) => Err(e),
            Ok((v, q2)) => {
                let offset = position_base(slot) + v - 2;
                Ok((offset, seq![offset as u32, r[0], r[1]], q2))
            },
        }
    }
}

/// The match that main tree symbol `sym` (256 or more) stands for, with its
/// further bits at stream position `q`: the symbol's low 3 bits are the
/// length header, the rest the position slot. The match copies `length`
/// bytes from `offset` bytes back; it must lie within what is decoded and
/// within the window. On an error, the output stays; the recent offsets
/// are updated where the offset was read.
pub open spec fn decode_match(
    m: OutState,
    sym: int,
    data: Seq<u8>,
    start: int,
    q: int,
    lengths: TreeModel,
    aligned: Option<TreeModel>,
) -> Result<(OutState, int), (EnactError, OutState, int)> {
    match match_length((sym - 256) % 8, lengths, data, start, q) {
        Err((e, q2)) => Err((e, m, q2)),
        Ok((length, q2)) => match match_offset(m.r, (sym - 256) / 8, aligned, data, start, q2) {
            Err((e, q3)) => Err((e, m, q3)),
            Ok((offset, r2, q3)) => if offset > m.pos || m.pos + length > m.out.len() {
                Err((EnactError::CorruptedStream, OutState { r: r2, ..m }, q3))
            } else {
                Ok((OutState { out: copy_match(m.out, m.pos, offset, length), pos: m.pos + length, r: r2 }, q3))
            },
        },
    }
}

/// Decodes one main tree symbol at stream position `p` and writes what it
/// stands for: a literal byte (symbols below 256), or a match.
pub open spec fn decode_token(
    m: OutState,
    data: Seq<u8>,
    start: int,
    p: int,
    main: TreeModel,
    lengths: TreeModel,
    aligned: Option<TreeModel>,
) -> Result<(OutState, int), (EnactError, OutState, int)> {
    match huffman_decode(main.lens, main.codes, data, start, p) {
        None => Err((EnactError::CorruptedStream, m, p + 16)),
        Some((sym, k)) => if sym < 256 {
            Ok((OutState { out: m.out.update(m.pos, sym as u8), pos: m.pos + 1, r: m.r }, p + k))
        } else {
            decode_match(m, sym, data, start, p + k, lengths, aligned)
        },
    }
}

/// Decodes symbols until at least `take` bytes past `begin` are written;
/// on an error, the state where it happened.
pub open spec fn decode_run_spec(
    m: OutState,
    data: Seq<u8>,
    start: int,
    p: int,
    begin: int,
    take: int,
    main: TreeModel,
    lengths: TreeModel,
    aligned: Option<TreeModel>,
) -> Result<(OutState, int), (EnactError, OutState, int)>
    decreases gap(begin + take, m.pos),
{
    if m.pos - begin >= take {
        Ok((m, p))
    } else {
        match decode_token(m, data, start, p, main, lengths, aligned) {
            Err(err) => Err(err),
            Ok((m2, p2)) => if m2.pos > m.pos {
                decode_run_spec(m2, data, start, p2, begin, take, main, lengths, aligned)
            } else {
                Err((EnactError::CorruptedStream, m2, p2))
            },
        }
    }
}

/// A literal that the symbol at stream position `p` stands for falls inside
/// the window.
pub open spec fn token_fits(m: OutState, data: Seq<u8>, start: int, p: int, main: TreeModel) -> bool {
    match huffman_decode(main.lens, main.codes, data, start, p) {
        Some((sym, k)) => sym < 256 ==> 0 <= m.pos < m.out.len(),
        None => true,
    }
}

/// Every literal that `decode_run_spec` writes falls inside the window.
pub open spec fn decode_run_fits(
    m: OutState,
    data: Seq<u8>,
    start: int,
    p: int,
    begin: int,
    take: int,
    main: TreeModel,
    lengths: TreeModel,
    aligned: Option<TreeModel>,
) -> bool
    decreases gap(begin + take, m.pos),
{
    if m.pos - begin >= take {
        true
    } else {
        &&& token_fits(m, data, start, p, main)
        &&& match decode_token(m, data, start, p, main, lengths, aligned) {
            Err(_) => true,
            Ok((m2, p2)) => m2.pos > m.pos ==> decode_run_fits(m2, data, start, p2, begin, take, main, lengths, aligned),
        }
    }
}

/// One round of frame decoding: a new block header where the block is
/// done, then symbols up to the end of the block or of the frame. On an
/// error, the state where it happened.
#[verifier::opaque]
pub open spec fn frame_iter(m: LzxModel, data: Seq<u8>, start: int, p: int, frame_end: int) -> Result<(LzxModel, int), (EnactError, LzxModel, int)> {
    let hdr = if m.block_remaining == 0 {
        block_header(m, data, start, p)
    } else {
        Ok((m, p))
    };
    match hdr {
        Err(err) => Err(err),
        Ok((m1, p1)) => if m1.main_tree is None || m1.length_tree is None {
            Err((EnactError::NoTree, LzxModel { main_tree: None, ..m1 }, p1))
        } else {
            let take = if m1.block_remaining < frame_end - m1.pos {
                m1.block_remaining
            } else {
                frame_end - m1.pos
            };
            let aligned = if m1.block_type == Some(BlockType::Aligned) {
                m1.align_tree
            } else {
                None
            };
            let o = OutState { out: m1.out, pos: m1.pos, r: m1.r };
            match decode_run_spec(o, data, start, p1, m1.pos, take, m1.main_tree->Some_0, m1.length_tree->Some_0, aligned) {
                Err((e, o2, p2)) => Err((e, LzxModel { out: o2.out, pos: o2.pos, r: o2.r, ..m1 }, p2)),
                Ok((o2, p2)) => Ok((
                    LzxModel {
                        out: o2.out,
                        pos: o2.pos,
                        r: o2.r,
                        block_remaining: saturating_sub(m1.block_remaining, o2.pos - m1.pos),
                        ..m1
                    },
                    p2,
                )),
            }
        },
    }
}

/// Frame decoding rounds until the output reaches `frame_end`; on an
/// error, the state where it happened.
pub open spec fn frame_loop(m: LzxModel, data: Seq<u8>, start: int, p: int, frame_end: int) -> Result<(LzxModel, int), (EnactError, LzxModel, int)>
    decreases gap(frame_end, m.pos), gap(avail_bits(data, start), p),
{
    if m.pos >= frame_end {
        Ok((m, p))
    } else {
        match frame_iter(m, data, start, p, frame_end) {
            Err(err) => Err(err),
            Ok((m2, p2)) => if m2.pos > m.pos || (m2.pos == m.pos && p < p2 && p < avail_bits(data, start)) {
                frame_loop(m2, data, start, p2, frame_end)
            } else {
                Err((EnactError::CorruptedStream, m2, p2))
            },
        }
    }
}

/// Every literal of a round of frame decoding falls inside the window.
pub open spec fn frame_iter_fits(m: LzxModel, data: Seq<u8>, start: int, p: int, frame_end: int) -> bool {
    let hdr = if m.block_remaining == 0 {
        block_header(m, data, start, p)
    } else {
        Ok((m, p))
    };
    match hdr {
        Err(_) => true,
        Ok((m1, p1)) => if m1.main_tree is None || m1.length_tree is None {
            true
        } else {
            let take = if m1.block_remaining < frame_end - m1.pos {
                m1.block_remaining
            } else {
                frame_end - m1.pos
            };
            let aligned = if m1.block_type == Some(BlockType::Aligned) {
                m1.align_tree
            } else {
                None
            };
            let o = OutState { out: m1.out, pos: m1.pos, r: m1.r };
            decode_run_fits(o, data, start, p1, m1.pos, take, m1.main_tree->Some_0, m1.length_tree->Some_0, aligned)
        },
    }
}

/// Every literal of the rounds of `frame_loop` falls inside the window.
pub open spec fn frame_loop_fits(m: LzxModel, data: Seq<u8>, start: int, p: int, frame_end: int) -> bool
    decreases gap(frame_end, m.pos), gap(avail_bits(data, start), p),
{
    if m.pos >= frame_end {
        true
    } else {
        &&& frame_iter_fits(m, data, start, p, frame_end)
        &&& match frame_iter(m, data, start, p, frame_end) {
            Err(_) => true,
            Ok((m2, p2)) => (m2.pos > m.pos || (m2.pos == m.pos && p < p2 && p < avail_bits(data, start)))
                ==> frame_loop_fits(m2, data, start, p2, frame_end),
        }
    }
}

/// The decoder state and stream position after the stream header, which
/// comes before the first frame: one bit, and 32 bits of E8 size where it
/// is set.
pub open spec fn after_stream_header(m: LzxModel, data: Seq<u8>, start: int, p: int) -> (LzxModel, int) {
    if m.header_read {
        (m, p)
    } else if stream_value(data, start, p, 1) != 0 {
        (
            LzxModel {
                e8_size: (stream_value(data, start, p + 1, 16) as int * 65536 + stream_value(data, start, p + 17, 16) as int) as u32,
                header_read: true,
                ..m
            },
            p + 33,
        )
    } else {
        (LzxModel { header_read: true, ..m }, p + 1)
    }
}

/// Every literal that decoding a frame of `out_len` bytes at stream
/// position `p` writes falls inside the window.
pub open spec fn decode_frame_fits(m: LzxModel, data: Seq<u8>, start: int, p: int, out_len: int) -> bool {
    let (m1, p1) = after_stream_header(m, data, start, p);
    frame_loop_fits(m1, data, start, p1, m.pos + out_len)
}

/// Decoding a frame of `out_len` bytes at stream position `p`: the stream
/// header (one bit, and 32 bits of E8 size where it is set) before the first
/// frame, the frame's blocks, then padding to the next 16-bit boundary. On
/// an error, the state and stream position where it happened.
pub open spec fn decode_frame_spec(m: LzxModel, data: Seq<u8>, start: int, p: int, out_len: int) -> Result<(LzxModel, int), (EnactError, LzxModel, int)> {
    let (m1, p1) = after_stream_header(m, data, start, p);
    match frame_loop(m1, data, start, p1, m.pos + out_len) {
        Err(err) => Err(err),
        Ok((m2, p2)) => Ok((m2, align16(p2))),
    }
}

/// A symbol decoded inside the window keeps the window's size and moves
/// the position forward.
proof fn lemma_token_keeps_len(
    m: OutState,
    data: Seq<u8>,
    start: int,
    p: int,
    main: TreeModel,
    lengths: TreeModel,
    aligned: Option<TreeModel>,
)
    requires
        0 <= m.pos < m.out.len(),
    ensures
        decode_token(m, data, start, p, main, lengths, aligned) matches Ok((m2, p2)) ==> m2.out.len() == m.out.len()
            && m2.pos >= m.pos,
{
    lemma_decode_range(main.lens, main.codes, data, start, p);
    if let Some((sym, k)) = huffman_decode(main.lens, main.codes, data, start, p) {
        lemma_decode_range(lengths.lens, lengths.codes, data, start, p + k);
    }
}

/// A run that ends inside the window writes its literals inside it, and
/// keeps the window's size.
proof fn lemma_decode_run_fits(
    m: OutState,
    data: Seq<u8>,
    start: int,
    p: int,
    begin: int,
    take: int,
    main: TreeModel,
    lengths: TreeModel,
    aligned: Option<TreeModel>,
)
    requires
        0 <= m.pos,
        begin + take <= m.out.len(),
    ensures
        decode_run_fits(m, data, start, p, begin, take, main, lengths, aligned),
        decode_run_spec(m, data, start, p, begin, take, main, lengths, aligned) matches Ok((o, q)) ==> o.out.len()
            == m.out.len() && o.pos >= m.pos,
    decreases gap(begin + take, m.pos),
{
    if m.pos - begin < take {
        lemma_token_keeps_len(m, data, start, p, main, lengths, aligned);
        if let Ok((m2, p2)) = decode_token(m, data, start, p, main, lengths, aligned) {
            if m2.pos > m.pos {
                lemma_decode_run_fits(m2, data, start, p2, begin, take, main, lengths, aligned);
            }
        }
    }
}

/// A round of frame decoding that ends inside the window writes its
/// literals inside it, and keeps the window's size.
proof fn lemma_frame_iter_fits(m: LzxModel, data: Seq<u8>, start: int, p: int, frame_end: int)
    requires
        0 <= m.pos < frame_end,
        frame_end <= m.out.len(),
    ensures
        frame_iter_fits(m, data, start, p, frame_end),
        frame_iter(m, data, start, p, frame_end) matches Ok((m2, q)) ==> m2.out.len() == m.out.len() && m2.pos >= m.pos,
{
    reveal(frame_iter);
    let hdr = if m.block_remaining == 0 {
        block_header(m, data, start, p)
    } else {
        Ok((m, p))
    };
    if let Ok((m1, p1)) = hdr {
        assert(m1.out == m.out && m1.pos == m.pos);
        if !(m1.main_tree is None || m1.length_tree is None) {
            let take = if m1.block_remaining < frame_end - m1.pos {
                m1.block_remaining
            } else {
                frame_end - m1.pos
            };
            let aligned = if m1.block_type == Some(BlockType::Aligned) {
                m1.align_tree
            } else {
                None
            };
            let o = OutState { out: m1.out, pos: m1.pos, r: m1.r };
            lemma_decode_run_fits(o, data, start, p1, m1.pos, take, m1.main_tree->Some_0, m1.length_tree->Some_0, aligned);
        }
    }
}

/// Frame decoding that ends inside the window writes its literals inside it.
proof fn lemma_frame_loop_fits(m: LzxModel, data: Seq<u8>, start: int, p: int, frame_end: int)
    requires
        0 <= m.pos,
        frame_end <= m.out.len(),
    ensures
        frame_loop_fits(m, data, start, p, frame_end),
    decreases gap(frame_end, m.pos), gap(avail_bits(data, start), p),
{
    if m.pos < frame_end {
        lemma_frame_iter_fits(m, data, start, p, frame_end);
        if let Ok((m2, p2)) = frame_iter(m, data, start, p, frame_end) {
            if m2.pos > m.pos || (m2.pos == m.pos && p < p2 && p < avail_bits(data, start)) {
                lemma_frame_loop_fits(m2, data, start, p2, frame_end);
            }
        }
    }
}

/// A frame that ends inside the window writes every literal inside it.
pub proof fn lemma_decode_frame_fits(m: LzxModel, data: Seq<u8>, start: int, p: int, out_len: int)
    requires
        0 <= m.pos,
        m.pos + out_len <= m.out.len(),
    ensures
        decode_frame_fits(m, data, start, p, out_len),
{
    let (m1, p1) = after_stream_header(m, data, start, p);
    lemma_frame_loop_fits(m1, data, start, p1, m.pos + out_len);
}

pub open spec fn opt_tree_ref(t: Option<&Tree>) -> Option<TreeModel> {
    match t {
        Some(t) => Some(t@),
        None => None,
    }
}

/// Every length is at most 16.
pub open spec fn lens_bounded(lens: Seq<u8>) -> bool {
    forall|i: int| 0 <= i < lens.len() ==> lens[i] <= 16
}

/// A tree whose codes cover its lengths, with `n` symbols.
pub open spec fn tree_sized(t: Option<TreeModel>, n: int) -> bool {
    t matches Some(t) ==> t.lens.len() == n && t.codes.len() == n
}

/// The well-formed decoder states.
pub open spec fn model_wf(m: LzxModel) -> bool {
    &&& 0 <= m.pos <= m.out.len()
    &&& m.r.len() == 3
    &&& m.r[0] >= 1 && m.r[1] >= 1 && m.r[2] >= 1
    &&& 256 <= m.main_elements <= 656
    &&& m.main_lens.len() == m.main_elements + 64
    &&& m.length_lens.len() == 313
    &&& m.aligned_lens.len() == 8
    &&& lens_bounded(m.main_lens)
    &&& lens_bounded(m.length_lens)
    &&& lens_bounded(m.aligned_lens)
    &&& tree_sized(m.main_tree, m.main_elements)
    &&& tree_sized(m.length_tree, 249)
    &&& tree_sized(m.align_tree, 8)
    &&& m.block_remaining >= 0
}

/// Stream bits past the last whole word are zero, so a nonzero value was
/// read before the end of the words.
pub proof fn lemma_nonzero_before_end(data: Seq<u8>, start: int, p: int, n: nat)
    requires
        0 <= start,
        0 <= p,
        stream_value(data, start, p, n) != 0,
    ensures
        p < avail_bits(data, start),
    decreases n,
{
    if p >= avail_bits(data, start) {
        lemma_zero_past_end(data, start, p, n);
    }
}

/// Past the last whole word the stream reads as zeros.
pub proof fn lemma_zero_past_end(data: Seq<u8>, start: int, p: int, n: nat)
    requires
        0 <= start,
        0 <= p,
        p >= avail_bits(data, start),
    ensures
        stream_value(data, start, p, n) == 0,
    decreases n,
{
    if n > 0 {
        lemma_zero_past_end(data, start, p, (n - 1) as nat);
        let i = p + n - 1;
        assert(!(0 <= i && crate::bit_reader::has_word(data, start, i / 16))) by {
            if start + 2 <= data.len() {
                let w = (data.len() - start) / 2;
                assert(i >= 16 * w);
                assert(i / 16 >= w) by {
                    vstd::arithmetic::div_mod::lemma_div_is_ordered(16 * w, i, 16);
                    vstd::arithmetic::div_mod::lemma_div_multiples_vanish(w, 16);
                }
            }
        }
        assert(stream_bit(data, start, i) == 0);
        assert((0u32 << 1u32) | 0u32 == 0u32) by (bit_vector);
    }
}

proof fn lemma_position_base_bound(slot: int)
    requires
        0 <= slot <= 51,
    ensures
        slot <= position_base(slot) <= slot * 131072,
    decreases slot,
{
    if slot > 0 {
        lemma_position_base_bound(slot - 1);
        let e = extra_bits(slot - 1);
        vstd::arithmetic::power2::lemma2_to64();
        if e < 17 {
            vstd::arithmetic::power2::lemma_pow2_strictly_increases(e as nat, 17);
        }
        vstd::arithmetic::power2::lemma_pow2_pos(e as nat);
    }
}

fn extra_bits_of(slot: usize) -> (e: u32)
    requires
        slot < 51,
    ensures
        e == extra_bits(slot as int),
        e <= 17,
{
    if slot < 2 {
        0
    } else if slot / 2 - 1 > 17 {
        17
    } else {
        (slot / 2 - 1) as u32
    }
}

/// The base offsets of the 51 position slots.
fn position_base_table() -> (t: Vec<u32>)
    ensures
        t@.len() == 51,
        forall|i: int| 0 <= i < 51 ==> t@[i] == position_base(i),
{
    let mut t: Vec<u32> = Vec::new();
    let mut acc: u32 = 0;
    let mut i: usize = 0;
    while i < 51
        invariant
            0 <= i <= 51,
            t@.len() == i,
            acc == position_base(i as int),
            forall|j: int| 0 <= j < i ==> t@[j] == position_base(j),
        decreases 51 - i,
    {
        t.push(acc);
        let e = extra_bits_of(i);
        proof {
            lemma_position_base_bound(i as int + 1);
            vstd::arithmetic::power2::lemma_pow2_pos(e as nat);
            vstd::arithmetic::power2::lemma2_to64();
            if e < 17 {
                vstd::arithmetic::power2::lemma_pow2_strictly_increases(e as nat, 17);
            }
            vstd::bits::lemma_u32_shl_is_mul(1, e);
        }
        acc = acc + (1u32 << e);
        i = i + 1;
    }
    t
}

/// A fresh decoder for a window of `window_bits` bits and `out_len` bytes
/// of output, all `0xDC` until decoded.
pub open spec fn initial_model(window_bits: int, out_len: int) -> LzxModel {
    LzxModel {
        out: Seq::new(out_len as nat, |i: int| 0xDCu8),
        pos: 0,
        e8_size: 0,
        r: seq![1u32, 1u32, 1u32],
        main_elements: main_elements_for(window_bits),
        header_read: false,
        main_lens: Seq::new((main_elements_for(window_bits) + 64) as nat, |i: int| 0u8),
        length_lens: Seq::new(313, |i: int| 0u8),
        aligned_lens: Seq::new(8, |i: int| 0u8),
        main_tree: None,
        length_tree: None,
        align_tree: None,
        block_remaining: 0,
        block_type: None,
    }
}

/// A decoder for LZX compressed data: Huffman-coded literals and matches
/// over an output window of a fixed size.
pub struct LZXDecoder {
    out: Vec<u8>,
    pos: usize,
    e8_size: u32,
    r: Vec<u32>,
    main_elements: u16,
    header_read: bool,
    main_lens: Vec<u8>,
    length_lens: Vec<u8>,
    aligned_lens: Vec<u8>,
    main_tree: Option<Tree>,
    length_tree: Option<Tree>,
    align_tree: Option<Tree>,
    block_remaining: usize,
    block_type: Option<BlockType>,
}

impl View for LZXDecoder {
    type V = LzxModel;

    closed spec fn view(&self) -> LzxModel {
        LzxModel {
            out: self.out@,
            pos: self.pos as int,
            e8_size: self.e8_size,
            r: self.r@,
            main_elements: self.main_elements as int,
            header_read: self.header_read,
            main_lens: self.main_lens@,
            length_lens: self.length_lens@,
            aligned_lens: self.aligned_lens@,
            main_tree: opt_tree(self.main_tree),
            length_tree: opt_tree(self.length_tree),
            align_tree: opt_tree(self.align_tree),
            block_remaining: self.block_remaining as int,
            block_type: self.block_type,
        }
    }
}

impl LZXDecoder {
    pub open spec fn wf(&self) -> bool {
        model_wf(self@)
    }

    /// A decoder for a window of `window_bits` bits (15 to 21) that
    /// decodes `out_len` bytes; the output starts out as `0xDC` bytes.
    pub fn new(window_bits: u8, out_len: usize) -> (r: Result<Self, EnactError>)
        ensures
            r is Ok <==> 15 <= window_bits <= 21,
            r matches Err(e) ==> e == (EnactError::InvalidWindowSize { size: window_bits }),
            r matches Ok(d) ==> d.wf() && d@ == initial_model(window_bits as int, out_len as int),
    {
        if window_bits < 15 || window_bits > 21 {
            return Err(EnactError::InvalidWindowSize { size: window_bits });
        }
        let posn_slots: u16 = if window_bits == 20 {
            42
        } else if window_bits == 21 {
            50
        } else {
            (window_bits as u16) << 1u16
        };
        proof {
            let w = window_bits as u16;
            assert(w <= 21 ==> w << 1u16 == 2 * w) by (bit_vector);
        }
        let main_elements: u16 = 256 + 8 * posn_slots;
        let out = vec![0xDCu8; out_len];
        let main_lens = vec![0u8; (main_elements + 64) as usize];
        let length_lens = vec![0u8; 249 + 64];
        let r = Ok(Self {
            out,
            pos: 0,
            e8_size: 0,
            r: vec![1u32, 1u32, 1u32],
            main_elements,
            header_read: false,
            main_lens,
            length_lens,
            aligned_lens: vec![0u8; 8],
            block_remaining: 0,
            block_type: None,
            main_tree: None,
            length_tree: None,
            align_tree: None,
        });
        proof {
            let d = r->Ok_0;
            assert(d@.r =~= seq![1u32, 1u32, 1u32]);
            assert(main_elements as int == main_elements_for(window_bits as int));
            assert(d@.out =~= Seq::new(out_len as nat, |i: int| 0xDCu8));
            assert(d@.main_lens =~= Seq::new((main_elements_for(window_bits as int) + 64) as nat, |i: int| 0u8));
            assert(d@.length_lens =~= Seq::new(313, |i: int| 0u8));
            assert(d@.aligned_lens =~= Seq::new(8, |i: int| 0u8));
        }
        r
    }

    fn read_block_prefix(br: &mut BitReader) -> (r: Result<(BlockType, usize), EnactError>)
        requires
            old(br).wf(),
        ensures
            final(br).wf(),
            final(br).stream_data() == old(br).stream_data(),
            final(br).stream_start() == old(br).stream_start(),
            match block_prefix(old(br).stream_data(), old(br).stream_start(), old(br).bit_pos()) {
                Ok((bt, len, q)) => r == Ok::<(BlockType, usize), EnactError>((bt, len as usize)) && len < 0x100_0000
                    && final(br).bit_pos() == q,
                Err((e, q)) => r == Err::<(BlockType, usize), EnactError>(e) && final(br).bit_pos() == q,
            },
    {
        let ghost data = br.stream_data();
        let ghost s0 = br.stream_start();
        let ghost p0 = br.bit_pos();
        let t = br.bits(3)?;
        let block_type = if t == 1 {
            BlockType::Verbatim
        } else if t == 2 {
            BlockType::Aligned
        } else if t == 3 {
            BlockType::Uncompressed
        } else {
            return Err(EnactError::BadLZXBlockType { t });
        };
        let hi = br.bits(8)?;
        let lo = br.bits(16)?;
        proof {
            lemma_value_bound(data, s0, p0 + 3, 8);
            lemma_value_bound(data, s0, p0 + 11, 16);
            assert(hi < (1u32 << 8u32) && lo < (1u32 << 16u32) ==> (hi << 16u32) | lo == hi * 65536 + lo) by (bit_vector);
            assert(1u32 << 8u32 == 256 && 1u32 << 16u32 == 65536) by (bit_vector);
        }
        let block_length = ((hi << 16) | lo) as usize;
        if t == 3 {
            return Err(EnactError::NotImplemented);
        }
        Ok((block_type, block_length))
    }

    fn read_aligned_tree(&mut self, br: &mut BitReader) -> (r: Result<(), EnactError>)
        requires
            model_wf(old(self)@),
            old(br).wf(),
        ensures
            model_wf(final(self)@),
            final(br).wf(),
            final(br).stream_data() == old(br).stream_data(),
            final(br).stream_start() == old(br).stream_start(),
            r is Ok,
            final(self)@ == (LzxModel {
                aligned_lens: aligned_lens_at(old(br).stream_data(), old(br).stream_start(), old(br).bit_pos()),
                align_tree: Some(tree_model(aligned_lens_at(old(br).stream_data(), old(br).stream_start(), old(br).bit_pos()))),
                ..old(self)@
            }),
            final(br).bit_pos() == old(br).bit_pos() + 24,
    {
        let ghost data = br.stream_data();
        let ghost s0 = br.stream_start();
        let ghost q = br.bit_pos();
        let mut i: usize = 0;
        while i < 8
            invariant
                br.wf(),
                br.stream_data() == data,
                br.stream_start() == s0,
                0 <= i <= 8,
                br.bit_pos() == q + 3 * i,
                self.aligned_lens@.len() == 8,
                lens_bounded(self.aligned_lens@),
                forall|j: int| 0 <= j < i ==> self.aligned_lens@[j] == stream_value(data, s0, q + 3 * j, 3) as u8,
                self@ == (LzxModel { aligned_lens: self.aligned_lens@, ..old(self)@ }),
            decreases 8 - i,
        {
            let v = br.bits(3)?;
            proof {
                lemma_value_bound(data, s0, q + 3 * i, 3);
                assert(1u32 << 3u32 == 8) by (bit_vector);
            }
            self.aligned_lens.set(i, v as u8);
            i = i + 1;
        }
        assert(self.aligned_lens@ =~= aligned_lens_at(data, s0, q));
        let t = Tree::from_lengths(self.aligned_lens.as_slice());
        assert(t.codes@ =~= canonical_codes(self.aligned_lens@));
        self.align_tree = Some(t);
        Ok(())
    }

    #[verifier::rlimit(40)]
    fn read_block_trees(&mut self, br: &mut BitReader) -> (r: Result<(), EnactError>)
        requires
            model_wf(old(self)@),
            old(br).wf(),
        ensures
            model_wf(final(self)@),
            final(br).wf(),
            final(br).stream_data() == old(br).stream_data(),
            final(br).stream_start() == old(br).stream_start(),
            final(self)@ == (LzxModel {
                main_lens: final(self)@.main_lens,
                length_lens: final(self)@.length_lens,
                main_tree: final(self)@.main_tree,
                length_tree: final(self)@.length_tree,
                ..old(self)@
            }),
            r is Ok ==> final(br).bit_pos() >= old(br).bit_pos(),
            match block_trees(old(self)@, old(br).stream_data(), old(br).stream_start(), old(br).bit_pos()) {
                Ok((m, q)) => r is Ok && final(self)@ == m && final(br).bit_pos() == q,
                Err((e, m, q)) => r == Err::<(), EnactError>(e) && final(self)@ == m && final(br).bit_pos() == q,
            },
    {
        let ghost m0 = self@;
        let ghost data = br.stream_data();
        let ghost s0 = br.stream_start();
        let ghost p0 = br.bit_pos();
        let me = self.main_elements as usize;
        proof {
            lemma_read_lengths_fits(data, s0, p0, m0.main_lens, 0, 256);
        }
        Tree::read_lengths(br, self.main_lens.as_mut_slice(), 0, 256)?;
        let ghost p1 = br.bit_pos();
        let ghost ml1 = self.main_lens@;
        assert(read_lengths_spec(data, s0, p0, m0.main_lens, 0, 256) == Ok::<(Seq<u8>, int), (EnactError, Seq<u8>, int)>((ml1, p1)));
        proof {
            lemma_read_lengths_fits(data, s0, p1, ml1, 256, me as int);
        }
        Tree::read_lengths(br, self.main_lens.as_mut_slice(), 256, me)?;
        let ghost p2 = br.bit_pos();
        let ghost ml2 = self.main_lens@;
        assert(read_lengths_spec(data, s0, p1, ml1, 256, me as int) == Ok::<(Seq<u8>, int), (EnactError, Seq<u8>, int)>((ml2, p2)));
        proof {
            lemma_read_lengths_fits(data, s0, p2, m0.length_lens, 0, 249);
        }
        Tree::read_lengths(br, self.length_lens.as_mut_slice(), 0, 249)?;
        let ghost p3 = br.bit_pos();
        let ghost ll = self.length_lens@;
        assert(read_lengths_spec(data, s0, p2, m0.length_lens, 0, 249) == Ok::<(Seq<u8>, int), (EnactError, Seq<u8>, int)>((ll, p3)));
        let main_tree = Tree::from_lengths(vstd::slice::slice_subrange(self.main_lens.as_slice(), 0, me));
        let length_tree = Tree::from_lengths(vstd::slice::slice_subrange(self.length_lens.as_slice(), 0, 249));
        assert(main_tree.codes@ =~= canonical_codes(self.main_lens@.subrange(0, me as int)));
        assert(length_tree.codes@ =~= canonical_codes(self.length_lens@.subrange(0, 249)));
        self.main_tree = Some(main_tree);
        self.length_tree = Some(length_tree);
        Ok(())
    }

    fn read_block_header(&mut self, br: &mut BitReader) -> (r: Result<(), EnactError>)
        requires
            model_wf(old(self)@),
            old(br).wf(),
        ensures
            model_wf(final(self)@),
            final(br).wf(),
            final(br).stream_data() == old(br).stream_data(),
            final(br).stream_start() == old(br).stream_start(),
            final(self)@.out == old(self)@.out,
            final(self)@.pos == old(self)@.pos,
            final(self)@.r == old(self)@.r,
            final(self)@.main_elements == old(self)@.main_elements,
            final(self)@.e8_size == old(self)@.e8_size,
            final(self)@.header_read == old(self)@.header_read,
            final(self)@.block_remaining == old(self)@.block_remaining || r is Ok,
            r is Ok ==> final(br).bit_pos() >= old(br).bit_pos() + 27 && (stream_value(
                old(br).stream_data(),
                old(br).stream_start(),
                old(br).bit_pos(),
                3,
            ) == 1 || stream_value(old(br).stream_data(), old(br).stream_start(), old(br).bit_pos(), 3) == 2),
            match block_header(old(self)@, old(br).stream_data(), old(br).stream_start(), old(br).bit_pos()) {
                Ok((m, q)) => r is Ok && final(self)@ == m && final(br).bit_pos() == q,
                Err((e, m, q)) => r == Err::<(), EnactError>(e) && final(self)@ == m && final(br).bit_pos() == q,
            },
    {
        let (block_type, block_length) = Self::read_block_prefix(br)?;
        if block_type == BlockType::Aligned {
            let _ = self.read_aligned_tree(br);
        }
        self.read_block_trees(br)?;
        self.block_remaining = block_length;
        self.block_type = Some(block_type);
        Ok(())
    }

    /// The decoded part of the state.
    pub open spec fn out_state(&self) -> OutState {
        OutState { out: self@.out, pos: self@.pos, r: self@.r }
    }

    proof fn lemma_copy_step(o0: Seq<u8>, out: Seq<u8>, p0: int, offset: int, i: int)
        requires
            1 <= offset <= p0,
            0 <= i,
            p0 + i < o0.len(),
            out.len() == o0.len(),
            forall|j: int| 0 <= j < o0.len() ==> out[j] == if p0 <= j < p0 + i {
                o0[p0 - offset + (j - p0) % offset]
            } else {
                o0[j]
            },
        ensures
            out[p0 + i - offset] == o0[p0 - offset + i % offset],
    {
        let k = p0 + i - offset;
        if i < offset {
            vstd::arithmetic::div_mod::lemma_small_mod(i as nat, offset as nat);
        } else {
            vstd::arithmetic::div_mod::lemma_mod_sub_multiples_vanish(i, offset);
            assert(k - p0 == -offset + i);
        }
    }

    fn copy_back(&mut self, offset: usize, length: usize)
        requires
            model_wf(old(self)@),
            1 <= offset <= old(self)@.pos,
            old(self)@.pos + length <= old(self)@.out.len(),
        ensures
            model_wf(final(self)@),
            final(self)@ == (LzxModel {
                out: copy_match(old(self)@.out, old(self)@.pos, offset as int, length as int),
                pos: old(self)@.pos + length,
                ..old(self)@
            }),
    {
        let ol = self.out.len();
        let ghost o0 = self.out@;
        let ghost pp = self.pos as int;
        let mut i: usize = 0;
        while i < length
            invariant
                1 <= offset <= pp,
                ol == o0.len(),
                o0 == old(self)@.out,
                pp == old(self)@.pos,
                model_wf(old(self)@),
                self@ == (LzxModel { out: self.out@, pos: self.pos as int, ..old(self)@ }),
                pp + length <= o0.len(),
                0 <= i <= length,
                self.out@.len() == o0.len(),
                self.pos == pp + i,
                forall|j: int| 0 <= j < o0.len() ==> self.out@[j] == if pp <= j < pp + i {
                    o0[pp - offset + (j - pp) % (offset as int)]
                } else {
                    o0[j]
                },
            decreases length - i,
        {
            proof {
                Self::lemma_copy_step(o0, self.out@, pp, offset as int, i as int);
            }
            let b = self.out[self.pos - offset];
            self.out.set(self.pos, b);
            self.pos = self.pos + 1;
            i = i + 1;
        }
        assert(self.out@ =~= copy_match(o0, pp, offset as int, length as int));
    }

    #[verifier::rlimit(30)]
    fn read_offset(&mut self, br: &mut BitReader, position_slot: usize, aligned: Option<&Tree>, table: &Vec<u32>) -> (r: Result<usize, EnactError>)
        requires
            model_wf(old(self)@),
            old(br).wf(),
            position_slot < 51,
            aligned matches Some(t) ==> t.lens@.len() == 8 && t.codes@.len() == 8,
            table@.len() == 51,
            forall|i: int| 0 <= i < 51 ==> table@[i] == position_base(i),
        ensures
            model_wf(final(self)@),
            final(br).wf(),
            final(br).stream_data() == old(br).stream_data(),
            final(br).stream_start() == old(br).stream_start(),
            final(self)@ == (LzxModel { r: final(self)@.r, ..old(self)@ }),
            r is Ok ==> final(br).bit_pos() >= old(br).bit_pos() && r->Ok_0 >= 1,
            match match_offset(old(self)@.r, position_slot as int, opt_tree_ref(aligned), old(br).stream_data(), old(br).stream_start(), old(br).bit_pos()) {
                Ok((offset, r2, q)) => r == Ok::<usize, EnactError>(offset as usize) && 1 <= offset <= u32::MAX
                    && final(self)@.r == r2 && final(br).bit_pos() == q,
                Err((e, q)) => r == Err::<usize, EnactError>(e) && final(self)@.r == old(self)@.r && final(br).bit_pos() == q,
            },
    {
        let ghost data = br.stream_data();
        let ghost s0 = br.stream_start();
        let ghost q2 = br.bit_pos();
        if position_slot == 0 {
            Ok(self.r[0] as usize)
        } else if position_slot == 1 {
            let a = self.r[0];
            let b = self.r[1];
            self.r.set(0, b);
            self.r.set(1, a);
            assert(self.r@ =~= seq![old(self)@.r[1], old(self)@.r[0], old(self)@.r[2]]);
            Ok(b as usize)
        } else if position_slot == 2 {
            let a = self.r[0];
            let c = self.r[2];
            self.r.set(0, c);
            self.r.set(2, a);
            assert(self.r@ =~= seq![old(self)@.r[2], old(self)@.r[1], old(self)@.r[0]]);
            Ok(c as usize)
        } else {
            let extra = extra_bits_of(position_slot);
            let verbatim: u32 = if extra >= 3 && aligned.is_some() {
                let tree = aligned.unwrap();
                let hi = br.bits(extra - 3)?;
                let ghost q3 = br.bit_pos();
                proof {
                    lemma_value_bound(data, s0, q2, (extra - 3) as nat);
                    lemma_decode_range(tree.lens@, tree.codes@, data, s0, q3);
                }
                let lo = tree.decode(br)?;
                proof {
                    let lo32 = lo as u32;
                    assert(1u32 << ((extra - 3) as u32) <= 0x4000u32) by (bit_vector)
                        requires
                            extra - 3 <= 14,
                    ;
                    assert(hi < 0x4000u32 && lo32 < 8 ==> (hi << 3u32) | lo32 == hi * 8 + lo32) by (bit_vector);
                }
                (hi << 3) | (lo as u32)
            } else {
                let v = br.bits(extra)?;
                proof {
                    lemma_value_bound(data, s0, q2, extra as nat);
                    assert(1u32 << (extra as u32) <= 0x20000u32) by (bit_vector)
                        requires
                            extra <= 17,
                    ;
                }
                v
            };
            proof {
                lemma_position_base_bound(position_slot as int);
            }
            let offset = table[position_slot] as usize + verbatim as usize - 2;
            let a = self.r[0];
            let b = self.r[1];
            self.r.set(2, b);
            self.r.set(1, a);
            self.r.set(0, offset as u32);
            assert(self.r@ =~= seq![offset as u32, old(self)@.r[0], old(self)@.r[1]]);
            Ok(offset)
        }
    }

    #[verifier::rlimit(40)]
    fn read_match(
        &mut self,
        br: &mut BitReader,
        sym: u16,
        lengths: &Tree,
        aligned: Option<&Tree>,
        table: &Vec<u32>,
    ) -> (r: Result<(), EnactError>)
        requires
            model_wf(old(self)@),
            old(br).wf(),
            256 <= sym < old(self)@.main_elements,
            lengths.lens@.len() == 249,
            lengths.codes@.len() == 249,
            aligned matches Some(t) ==> t.lens@.len() == 8 && t.codes@.len() == 8,
            table@.len() == 51,
            forall|i: int| 0 <= i < 51 ==> table@[i] == position_base(i),
        ensures
            model_wf(final(self)@),
            final(br).wf(),
            final(br).stream_data() == old(br).stream_data(),
            final(br).stream_start() == old(br).stream_start(),
            final(self)@ == (LzxModel { out: final(self)@.out, pos: final(self)@.pos, r: final(self)@.r, ..old(self)@ }),
            final(self)@.out.len() == old(self)@.out.len(),
            final(self)@.pos >= old(self)@.pos,
            forall|j: int| 0 <= j < old(self)@.pos ==> final(self)@.out[j] == old(self)@.out[j],
            r is Ok ==> final(self)@.pos > old(self)@.pos && final(br).bit_pos() >= old(br).bit_pos(),
            match decode_match(
                old(self).out_state(),
                sym as int,
                old(br).stream_data(),
                old(br).stream_start(),
                old(br).bit_pos(),
                lengths@,
                opt_tree_ref(aligned),
            ) {
                Ok((o, q)) => r is Ok && final(self).out_state() == o && final(br).bit_pos() == q,
                Err((e, o, q)) => r == Err::<(), EnactError>(e) && final(self).out_state() == o && final(br).bit_pos() == q,
            },
    {
        let ghost data = br.stream_data();
        let ghost s0 = br.stream_start();
        let ghost q1 = br.bit_pos();
        let x: u16 = sym - 256;
        proof {
            assert(x & 7u16 == x % 8 && x >> 3u16 == x / 8) by (bit_vector);
        }
        let length_header = (x & 7) as usize;
        let position_slot = (x >> 3) as usize;
        let length: usize = if length_header == 7 {
            proof {
                lemma_decode_range(lengths.lens@, lengths.codes@, data, s0, q1);
            }
            let l = lengths.decode(br)?;
            l as usize + 9
        } else {
            length_header + 2
        };
        let ghost q2 = br.bit_pos();
        assert(match_length(length_header as int, lengths@, data, s0, q1) == Ok::<(int, int), (EnactError, int)>((length as int, q2)));
        let offset = self.read_offset(br, position_slot, aligned, table)?;
        if offset > self.pos || length > self.out.len() - self.pos {
            return Err(EnactError::CorruptedStream);
        }
        self.copy_back(offset, length);
        Ok(())
    }

    fn decode_token(
        &mut self,
        br: &mut BitReader,
        main: &Tree,
        lengths: &Tree,
        aligned: Option<&Tree>,
        table: &Vec<u32>,
    ) -> (r: Result<(), EnactError>)
        requires
            model_wf(old(self)@),
            old(br).wf(),
            token_fits(old(self).out_state(), old(br).stream_data(), old(br).stream_start(), old(br).bit_pos(), main@),
            main.lens@.len() == old(self)@.main_elements,
            main.codes@.len() == main.lens@.len(),
            lengths.lens@.len() == 249,
            lengths.codes@.len() == 249,
            aligned matches Some(t) ==> t.lens@.len() == 8 && t.codes@.len() == 8,
            table@.len() == 51,
            forall|i: int| 0 <= i < 51 ==> table@[i] == position_base(i),
        ensures
            model_wf(final(self)@),
            final(br).wf(),
            final(br).stream_data() == old(br).stream_data(),
            final(br).stream_start() == old(br).stream_start(),
            final(self)@ == (LzxModel { out: final(self)@.out, pos: final(self)@.pos, r: final(self)@.r, ..old(self)@ }),
            final(self)@.out.len() == old(self)@.out.len(),
            final(self)@.pos >= old(self)@.pos,
            forall|j: int| 0 <= j < old(self)@.pos ==> final(self)@.out[j] == old(self)@.out[j],
            r is Ok ==> final(self)@.pos > old(self)@.pos && final(br).bit_pos() >= old(br).bit_pos(),
            match decode_token(
                old(self).out_state(),
                old(br).stream_data(),
                old(br).stream_start(),
                old(br).bit_pos(),
                main@,
                lengths@,
                opt_tree_ref(aligned),
            ) {
                Ok((o, q)) => r is Ok && final(self).out_state() == o && final(br).bit_pos() == q,
                Err((e, o, q)) => r == Err::<(), EnactError>(e) && final(self).out_state() == o && final(br).bit_pos() == q,
            },
    {
        let ghost data = br.stream_data();
        let ghost s0 = br.stream_start();
        let ghost p0 = br.bit_pos();
        proof {
            lemma_decode_range(main.lens@, main.codes@, data, s0, p0);
        }
        let sym = main.decode(br)?;
        let ol = self.out.len();
        if sym < 256 {
            self.out.set(self.pos, sym as u8);
            self.pos = self.pos + 1;
            return Ok(());
        }
        self.read_match(br, sym, lengths, aligned, table)
    }

    fn decode_run(
        &mut self,
        br: &mut BitReader,
        take: usize,
        main: &Tree,
        lengths: &Tree,
        aligned: Option<&Tree>,
        table: &Vec<u32>,
    ) -> (r: Result<(), EnactError>)
        requires
            model_wf(old(self)@),
            old(br).wf(),
            decode_run_fits(
                old(self).out_state(),
                old(br).stream_data(),
                old(br).stream_start(),
                old(br).bit_pos(),
                old(self)@.pos,
                take as int,
                main@,
                lengths@,
                opt_tree_ref(aligned),
            ),
            main.lens@.len() == old(self)@.main_elements,
            main.codes@.len() == main.lens@.len(),
            lengths.lens@.len() == 249,
            lengths.codes@.len() == 249,
            aligned matches Some(t) ==> t.lens@.len() == 8 && t.codes@.len() == 8,
            table@.len() == 51,
            forall|i: int| 0 <= i < 51 ==> table@[i] == position_base(i),
        ensures
            model_wf(final(self)@),
            final(br).wf(),
            final(br).stream_data() == old(br).stream_data(),
            final(br).stream_start() == old(br).stream_start(),
            final(self)@ == (LzxModel { out: final(self)@.out, pos: final(self)@.pos, r: final(self)@.r, ..old(self)@ }),
            final(self)@.out.len() == old(self)@.out.len(),
            final(self)@.pos >= old(self)@.pos,
            forall|j: int| 0 <= j < old(self)@.pos ==> final(self)@.out[j] == old(self)@.out[j],
            r is Ok ==> final(self)@.pos >= old(self)@.pos + take && final(br).bit_pos() >= old(br).bit_pos(),
            match decode_run_spec(
                old(self).out_state(),
                old(br).stream_data(),
                old(br).stream_start(),
                old(br).bit_pos(),
                old(self)@.pos,
                take as int,
                main@,
                lengths@,
                opt_tree_ref(aligned),
            ) {
                Ok((o, q)) => r is Ok && final(self).out_state() == o && final(br).bit_pos() == q,
                Err((e, o, q)) => r == Err::<(), EnactError>(e) && final(self).out_state() == o && final(br).bit_pos() == q,
            },
    {
        let ghost data = br.stream_data();
        let ghost s0 = br.stream_start();
        let ghost p0 = br.bit_pos();
        let start = self.pos;
        while self.pos - start < take
            invariant
                model_wf(self@),
                br.wf(),
                br.stream_data() == data,
                br.stream_start() == s0,
                data == old(br).stream_data(),
                s0 == old(br).stream_start(),
                p0 == old(br).bit_pos(),
                model_wf(old(self)@),
                start == old(self)@.pos,
                decode_run_fits(self.out_state(), data, s0, br.bit_pos(), start as int, take as int, main@, lengths@, opt_tree_ref(aligned)),
                self@.pos >= start,
                br.bit_pos() >= p0,
                main.lens@.len() == old(self)@.main_elements,
                main.codes@.len() == main.lens@.len(),
                lengths.lens@.len() == 249,
                lengths.codes@.len() == 249,
                aligned matches Some(t) ==> t.lens@.len() == 8 && t.codes@.len() == 8,
                table@.len() == 51,
                forall|i: int| 0 <= i < 51 ==> table@[i] == position_base(i),
                self@ == (LzxModel { out: self@.out, pos: self@.pos, r: self@.r, ..old(self)@ }),
                self@.out.len() == old(self)@.out.len(),
                forall|j: int| 0 <= j < old(self)@.pos ==> self@.out[j] == old(self)@.out[j],
                decode_run_spec(self.out_state(), data, s0, br.bit_pos(), start as int, take as int, main@, lengths@, opt_tree_ref(aligned))
                    == decode_run_spec(old(self).out_state(), data, s0, p0, start as int, take as int, main@, lengths@, opt_tree_ref(aligned)),
            decreases gap(start + take, self@.pos),
        {
            self.decode_token(br, main, lengths, aligned, table)?;
        }
        Ok(())
    }

    #[verifier::rlimit(40)]
    fn frame_step(&mut self, br: &mut BitReader, frame_end: usize, table: &Vec<u32>) -> (r: Result<(), EnactError>)
        requires
            model_wf(old(self)@),
            old(br).wf(),
            old(self)@.pos < frame_end,
            frame_iter_fits(old(self)@, old(br).stream_data(), old(br).stream_start(), old(br).bit_pos(), frame_end as int),
            table@.len() == 51,
            forall|i: int| 0 <= i < 51 ==> table@[i] == position_base(i),
        ensures
            model_wf(final(self)@),
            final(br).wf(),
            final(br).stream_data() == old(br).stream_data(),
            final(br).stream_start() == old(br).stream_start(),
            final(self)@.out.len() == old(self)@.out.len(),
            final(self)@.main_elements == old(self)@.main_elements,
            final(self)@.header_read == old(self)@.header_read,
            final(self)@.e8_size == old(self)@.e8_size,
            final(self)@.pos >= old(self)@.pos,
            forall|j: int| 0 <= j < old(self)@.pos ==> final(self)@.out[j] == old(self)@.out[j],
            r is Ok ==> final(self)@.pos > old(self)@.pos || (final(self)@.pos == old(self)@.pos
                && old(br).bit_pos() < final(br).bit_pos() && old(br).bit_pos() < avail_bits(
                old(br).stream_data(),
                old(br).stream_start(),
            )),
            match frame_iter(old(self)@, old(br).stream_data(), old(br).stream_start(), old(br).bit_pos(), frame_end as int) {
                Ok((m, q)) => r is Ok && final(self)@ == m && final(br).bit_pos() == q,
                Err((e, m, q)) => r == Err::<(), EnactError>(e) && final(self)@ == m && final(br).bit_pos() == q,
            },
    {
        let ghost data = br.stream_data();
        let ghost s0 = br.stream_start();
        proof {
            br.lemma_positions();
        }
        let ghost mb = self@;
        let ghost pb = br.bit_pos();
        if self.block_remaining == 0 {
            match self.read_block_header(br) {
                Ok(()) => {},
                Err(e) => {
                    proof {
                        reveal(frame_iter);
                    }
                    return Err(e);
                },
            }
        }
        let ghost mh = self@;
        let ghost ph = br.bit_pos();
        let take = if self.block_remaining < frame_end - self.pos {
            self.block_remaining
        } else {
            frame_end - self.pos
        };
        let start = self.pos;
        let main = match self.main_tree.take() {
            Some(t) => t,
            None => {
                proof {
                    reveal(frame_iter);
                }
                return Err(EnactError::NoTree);
            },
        };
        let lengths = match self.length_tree.take() {
            Some(t) => t,
            None => {
                proof {
                    reveal(frame_iter);
                }
                return Err(EnactError::NoTree);
            },
        };
        let aligned = self.align_tree.take();
        let use_aligned = match self.block_type {
            Some(BlockType::Aligned) => true,
            _ => false,
        };
        let result = self.decode_run(
            br,
            take,
            &main,
            &lengths,
            if use_aligned {
                aligned.as_ref()
            } else {
                None
            },
            &table,
        );
        self.main_tree = Some(main);
        self.length_tree = Some(lengths);
        self.align_tree = aligned;
        if let Err(e) = result {
            proof {
                reveal(frame_iter);
            }
            return Err(e);
        }
        let done = self.pos - start;
        self.block_remaining = if self.block_remaining > done {
            self.block_remaining - done
        } else {
            0
        };
        proof {
            reveal(frame_iter);
            assert(frame_iter(mb, data, s0, pb, frame_end as int) == Ok::<(LzxModel, int), (EnactError, LzxModel, int)>((self@, br.bit_pos())));
            if mb.block_remaining == 0 {
                lemma_nonzero_before_end(data, s0, pb, 3);
            }
        }
        Ok(())
    }

    proof fn lemma_align16(p: int, q: int)
        requires
            q % 16 == 0,
            p <= q < p + 16,
        ensures
            q == align16(p),
    {
    }

    /// Decodes the next `out_len` bytes of output from the bit stream of
    /// one frame: the stream header before the first frame, block headers
    /// wherever a block ends, and Huffman-coded literals and matches; the
    /// bit reader is then aligned to a 16-bit boundary. A match may write
    /// past the end of the frame, never past the window. Bytes decoded
    /// before stay as they are. Every literal that the stream makes it write
    /// must fall inside the window (`lemma_decode_frame_fits` shows this of a
    /// frame that ends inside the window). On an error, the decoder and the
    /// bit reader stay as they were where the error came, unaligned.
    pub fn decode_frame(&mut self, br: &mut BitReader, out_len: usize) -> (r: Result<(), EnactError>)
        requires
            old(self).wf(),
            old(br).wf(),
            old(self)@.pos + out_len <= usize::MAX,
            decode_frame_fits(old(self)@, old(br).stream_data(), old(br).stream_start(), old(br).bit_pos(), out_len as int),
        ensures
            final(self).wf(),
            final(br).wf(),
            final(br).stream_data() == old(br).stream_data(),
            final(br).stream_start() == old(br).stream_start(),
            final(self)@.out.len() == old(self)@.out.len(),
            final(self)@.main_elements == old(self)@.main_elements,
            forall|j: int| 0 <= j < old(self)@.pos ==> final(self)@.out[j] == old(self)@.out[j],
            r is Ok ==> final(self)@.pos >= old(self)@.pos + out_len,
            r is Ok ==> final(self)@.header_read,
            old(self)@.header_read ==> final(self)@.e8_size == old(self)@.e8_size,
            match decode_frame_spec(old(self)@, old(br).stream_data(), old(br).stream_start(), old(br).bit_pos(), out_len as int) {
                Ok((m, q)) => r is Ok && final(self)@ == m && final(br).bit_pos() == q,
                Err((e, m, q)) => r == Err::<(), EnactError>(e) && final(self)@ == m && final(br).bit_pos() == q,
            },
    {
        let ghost data = br.stream_data();
        let ghost s0 = br.stream_start();
        let ghost p0 = br.bit_pos();
        let ghost m0 = self@;
        if !self.header_read {
            let b = br.bits(1)?;
            if b != 0 {
                let hi = br.bits(16)?;
                let lo = br.bits(16)?;
                proof {
                    lemma_value_bound(data, s0, p0 + 1, 16);
                    lemma_value_bound(data, s0, p0 + 17, 16);
                    assert(hi < (1u32 << 16u32) && lo < (1u32 << 16u32) ==> (hi << 16u32) | lo == hi * 65536 + lo) by (bit_vector);
                }
                self.e8_size = (hi << 16) | lo;
            }
            self.header_read = true;
        }
        let ghost m1 = self@;
        let ghost p1 = br.bit_pos();
        assert(after_stream_header(m0, data, s0, p0) == (m1, p1));
        proof {
            br.lemma_positions();
        }
        let ol = self.out.len();
        let frame_end = self.pos + out_len;
        assert(decode_frame_spec(m0, data, s0, p0, out_len as int) == match frame_loop(m1, data, s0, p1, frame_end as int) {
            Err(err) => Err(err),
            Ok((m2, p2)) => Ok::<(LzxModel, int), (EnactError, LzxModel, int)>((m2, align16(p2))),
        });
        let table = position_base_table();
        while self.pos < frame_end
            invariant
                model_wf(self@),
                br.wf(),
                br.stream_data() == data,
                br.stream_start() == s0,
                data == old(br).stream_data(),
                s0 == old(br).stream_start(),
                0 <= s0,
                0 <= br.bit_pos(),
                m0 == old(self)@,
                frame_end == m0.pos + out_len,
                frame_loop_fits(self@, data, s0, br.bit_pos(), frame_end as int),
                self@.out.len() == m0.out.len(),
                self@.main_elements == m0.main_elements,
                self@.header_read,
                m0.header_read ==> self@.e8_size == m0.e8_size,
                self@.pos >= m0.pos,
                forall|j: int| 0 <= j < m0.pos ==> self@.out[j] == m0.out[j],
                table@.len() == 51,
                forall|i: int| 0 <= i < 51 ==> table@[i] == position_base(i),
                frame_loop(self@, data, s0, br.bit_pos(), frame_end as int) == frame_loop(m1, data, s0, p1, frame_end as int),
                p0 == old(br).bit_pos(),
                decode_frame_spec(m0, data, s0, p0, out_len as int) == match frame_loop(m1, data, s0, p1, frame_end as int) {
                    Err(err) => Err(err),
                    Ok((m2, p2)) => Ok::<(LzxModel, int), (EnactError, LzxModel, int)>((m2, align16(p2))),
                },
            decreases gap(frame_end as int, self@.pos), gap(avail_bits(data, s0), br.bit_pos()),
        {
            proof {
                br.lemma_positions();
            }
            let ghost mb = self@;
            let ghost pb = br.bit_pos();
            match self.frame_step(br, frame_end, &table) {
                Ok(()) => {},
                Err(e) => {
                    proof {
                        assert(frame_iter(mb, data, s0, pb, frame_end as int) == Err::<(LzxModel, int), (EnactError, LzxModel, int)>((e, self@, br.bit_pos())));
                        assert(frame_loop(mb, data, s0, pb, frame_end as int) == Err::<(LzxModel, int), (EnactError, LzxModel, int)>((e, self@, br.bit_pos())));
                    }
                    return Err(e);
                },
            }
            proof {
                br.lemma_positions();
            }
        }
        let ghost pe = br.bit_pos();
        br.align();
        proof {
            Self::lemma_align16(pe, br.bit_pos());
        }
        Ok(())
    }

    /// How many bytes are decoded.
    pub fn pos(&self) -> (r: usize)
        ensures
            r == self@.pos,
    {
        self.pos
    }

    /// The output window.
    pub fn into_output(self) -> (r: Vec<u8>)
        ensures
            r@ == self@.out,
    {
        self.out
    }
}

} // verus!

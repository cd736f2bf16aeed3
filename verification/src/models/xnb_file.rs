use crate::bit_reader::BitReader;
use crate::decoder::{decode_frame_spec, initial_model, lemma_decode_frame_fits, LzxModel, LZXDecoder};
use crate::error::EnactError;
use crate::models::xnb_file_header::{parse_header, XNBFileHeader};
use crate::models::xnb_texture2d::{parse_texture, TextureModel, XNBTexture2D};
use crate::reader::{be_u16, int7_decode, read_string, take_error, Reader};
use crate::tree::gap;
use vstd::prelude::*;

verus! {

/// The header of a compressed chunk at `at`: a byte 0xFF followed by the
/// big-endian frame size and chunk size, or else two bytes of big-endian
/// chunk size for a frame of 0x8000 bytes. The outcome (frame size, chunk
/// size) and the offset where reading stopped.
pub open spec fn chunk_header(data: Seq<u8>, at: int) -> (Result<(int, int), EnactError>, int) {
    if let Some(e) = take_error(data, at, 1) {
        (Err(e), at)
    } else if data[at] == 0xFF {
        if let Some(e) = take_error(data, at + 1, 2) {
            (Err(e), at + 1)
        } else if let Some(e) = take_error(data, at + 3, 2) {
            (Err(e), at + 3)
        } else {
            (Ok((be_u16(data, at + 1), be_u16(data, at + 3))), at + 5)
        }
    } else if let Some(e) = take_error(data, at + 1, 1) {
        (Err(e), at + 1)
    } else {
        (Ok((0x8000, data[at] as int * 256 + data[at + 1] as int)), at + 2)
    }
}

/// Decompresses chunks from `at` on with the decoder state `m` until `total`
/// bytes are decoded: each chunk's bytes are the bit stream of one frame of
/// at most the frame size. The outcome and the offset where reading stopped.
pub open spec fn decompress(m: LzxModel, data: Seq<u8>, at: int, total: int) -> (Result<LzxModel, EnactError>, int)
    decreases gap(data.len() as int, at),
{
    if m.pos >= total {
        (Ok(m), at)
    } else {
        match chunk_header(data, at) {
            (Err(e), c) => (Err(e), c),
            (Ok((frame, block)), c) => if let Some(e) = take_error(data, c, block) {
                (Err(e), c)
            } else {
                let chunk = data.subrange(c, c + block);
                let n = if frame < total - m.pos {
                    frame
                } else {
                    total - m.pos
                };
                match decode_frame_spec(m, chunk, 0, 0, n) {
                    Err((e, _, _)) => (Err(e), c + block),
                    Ok((m2, q)) => if at < c + block <= data.len() {
                        decompress(m2, data, c + block, total)
                    } else {
                        (Err(EnactError::Overflow), c + block)
                    },
                }
            },
        }
    }
}

/// Each chunk holds one frame. Its header is a byte 0xFF followed by the
/// big-endian frame size and chunk size, or else two bytes of big-endian
/// chunk size for a frame of 0x8000 bytes; the chunk's bytes are then
/// decoded as a frame of the frame size, or of what is left of the content
/// where that is less, and decompressing goes on after the chunk from the
/// decoder state that the frame leaves. So the content is the frames of the
/// chunks one after the other, each chunk ending its frame where its frame
/// size says.
pub proof fn lemma_decompress_chunk(m: LzxModel, data: Seq<u8>, at: int, total: int)
    requires
        0 <= at,
        data.len() <= usize::MAX,
        m.pos < total,
    ensures
        ({
            let long = data[at] == 0xFF;
            let head = if long { 5int } else { 2int };
            let frame = if long { 256 * data[at + 1] + data[at + 2] } else { 0x8000int };
            let block = if long { 256 * data[at + 3] + data[at + 4] } else { 256 * data[at] + data[at + 1] };
            let c = at + head;
            let n = if frame < total - m.pos { frame } else { total - m.pos };
            (c <= data.len() && c + block <= data.len()) ==> decompress(m, data, at, total) == match decode_frame_spec(
                m,
                data.subrange(c, c + block),
                0,
                0,
                n,
            ) {
                Err((e, _, _)) => (Err::<LzxModel, EnactError>(e), c + block),
                Ok((m2, _)) => decompress(m2, data, c + block, total),
            }
        }),
{
}

/// The XNB file at `at`: its header, then its LZX compressed content, which
/// decompresses to the header's decompressed size with a 64 KiB window. The
/// outcome (header and content) and the offset where reading stopped.
pub open spec fn parse_xnb(data: Seq<u8>, at: int) -> (Result<(XNBFileHeader, Seq<u8>), EnactError>, int) {
    match parse_header(data, at) {
        (Err(e), c) => (Err(e), c),
        (Ok(h), c) => {
            let total = h.decompressed_size as int;
            match decompress(initial_model(16, total), data, c, total) {
                (Err(e), c2) => (Err(e), c2),
                (Ok(m), c2) => (Ok((h, m.out)), c2),
            }
        },
    }
}

/// Reads the type reader table at `at` until it has `count` names; each
/// entry is a name and a 32-bit version. The outcome and the offset where
/// reading stopped.
pub open spec fn type_reader_table(data: Seq<u8>, at: int, count: int, names: Seq<Seq<char>>) -> (Result<Seq<Seq<char>>, EnactError>, int)
    decreases gap(data.len() as int, at),
{
    if names.len() >= count {
        (Ok(names), at)
    } else {
        match read_string(data, at) {
            (Err(e), c) => (Err(e), c),
            (Ok(name), c) => if let Some(e) = take_error(data, c, 4) {
                (Err(e), c)
            } else if at < c + 4 <= data.len() {
                type_reader_table(data, c + 4, count, names.push(name))
            } else {
                (Err(EnactError::Overflow), c + 4)
            },
        }
    }
}

/// The type reader table is a sequence of entries, each a length-prefixed
/// string (as `Reader::string` reads it: a 7-bit encoded byte count, then
/// the bytes) followed by a 4-byte version: while names are missing, the
/// table goes on after the entry's name and version with that name added,
/// and an entry that does not read ends the table with its error.
pub proof fn lemma_type_reader_entry(data: Seq<u8>, at: int, count: int, names: Seq<Seq<char>>)
    requires
        0 <= at,
        data.len() <= usize::MAX,
        names.len() < count,
    ensures
        match read_string(data, at) {
            (Ok(name), c) => if c + 4 <= data.len() {
                type_reader_table(data, at, count, names) == type_reader_table(data, c + 4, count, names.push(name))
            } else {
                type_reader_table(data, at, count, names).0 is Err && type_reader_table(data, at, count, names).1 == c
            },
            (Err(e), c) => type_reader_table(data, at, count, names) == (Err::<Seq<Seq<char>>, EnactError>(e), c),
        },
{
    let (r, c) = read_string(data, at);
    crate::reader::lemma_int7_consumed(data, at, 0, 0);
    if r is Ok {
        assert(at < c);
    }
}

/// A listed type reader with a name of 128 bytes or more: its two-byte
/// length is read whole, and the table goes on after the name's bytes and
/// the version.
pub proof fn lemma_type_reader_long_name(data: Seq<u8>, at: int, count: int, names: Seq<Seq<char>>)
    requires
        0 <= at,
        data.len() <= usize::MAX,
        names.len() < count,
        at + 1 < data.len(),
        data[at] >= 0x80,
        data[at + 1] < 0x80,
        at + 2 + (data[at] - 128 + 128 * data[at + 1]) + 4 <= data.len(),
    ensures
        ({
            let n = data[at] - 128 + 128 * data[at + 1];
            type_reader_table(data, at, count, names) == type_reader_table(
                data,
                at + 2 + n + 4,
                count,
                names.push(crate::reader::utf8_lossy(data.subrange(at + 2, at + 2 + n))),
            )
        }),
{
    crate::reader::lemma_read_string_lengths(data, at);
    lemma_type_reader_entry(data, at, count, names);
}

/// The texture asset of decompressed XNB content: the type reader table,
/// the number of shared resources, the primary asset's type reader (a
/// 1-based index into the table), then the texture.
pub open spec fn parse_content(data: Seq<u8>) -> Result<TextureModel, EnactError> {
    let (r1, k1) = int7_decode(data, 0, 0, 0);
    match r1 {
        Err(e) => Err(e),
        Ok(u1) => match type_reader_table(data, k1, (u1 as i32) as usize as int, Seq::empty()) {
            (Err(e), _) => Err(e),
            (Ok(names), c2) => {
                let (r3, k3) = int7_decode(data, c2, 0, 0);
                match r3 {
                    Err(e) => Err(e),
                    Ok(_) => {
                        let c3 = c2 + k3;
                        let (r4, k4) = int7_decode(data, c3, 0, 0);
                        match r4 {
                            Err(e) => Err(e),
                            Ok(u4) => {
                                let primary = (u4 as i32) as usize as int;
                                if !(1 <= primary <= names.len()) {
                                    Err(EnactError::NoTypeReader)
                                } else {
                                    parse_texture(data, c3 + k4).0
                                }
                            },
                        }
                    },
                }
            },
        }
    }
}

/// An XNB file: its header and its decompressed content.
pub struct XNBFile {
    pub header: XNBFileHeader,
    pub data: Vec<u8>,
}

impl XNBFile {
    /// Reads an XNB file: the header, then the compressed chunks, which it
    /// decompresses.
    pub fn from_reader(reader: &mut Reader) -> (r: Result<Self, EnactError>)
        requires
            old(reader).wf(),
        ensures
            final(reader).wf(),
            final(reader).data() == old(reader).data(),
            final(reader).cursor() == parse_xnb(old(reader).data(), old(reader).cursor()).1,
            match parse_xnb(old(reader).data(), old(reader).cursor()).0 {
                Ok((h, content)) => r matches Ok(f) && f.header == h && f.data@ == content,
                Err(e) => r is Err && r->Err_0 == e,
            },
            r matches Ok(f) ==> f.data@.len() == f.header.decompressed_size,
    {
        let ghost data = reader.data();
        let header = XNBFileHeader::from_reader(reader)?;
        let ghost c1 = reader.cursor();
        let total = header.decompressed_size as usize;
        let mut decoder = match LZXDecoder::new(16, total) {
            Ok(d) => d,
            Err(e) => return Err(e),
        };
        while decoder.pos() < total
            invariant
                reader.wf(),
                reader.data() == data,
                data == old(reader).data(),
                decoder.wf(),
                decoder@.out.len() == total,
                total == header.decompressed_size,
                parse_header(data, old(reader).cursor()) == (Ok::<XNBFileHeader, EnactError>(header), c1),
                decompress(decoder@, data, reader.cursor(), total as int) == decompress(
                    initial_model(16, total as int),
                    data,
                    c1,
                    total as int,
                ),
            decreases gap(data.len() as int, reader.cursor()),
        {
            let ghost at = reader.cursor();
            let ghost m = decoder@;
            let first = reader.u8()?;
            let (frame_size, block_size) = if first == 0xFF {
                let frame = reader.u16_be()? as usize;
                let block = reader.u16_be()? as usize;
                (frame, block)
            } else {
                let second = reader.u8()? as usize;
                proof {
                    let f = first as usize;
                    assert(f < 256 && second < 256 ==> (f << 8usize) | second == f * 256 + second) by (bit_vector);
                }
                (0x8000usize, ((first as usize) << 8) | second)
            };
            assert(chunk_header(data, at) == (Ok::<(int, int), EnactError>((frame_size as int, block_size as int)), reader.cursor()));
            let chunk = reader.bytes(block_size)?;
            let mut br = BitReader::new(Reader::new(chunk));
            let left = total - decoder.pos();
            let n = if frame_size < left {
                frame_size
            } else {
                left
            };
            proof {
                lemma_decode_frame_fits(decoder@, chunk@, 0, 0, n as int);
            }
            match decoder.decode_frame(&mut br, n) {
                Ok(()) => {},
                Err(e) => return Err(e),
            }
        }
        let out = decoder.into_output();
        Ok(Self { header, data: out })
    }

    /// Reads the texture asset from the decompressed content: the type
    /// reader table, the number of shared resources and the primary asset's
    /// type reader, which must be listed, then the texture.
    pub fn read_texture(&self) -> (r: Result<XNBTexture2D, EnactError>)
        ensures
            match parse_content(self.data@) {
                Ok(t) => r matches Ok(tex) && tex@ == t,
                Err(e) => r is Err && r->Err_0 == e,
            },
    {
        let ghost data = self.data@;
        let mut out_reader = Reader::new(self.data.as_slice());
        let type_reader_count = #[verifier::truncate] (out_reader.encoded_int_7bit()? as usize);
        let ghost c1 = out_reader.cursor();
        let mut type_readers: Vec<String> = Vec::new();
        assert(type_readers@.map_values(|s: String| s@) =~= Seq::<Seq<char>>::empty());
        while type_readers.len() < type_reader_count
            invariant
                out_reader.wf(),
                out_reader.data() == data,
                data == self.data@,
                int7_decode(data, 0, 0, 0).0 is Ok,
                int7_decode(data, 0, 0, 0).1 == c1,
                #[verifier::truncate] ((int7_decode(data, 0, 0, 0).0->Ok_0 as i32) as usize) == type_reader_count,
                type_reader_table(data, out_reader.cursor(), type_reader_count as int, type_readers@.map_values(|s: String| s@))
                    == type_reader_table(data, c1, type_reader_count as int, Seq::empty()),
            decreases gap(data.len() as int, out_reader.cursor()),
        {
            let ghost at = out_reader.cursor();
            let ghost before = type_readers@.map_values(|s: String| s@);
            proof {
                crate::reader::lemma_int7_consumed(data, at, 0, 0);
            }
            let reader_name = out_reader.string()?;
            let _version = out_reader.u32_le()?;
            type_readers.push(reader_name);
            assert(type_readers@.map_values(|s: String| s@) =~= before.push(reader_name@));
        }
        let _shared_resources = out_reader.encoded_int_7bit()?;
        let primary_asset_id = #[verifier::truncate] (out_reader.encoded_int_7bit()? as usize);
        if primary_asset_id == 0 || primary_asset_id - 1 >= type_readers.len() {
            return Err(EnactError::NoTypeReader);
        }
        XNBTexture2D::from_reader(&mut out_reader)
    }
}

} // verus!

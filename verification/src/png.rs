//! The PNG container transform: chunk scanning with CRC validation, and
//! locating, removing and inserting the single `zTXt` chunk that carries the
//! hex/zlib text envelope.
//!
//! All functions here work on an in-memory image; reading and writing the
//! actual file happens outside the library.

use vstd::prelude::*;
use crate::MetaError;
use crate::crc32::{crc32_of, crc32_checksum};
use crate::endian::{Endian, u32_bytes, u32_val, u32_from_bytes, push_u32_bytes};
use crate::envelope::{envelope_encode_spec, envelope_decode_spec, encode_metadata_png,
    decode_metadata_png};
use crate::zlib::{zlib_deflate_of, zlib_compress, zlib_decompress};

verus! {

/// The eight-byte PNG file signature.
pub open spec fn png_signature_seq() -> Seq<u8> {
    seq![0x89u8, 0x50u8, 0x4eu8, 0x47u8, 0x0du8, 0x0au8, 0x1au8, 0x0au8]
}

/// The four type bytes of a `zTXt` chunk.
pub open spec fn ztxt_type_seq() -> Seq<u8> {
    seq![0x7au8, 0x54u8, 0x58u8, 0x74u8]
}

/// The four type bytes of the `IEND` chunk that closes every PNG.
pub open spec fn iend_type_seq() -> Seq<u8> {
    seq![0x49u8, 0x45u8, 0x4eu8, 0x44u8]
}

/// The fixed 23-byte marker (`Raw profile type exif` and two zero bytes)
/// that opens the metadata chunk's data.
pub open spec fn raw_profile_type_exif_seq() -> Seq<u8> {
    seq![
        0x52u8, 0x61u8, 0x77u8, 0x20u8, 0x70u8, 0x72u8, 0x6fu8, 0x66u8, 0x69u8, 0x6cu8,
        0x65u8, 0x20u8, 0x74u8, 0x79u8, 0x70u8, 0x65u8, 0x20u8, 0x65u8, 0x78u8, 0x69u8,
        0x66u8, 0x00u8, 0x00u8,
    ]
}

/// One parsed PNG chunk: its four type bytes and its data, both validated
/// against the stored CRC.
#[derive(Debug, PartialEq, Eq)]
pub struct PngChunk {
    /// The four ASCII-letter type bytes.
    pub chunk_type: [u8; 4],
    /// The chunk's data, without length, type or CRC.
    pub data: Vec<u8>,
}

/// The mathematical view of a chunk: its type bytes and data bytes.
pub ghost struct ChunkView {
    pub ctype: Seq<u8>,
    pub data: Seq<u8>,
}

impl View for PngChunk {
    type V = ChunkView;

    open spec fn view(&self) -> ChunkView {
        ChunkView { ctype: self.chunk_type@, data: self.data@ }
    }
}

impl PngChunk {
    /// The declared data length of the chunk, as the length field holds it.
    pub fn length(&self) -> (r: usize)
        ensures
            r == self@.data.len(),
    {
        self.data.len()
    }
}

/// Whether a byte is an ASCII letter, the only bytes a chunk type may hold.
pub open spec fn is_ascii_letter(b: u8) -> bool {
    (0x41 <= b <= 0x5a) || (0x61 <= b <= 0x7a)
}

/// A well-formed chunk: four-letter type and data short enough for the
/// 32-bit length field.
pub open spec fn wf_chunk(c: ChunkView) -> bool {
    &&& c.ctype.len() == 4
    &&& forall|i: int| 0 <= i < 4 ==> is_ascii_letter(#[trigger] c.ctype[i])
    &&& c.data.len() <= 0xffffffff
}

/// Whether a chunk is the closing `IEND` chunk.
pub open spec fn is_iend(c: ChunkView) -> bool {
    c.ctype == iend_type_seq()
}

/// Whether a chunk is the metadata chunk: a `zTXt` chunk whose data opens
/// with the fixed EXIF profile marker.
pub open spec fn is_exif_chunk(c: ChunkView) -> bool {
    c.ctype == ztxt_type_seq() && c.data.len() >= 23 && c.data.subrange(0, 23)
        == raw_profile_type_exif_seq()
}

/// The bytes of one chunk: big-endian length, type, data, and the big-endian
/// CRC-32 over type and data.
pub open spec fn chunk_bytes(c: ChunkView) -> Seq<u8> {
    u32_bytes(Endian::Big, c.data.len() as u32) + c.ctype + c.data + u32_bytes(
        Endian::Big,
        crc32_of(c.ctype + c.data),
    )
}

/// The bytes of a run of chunks.
pub open spec fn chunks_bytes(cs: Seq<ChunkView>) -> Seq<u8>
    decreases cs.len(),
{
    if cs.len() == 0 {
        Seq::empty()
    } else {
        chunk_bytes(cs.first()) + chunks_bytes(cs.drop_first())
    }
}

/// The bytes of a whole image: the signature followed by its chunks.
pub open spec fn png_bytes(cs: Seq<ChunkView>) -> Seq<u8> {
    png_signature_seq() + chunks_bytes(cs)
}

/// The result of scanning a chunk run: each chunk's length must fit what
/// remains, its stored CRC must equal the checksum of its type and data, its
/// type must be four ASCII letters, and the scan ends at the first `IEND`.
pub open spec fn parse_chunks_spec(b: Seq<u8>) -> Result<Seq<ChunkView>, MetaError>
    decreases b.len(),
{
    if b.len() < 12 {
        Err(MetaError::Truncated)
    } else {
        let len = u32_val(Endian::Big, b[0], b[1], b[2], b[3]) as int;
        if b.len() < 12 + len {
            Err(MetaError::Truncated)
        } else {
            let ctype = b.subrange(4, 8);
            let data = b.subrange(8, 8 + len);
            let crc = b.subrange(8 + len, 12 + len);
            if crc != u32_bytes(Endian::Big, crc32_of(ctype + data)) {
                Err(MetaError::BadChecksum)
            } else if !(forall|i: int| 0 <= i < 4 ==> is_ascii_letter(#[trigger] ctype[i])) {
                Err(MetaError::BadChunkName)
            } else {
                let c = ChunkView { ctype, data };
                if is_iend(c) {
                    Ok(seq![c])
                } else {
                    match parse_chunks_spec(b.skip(12 + len)) {
                        Ok(rest) => Ok(seq![c] + rest),
                        Err(e) => Err(e),
                    }
                }
            }
        }
    }
}

/// The result of parsing a whole image: signature check, then the chunk
/// scan.
pub open spec fn parse_png_spec(b: Seq<u8>) -> Result<Seq<ChunkView>, MetaError> {
    if b.len() < 8 || b.subrange(0, 8) != png_signature_seq() {
        Err(MetaError::BadSignature)
    } else {
        parse_chunks_spec(b.skip(8))
    }
}

/// Check the eight-byte PNG signature at the start of the image.
pub fn check_signature(data: &Vec<u8>) -> (r: Result<(), MetaError>)
    ensures
        r is Ok <==> data@.len() >= 8 && data@.subrange(0, 8) == png_signature_seq(),
        r is Err ==> r->Err_0 == MetaError::BadSignature,
{
    let signature: [u8; 8] = [0x89, 0x50, 0x4e, 0x47, 0x0d, 0x0a, 0x1a, 0x0a];
    if data.len() < 8 {
        return Err(MetaError::BadSignature);
    }
    let mut i: usize = 0;
    while i < 8
        invariant
            0 <= i <= 8,
            data@.len() >= 8,
            signature@ == png_signature_seq(),
            forall|t: int| 0 <= t < i ==> data@[t] == png_signature_seq()[t],
        decreases 8 - i,
    {
        if data[i] != signature[i] {
            proof {
                assert(data@.subrange(0, 8)[i as int] == data@[i as int]);
            }
            return Err(MetaError::BadSignature);
        }
        i += 1;
    }
    proof {
        assert(data@.subrange(0, 8) =~= png_signature_seq());
    }
    Ok(())
}

/// Copy a byte range of the image into a fresh buffer.
fn copy_range(src: &Vec<u8>, from: usize, to: usize) -> (r: Vec<u8>)
    requires
        from <= to <= src@.len(),
    ensures
        r@ == src@.subrange(from as int, to as int),
{
    let mut out: Vec<u8> = Vec::new();
    let mut i: usize = from;
    while i < to
        invariant
            from <= i <= to,
            to <= src@.len(),
            out@ == src@.subrange(from as int, i as int),
        decreases to - i,
    {
        out.push(src[i]);
        i += 1;
        assert(out@ =~= src@.subrange(from as int, i as int));
    }
    out
}

/// Read, validate and return the chunk that starts at `pos`, together with
/// the position just past its CRC.
///
/// The chunk must fit in what remains of the image, its stored CRC must
/// equal the checksum of its type and data, and its type must be four ASCII
/// letters.
pub fn get_next_chunk_descriptor(data: &Vec<u8>, pos: usize) -> (r: Result<
    (PngChunk, usize),
    MetaError,
>)
    requires
        pos <= data@.len(),
    ensures
        match r {
            Ok((c, next)) => {
                &&& parse_chunks_spec(data@.skip(pos as int)) is Ok ==> c@
                    == parse_chunks_spec(data@.skip(pos as int))->Ok_0.first()
                &&& pos < next <= data@.len()
                &&& data@.skip(pos as int).len() >= 12
                &&& {
                    let b = data@.skip(pos as int);
                    let len = u32_val(Endian::Big, b[0], b[1], b[2], b[3]) as int;
                    &&& b.len() >= 12 + len
                    &&& c@.ctype == b.subrange(4, 8)
                    &&& c@.data == b.subrange(8, 8 + len)
                    &&& next == pos + 12 + len
                    &&& b.subrange(8 + len, 12 + len) == u32_bytes(
                        Endian::Big,
                        crc32_of(c@.ctype + c@.data),
                    )
                    &&& wf_chunk(c@)
                }
            },
            Err(e) => parse_chunks_spec(data@.skip(pos as int)) == Err::<Seq<ChunkView>, _>(e),
        },
{
    let n: usize = data.len();
    let ghost b = data@.skip(pos as int);
    if n - pos < 12 {
        return Err(MetaError::Truncated);
    }
    let len32 = u32_from_bytes(&Endian::Big, data[pos], data[pos + 1], data[pos + 2], data[pos
        + 3]);
    proof {
        assert(b[0] == data@[pos as int]);
        assert(b[1] == data@[pos as int + 1]);
        assert(b[2] == data@[pos as int + 2]);
        assert(b[3] == data@[pos as int + 3]);
    }
    let len = len32 as usize;
    if n - pos - 12 < len {
        return Err(MetaError::Truncated);
    }
    let ctype_vec = copy_range(data, pos + 4, pos + 8);
    let chunk_data = copy_range(data, pos + 8, pos + 8 + len);
    proof {
        assert(ctype_vec@ =~= b.subrange(4, 8));
        assert(chunk_data@ =~= b.subrange(8, 8 + len as int));
    }

    // Checksum over type and data.
    let mut crc_input = copy_range(data, pos + 4, pos + 8);
    let mut data_copy = copy_range(data, pos + 8, pos + 8 + len);
    crc_input.append(&mut data_copy);
    proof {
        assert(crc_input@ =~= ctype_vec@ + chunk_data@);
    }
    let checksum = crc32_checksum(crc_input.as_slice());

    let ghost stored = b.subrange(8 + len as int, 12 + len as int);
    let c0 = data[pos + 8 + len];
    let c1 = data[pos + 8 + len + 1];
    let c2 = data[pos + 8 + len + 2];
    let c3 = data[pos + 8 + len + 3];
    proof {
        assert(stored[0] == data@[pos as int + 8 + len as int]);
        assert(stored[1] == data@[pos as int + 8 + len as int + 1]);
        assert(stored[2] == data@[pos as int + 8 + len as int + 2]);
        assert(stored[3] == data@[pos as int + 8 + len as int + 3]);
    }
    let expect = u32_bytes_exec(checksum);
    if !(c0 == expect[0] && c1 == expect[1] && c2 == expect[2] && c3 == expect[3]) {
        proof {
            assert(stored != u32_bytes(Endian::Big, crc32_of(ctype_vec@ + chunk_data@)));
        }
        return Err(MetaError::BadChecksum);
    }
    proof {
        assert(stored =~= u32_bytes(Endian::Big, crc32_of(ctype_vec@ + chunk_data@)));
    }

    // The type must be four ASCII letters.
    let t0 = ctype_vec[0];
    let t1 = ctype_vec[1];
    let t2 = ctype_vec[2];
    let t3 = ctype_vec[3];
    if !(is_ascii_letter_exec(t0) && is_ascii_letter_exec(t1) && is_ascii_letter_exec(t2)
        && is_ascii_letter_exec(t3)) {
        proof {
            let ct = b.subrange(4, 8);
            assert(!(forall|i: int| 0 <= i < 4 ==> is_ascii_letter(#[trigger] ct[i])));
        }
        return Err(MetaError::BadChunkName);
    }
    let chunk = PngChunk { chunk_type: [t0, t1, t2, t3], data: chunk_data };
    proof {
        assert(chunk@.ctype =~= b.subrange(4, 8));
        assert(forall|i: int| 0 <= i < 4 ==> is_ascii_letter(#[trigger] b.subrange(4, 8)[i]));
    }
    Ok((chunk, pos + 12 + len))
}

/// Whether a byte is an ASCII letter.
fn is_ascii_letter_exec(b: u8) -> (r: bool)
    ensures
        r == is_ascii_letter(b),
{
    (0x41 <= b && b <= 0x5a) || (0x61 <= b && b <= 0x7a)
}

/// The four big-endian bytes of a 32-bit value.
fn u32_bytes_exec(v: u32) -> (r: [u8; 4])
    ensures
        r@ == u32_bytes(Endian::Big, v),
{
    let r: [u8; 4] = [
        (v / 0x1000000) as u8,
        ((v / 0x10000) % 0x100) as u8,
        ((v / 0x100) % 0x100) as u8,
        (v % 0x100) as u8,
    ];
    assert(r@ =~= u32_bytes(Endian::Big, v));
    r
}

/// Parse a whole image: validate the signature, then scan chunk by chunk,
/// validating each CRC and type, until the closing `IEND` chunk.
pub fn parse_png(data: &Vec<u8>) -> (r: Result<Vec<PngChunk>, MetaError>)
    ensures
        r is Ok <==> parse_png_spec(data@) is Ok,
        r is Ok ==> r->Ok_0@.map_values(|c: PngChunk| c@) == parse_png_spec(data@)->Ok_0,
        r is Err ==> r->Err_0 == parse_png_spec(data@)->Err_0,
{
    if let Err(e) = check_signature(data) {
        return Err(e);
    }
    let n: usize = data.len();
    let mut chunks: Vec<PngChunk> = Vec::new();
    let mut pos: usize = 8;
    loop
        invariant
            8 <= pos <= n,
            n == data@.len(),
            data@.subrange(0, 8) == png_signature_seq(),
            forall|i: int| 0 <= i < chunks@.len() ==> !is_iend((#[trigger] chunks@[i])@),
            match parse_chunks_spec(data@.skip(pos as int)) {
                Ok(rest) => parse_png_spec(data@) == Ok::<_, MetaError>(
                    chunks@.map_values(|c: PngChunk| c@) + rest,
                ),
                Err(e) => parse_png_spec(data@) == Err::<Seq<ChunkView>, _>(e),
            },
        decreases n - pos,
    {
        let step = get_next_chunk_descriptor(data, pos);
        match step {
            Err(e) => {
                return Err(e);
            },
            Ok((chunk, next)) => {
                let ghost b = data@.skip(pos as int);
                let ghost len = u32_val(Endian::Big, b[0], b[1], b[2], b[3]) as int;
                proof {
                    assert(b.skip(12 + len) =~= data@.skip(next as int));
                }
                let iend = chunk.chunk_type[0] == 0x49 && chunk.chunk_type[1] == 0x45
                    && chunk.chunk_type[2] == 0x4e && chunk.chunk_type[3] == 0x44;
                proof {
                    if iend {
                        assert(chunk@.ctype =~= iend_type_seq());
                    } else {
                        assert(chunk@.ctype != iend_type_seq());
                    }
                }
                let ghost pre = chunks@;
                chunks.push(chunk);
                proof {
                    assert(chunks@.map_values(|c: PngChunk| c@) =~= pre.map_values(
                        |c: PngChunk| c@,
                    ).push(chunk@));
                }
                if iend {
                    proof {
                        assert(parse_chunks_spec(b) == Ok::<_, MetaError>(seq![chunk@]));
                        assert(pre.map_values(|c: PngChunk| c@) + seq![chunk@]
                            =~= chunks@.map_values(|c: PngChunk| c@));
                    }
                    return Ok(chunks);
                }
                proof {
                    match parse_chunks_spec(data@.skip(next as int)) {
                        Ok(rest) => {
                            assert(parse_chunks_spec(b) == Ok::<_, MetaError>(
                                seq![chunk@] + rest,
                            ));
                            assert(pre.map_values(|c: PngChunk| c@) + (seq![chunk@] + rest)
                                =~= chunks@.map_values(|c: PngChunk| c@) + rest);
                        },
                        Err(_) => {},
                    }
                }
                pos = next;
            },
        }
    }
}

/// Append the bytes of one chunk: length, type, data and freshly computed
/// CRC.
fn push_chunk(out: &mut Vec<u8>, c: &PngChunk)
    requires
        wf_chunk(c@),
    ensures
        final(out)@ == old(out)@ + chunk_bytes(c@),
{
    let len: u32 = c.data.len() as u32;
    push_u32_bytes(out, &Endian::Big, len);
    let ghost after_len = out@;
    out.push(c.chunk_type[0]);
    out.push(c.chunk_type[1]);
    out.push(c.chunk_type[2]);
    out.push(c.chunk_type[3]);
    proof {
        assert(out@ =~= after_len + c@.ctype);
    }
    let ghost after_type = out@;
    let n: usize = c.data.len();
    let mut i: usize = 0;
    while i < n
        invariant
            0 <= i <= n,
            n == c@.data.len(),
            out@ == after_type + c@.data.take(i as int),
        decreases n - i,
    {
        out.push(c.data[i]);
        i += 1;
        assert(out@ =~= after_type + c@.data.take(i as int));
    }
    proof {
        assert(c@.data.take(n as int) =~= c@.data);
    }

    let mut crc_input: Vec<u8> = Vec::new();
    crc_input.push(c.chunk_type[0]);
    crc_input.push(c.chunk_type[1]);
    crc_input.push(c.chunk_type[2]);
    crc_input.push(c.chunk_type[3]);
    let ghost crc_type = crc_input@;
    let mut j: usize = 0;
    while j < n
        invariant
            0 <= j <= n,
            n == c@.data.len(),
            crc_input@ == crc_type + c@.data.take(j as int),
        decreases n - j,
    {
        crc_input.push(c.data[j]);
        j += 1;
        assert(crc_input@ =~= crc_type + c@.data.take(j as int));
    }
    proof {
        assert(c@.data.take(n as int) =~= c@.data);
        assert(crc_input@ =~= c@.ctype + c@.data);
    }
    let checksum = crc32_checksum(crc_input.as_slice());
    push_u32_bytes(out, &Endian::Big, checksum);
    proof {
        assert(out@ =~= old(out)@ + chunk_bytes(c@));
    }
}

/// The byte image of a chunk list: the signature followed by each chunk's
/// bytes with a freshly computed CRC.
fn serialize_chunks(chunks: &Vec<PngChunk>) -> (r: Vec<u8>)
    requires
        forall|i: int| 0 <= i < chunks@.len() ==> wf_chunk((#[trigger] chunks@[i])@),
    ensures
        r@ == png_bytes(chunks@.map_values(|c: PngChunk| c@)),
{
    let mut out: Vec<u8> = Vec::new();
    out.push(0x89);
    out.push(0x50);
    out.push(0x4e);
    out.push(0x47);
    out.push(0x0d);
    out.push(0x0a);
    out.push(0x1a);
    out.push(0x0a);
    proof {
        assert(out@ =~= png_signature_seq());
    }
    let ghost views = chunks@.map_values(|c: PngChunk| c@);
    let n: usize = chunks.len();
    let mut i: usize = 0;
    while i < n
        invariant
            0 <= i <= n,
            n == chunks@.len(),
            views == chunks@.map_values(|c: PngChunk| c@),
            forall|t: int| 0 <= t < n ==> wf_chunk((#[trigger] chunks@[t])@),
            out@ == png_signature_seq() + chunks_bytes(views.take(i as int)),
        decreases n - i,
    {
        push_chunk(&mut out, &chunks[i]);
        i += 1;
        proof {
            lemma_chunks_bytes_add(views.take(i as int - 1), seq![views[i as int - 1]]);
            assert(views.take(i as int) =~= views.take(i as int - 1) + seq![views[i as int - 1]]);
            assert(seq![views[i as int - 1]].drop_first() =~= Seq::<ChunkView>::empty());
            assert(chunks_bytes(Seq::<ChunkView>::empty()) == Seq::<u8>::empty());
            assert(chunks_bytes(seq![views[i as int - 1]]) =~= chunk_bytes(views[i as int - 1]));
            assert(out@ =~= png_signature_seq() + chunks_bytes(views.take(i as int)));
        }
    }
    proof {
        assert(views.take(n as int) =~= views);
    }
    out
}

/// Chunk serialization distributes over concatenation.
proof fn lemma_chunks_bytes_add(a: Seq<ChunkView>, b: Seq<ChunkView>)
    ensures
        chunks_bytes(a + b) == chunks_bytes(a) + chunks_bytes(b),
    decreases a.len(),
{
    if a.len() == 0 {
        assert(a + b =~= b);
        assert(chunks_bytes(a) + chunks_bytes(b) =~= chunks_bytes(b));
    } else {
        assert((a + b).drop_first() =~= a.drop_first() + b);
        lemma_chunks_bytes_add(a.drop_first(), b);
        assert(chunks_bytes(a + b) =~= chunks_bytes(a) + chunks_bytes(b));
    }
}

/// What a successful chunk scan guarantees: at least one chunk, all of them
/// well formed, exactly the last one the closing `IEND`.
pub proof fn lemma_parse_chunks_wf(b: Seq<u8>)
    requires
        parse_chunks_spec(b) is Ok,
    ensures
        ({
            let cs = parse_chunks_spec(b)->Ok_0;
            &&& cs.len() >= 1
            &&& forall|i: int| 0 <= i < cs.len() ==> wf_chunk(#[trigger] cs[i])
            &&& is_iend(cs.last())
            &&& forall|i: int| 0 <= i < cs.len() - 1 ==> !is_iend(#[trigger] cs[i])
        }),
    decreases b.len(),
{
    let cs = parse_chunks_spec(b)->Ok_0;
    let len = u32_val(Endian::Big, b[0], b[1], b[2], b[3]) as int;
    let ctype = b.subrange(4, 8);
    let data = b.subrange(8, 8 + len);
    let c = ChunkView { ctype, data };
    assert(wf_chunk(c));
    if is_iend(c) {
    } else {
        lemma_parse_chunks_wf(b.skip(12 + len));
        let rest = parse_chunks_spec(b.skip(12 + len))->Ok_0;
        assert(cs == seq![c] + rest);
        assert(cs.last() == rest.last());
        assert forall|i: int| 0 <= i < cs.len() - 1 implies !is_iend(#[trigger] cs[i]) by {
            if i > 0 {
                assert(cs[i] == rest[i - 1]);
            }
        }
        assert forall|i: int| 0 <= i < cs.len() implies wf_chunk(#[trigger] cs[i]) by {
            if i > 0 {
                assert(cs[i] == rest[i - 1]);
            }
        }
    }
}

/// Scanning the serialized bytes of a well-formed chunk run recovers the
/// run: the parse/serialize round trip at the chunk level.
#[verifier::rlimit(60)]
pub proof fn lemma_parse_of_chunks_bytes(cs: Seq<ChunkView>)
    requires
        cs.len() >= 1,
        forall|i: int| 0 <= i < cs.len() ==> wf_chunk(#[trigger] cs[i]),
        is_iend(cs.last()),
        forall|i: int| 0 <= i < cs.len() - 1 ==> !is_iend(#[trigger] cs[i]),
    ensures
        parse_chunks_spec(chunks_bytes(cs)) == Ok::<_, MetaError>(cs),
    decreases cs.len(),
{
    let b = chunks_bytes(cs);
    let c = cs.first();
    let rest_bytes = chunks_bytes(cs.drop_first());
    assert(b == chunk_bytes(c) + rest_bytes);
    let dlen = c.data.len() as int;
    assert(wf_chunk(c));
    let lenb = u32_bytes(Endian::Big, c.data.len() as u32);
    let crcb = u32_bytes(Endian::Big, crc32_of(c.ctype + c.data));
    assert(chunk_bytes(c).len() == 12 + dlen);
    assert(b.len() >= 12 + dlen);
    assert(b[0] == lenb[0] && b[1] == lenb[1] && b[2] == lenb[2] && b[3] == lenb[3]);
    crate::endian::lemma_u32_roundtrip(Endian::Big, c.data.len() as u32);
    let len = u32_val(Endian::Big, b[0], b[1], b[2], b[3]) as int;
    assert(len == dlen);
    assert(b.subrange(4, 8) =~= c.ctype);
    assert(b.subrange(8, 8 + len) =~= c.data);
    assert(b.subrange(8 + len, 12 + len) =~= crcb);
    assert(ChunkView { ctype: b.subrange(4, 8), data: b.subrange(8, 8 + len) } == c);
    if is_iend(c) {
        assert(cs.len() == 1) by {
            if cs.len() > 1 {
                assert(!is_iend(cs[0]));
            }
        }
        assert(b.len() == 12 + len) by {
            assert(cs.drop_first() =~= Seq::<ChunkView>::empty());
        }
        assert(parse_chunks_spec(b) == Ok::<_, MetaError>(seq![c]));
        assert(seq![c] =~= cs);
    } else {
        assert(cs.len() >= 2) by {
            if cs.len() == 1 {
                assert(cs.last() == c);
            }
        }
        assert(b.skip(12 + len) =~= rest_bytes);
        let tail = cs.drop_first();
        assert(tail.len() >= 1);
        assert(tail.last() == cs.last());
        assert forall|i: int| 0 <= i < tail.len() implies wf_chunk(#[trigger] tail[i]) by {
            assert(tail[i] == cs[i + 1]);
        }
        assert forall|i: int| 0 <= i < tail.len() - 1 implies !is_iend(#[trigger] tail[i]) by {
            assert(tail[i] == cs[i + 1]);
        }
        lemma_parse_of_chunks_bytes(tail);
        assert(parse_chunks_spec(b) == Ok::<_, MetaError>(seq![c] + tail));
        assert(seq![c] + tail =~= cs);
    }
}

/// Parsing the serialized bytes of a well-formed chunk run recovers the run:
/// the round trip at the image level, signature included.
pub proof fn lemma_parse_of_png_bytes(cs: Seq<ChunkView>)
    requires
        cs.len() >= 1,
        forall|i: int| 0 <= i < cs.len() ==> wf_chunk(#[trigger] cs[i]),
        is_iend(cs.last()),
        forall|i: int| 0 <= i < cs.len() - 1 ==> !is_iend(#[trigger] cs[i]),
    ensures
        parse_png_spec(png_bytes(cs)) == Ok::<_, MetaError>(cs),
{
    let b = png_bytes(cs);
    assert(b.subrange(0, 8) =~= png_signature_seq());
    assert(b.skip(8) =~= chunks_bytes(cs));
    lemma_parse_of_chunks_bytes(cs);
}

/// The chunks that survive a clear: everything but the metadata chunk.
pub open spec fn kept_chunks(cs: Seq<ChunkView>) -> Seq<ChunkView> {
    cs.filter(|c: ChunkView| !is_exif_chunk(c))
}

/// The result of clearing an image: parse it, drop every metadata chunk,
/// and serialize what is left.
pub open spec fn clear_spec(b: Seq<u8>) -> Result<Seq<u8>, MetaError> {
    match parse_png_spec(b) {
        Ok(cs) => Ok(png_bytes(kept_chunks(cs))),
        Err(e) => Err(e),
    }
}

/// The position of the first metadata chunk in a chunk run.
pub open spec fn find_exif(cs: Seq<ChunkView>) -> Option<int>
    decreases cs.len(),
{
    if cs.len() == 0 {
        None
    } else if is_exif_chunk(cs.first()) {
        Some(0int)
    } else {
        match find_exif(cs.drop_first()) {
            Some(i) => Some(i + 1),
            None => None,
        }
    }
}

/// The metadata chunk that a write inserts: the `zTXt` type, the fixed
/// marker, and the zlib stream of the payload's text envelope.
pub open spec fn exif_chunk_view(payload: Seq<u8>) -> ChunkView {
    ChunkView {
        ctype: ztxt_type_seq(),
        data: raw_profile_type_exif_seq() + zlib_deflate_of(envelope_encode_spec(payload)),
    }
}

/// The result of writing a payload: clear the image, then splice the new
/// metadata chunk in right after the first chunk.
pub open spec fn write_spec(b: Seq<u8>, payload: Seq<u8>) -> Result<Seq<u8>, MetaError> {
    match parse_png_spec(b) {
        Err(e) => Err(e),
        Ok(cs) => {
            let kept = kept_chunks(cs);
            let nc = exif_chunk_view(payload);
            if nc.data.len() > 0xffffffff {
                Err(MetaError::TooLarge)
            } else {
                Ok(png_bytes(seq![kept[0], nc] + kept.skip(1)))
            }
        },
    }
}

/// Appending one chunk extends the kept run exactly when the chunk is not
/// the metadata chunk.
proof fn lemma_kept_push(s: Seq<ChunkView>, c: ChunkView)
    ensures
        kept_chunks(s.push(c)) == if !is_exif_chunk(c) {
            kept_chunks(s).push(c)
        } else {
            kept_chunks(s)
        },
{
    reveal(Seq::filter);
    assert(s.push(c).drop_last() =~= s);
    assert(s.push(c).last() == c);
}

/// A run without metadata chunks is unchanged by the clear filter.
proof fn lemma_kept_all(s: Seq<ChunkView>)
    requires
        forall|i: int| 0 <= i < s.len() ==> !is_exif_chunk(#[trigger] s[i]),
    ensures
        kept_chunks(s) == s,
    decreases s.len(),
{
    reveal(Seq::filter);
    if s.len() > 0 {
        lemma_kept_all(s.drop_last());
        assert(kept_chunks(s) =~= s);
    } else {
        assert(kept_chunks(s) =~= s);
    }
}

/// Filtering a run of well-formed non-`IEND` chunks keeps those properties,
/// and every survivor is not a metadata chunk.
proof fn lemma_kept_front(s: Seq<ChunkView>)
    requires
        forall|i: int| 0 <= i < s.len() ==> wf_chunk(#[trigger] s[i]),
        forall|i: int| 0 <= i < s.len() ==> !is_iend(#[trigger] s[i]),
    ensures
        forall|i: int|
            0 <= i < kept_chunks(s).len() ==> wf_chunk(#[trigger] kept_chunks(s)[i]) && !is_iend(
                kept_chunks(s)[i],
            ) && !is_exif_chunk(kept_chunks(s)[i]),
        kept_chunks(s).len() <= s.len(),
    decreases s.len(),
{
    reveal(Seq::filter);
    if s.len() > 0 {
        let front = s.drop_last();
        lemma_kept_front(front);
        if !is_exif_chunk(s.last()) {
            assert(kept_chunks(s) == kept_chunks(front).push(s.last()));
            assert forall|i: int| 0 <= i < kept_chunks(s).len() implies wf_chunk(
                #[trigger] kept_chunks(s)[i],
            ) && !is_iend(kept_chunks(s)[i]) && !is_exif_chunk(kept_chunks(s)[i]) by {
                if i < kept_chunks(front).len() {
                    assert(kept_chunks(s)[i] == kept_chunks(front)[i]);
                } else {
                    assert(kept_chunks(s)[i] == s.last());
                }
            }
        }
    }
}

/// What survives a clear on a successfully parsed run: a nonempty run of
/// well-formed chunks, the last of them the `IEND`, none of them a metadata
/// chunk.
pub proof fn lemma_kept_props(cs: Seq<ChunkView>)
    requires
        cs.len() >= 1,
        forall|i: int| 0 <= i < cs.len() ==> wf_chunk(#[trigger] cs[i]),
        is_iend(cs.last()),
        forall|i: int| 0 <= i < cs.len() - 1 ==> !is_iend(#[trigger] cs[i]),
    ensures
        ({
            let kept = kept_chunks(cs);
            &&& kept.len() >= 1
            &&& forall|i: int| 0 <= i < kept.len() ==> wf_chunk(#[trigger] kept[i])
            &&& is_iend(kept.last())
            &&& forall|i: int| 0 <= i < kept.len() - 1 ==> !is_iend(#[trigger] kept[i])
            &&& forall|i: int| 0 <= i < kept.len() ==> !is_exif_chunk(#[trigger] kept[i])
        }),
{
    reveal(Seq::filter);
    let front = cs.drop_last();
    let last = cs.last();
    assert(forall|i: int| 0 <= i < front.len() ==> wf_chunk(#[trigger] front[i]) && !is_iend(
        front[i],
    )) by {
        assert(forall|i: int| 0 <= i < front.len() ==> front[i] == cs[i]);
    }
    lemma_kept_front(front);
    assert(!is_exif_chunk(last)) by {
        assert(last.ctype[0] == 0x49);
        if last.ctype == ztxt_type_seq() {
            assert(last.ctype[0] == 0x7a);
        }
    }
    assert(kept_chunks(cs) == kept_chunks(front).push(last));
    let kept = kept_chunks(cs);
    assert forall|i: int|
        0 <= i < kept.len() implies wf_chunk(#[trigger] kept[i]) && !is_exif_chunk(kept[i]) by {
        if i < kept_chunks(front).len() {
            assert(kept[i] == kept_chunks(front)[i]);
        } else {
            assert(kept[i] == last);
        }
    }
    assert forall|i: int| 0 <= i < kept.len() - 1 implies !is_iend(#[trigger] kept[i]) by {
        assert(kept[i] == kept_chunks(front)[i]);
    }
}

/// Whether this chunk is the metadata chunk: `zTXt` type and the fixed
/// marker at the start of its data.
fn is_exif_chunk_exec(c: &PngChunk) -> (r: bool)
    ensures
        r == is_exif_chunk(c@),
{
    if !(c.chunk_type[0] == 0x7a && c.chunk_type[1] == 0x54 && c.chunk_type[2] == 0x58
        && c.chunk_type[3] == 0x74) {
        proof {
            if c@.ctype == ztxt_type_seq() {
                assert(c@.ctype[0] == 0x7a && c@.ctype[1] == 0x54 && c@.ctype[2] == 0x58
                    && c@.ctype[3] == 0x74);
            }
        }
        return false;
    }
    proof {
        assert(c@.ctype =~= ztxt_type_seq());
    }
    if c.data.len() < 23 {
        return false;
    }
    let marker: [u8; 23] = [
        0x52, 0x61, 0x77, 0x20, 0x70, 0x72, 0x6f, 0x66, 0x69, 0x6c, 0x65, 0x20, 0x74, 0x79,
        0x70, 0x65, 0x20, 0x65, 0x78, 0x69, 0x66, 0x00, 0x00,
    ];
    let mut i: usize = 0;
    while i < 23
        invariant
            0 <= i <= 23,
            c@.data.len() >= 23,
            marker@ == raw_profile_type_exif_seq(),
            forall|t: int| 0 <= t < i ==> c@.data[t] == raw_profile_type_exif_seq()[t],
        decreases 23 - i,
    {
        if c.data[i] != marker[i] {
            proof {
                assert(c@.data.subrange(0, 23)[i as int] == c@.data[i as int]);
            }
            return false;
        }
        i += 1;
    }
    proof {
        assert(c@.data.subrange(0, 23) =~= raw_profile_type_exif_seq());
    }
    true
}

/// Drop every metadata chunk from a parsed chunk list, keeping the rest in
/// order.
fn remove_exif_chunks(chunks: Vec<PngChunk>) -> (r: Vec<PngChunk>)
    ensures
        r@.map_values(|c: PngChunk| c@) == kept_chunks(chunks@.map_values(|c: PngChunk| c@)),
{
    let ghost orig = chunks@.map_values(|c: PngChunk| c@);
    let mut rest = chunks;
    let mut kept: Vec<PngChunk> = Vec::new();
    let ghost done: Seq<ChunkView> = Seq::empty();
    proof {
        assert(done + rest@.map_values(|c: PngChunk| c@) =~= orig);
        reveal(Seq::filter);
        assert(kept_chunks(done) =~= Seq::<ChunkView>::empty());
    }
    while rest.len() > 0
        invariant
            done + rest@.map_values(|c: PngChunk| c@) == orig,
            kept@.map_values(|c: PngChunk| c@) == kept_chunks(done),
        decreases rest@.len(),
    {
        let ghost done_pre = done;
        let ghost rest_pre = rest@.map_values(|c: PngChunk| c@);
        let c = rest.remove(0);
        proof {
            done = done_pre.push(c@);
            assert(rest@.map_values(|c: PngChunk| c@) =~= rest_pre.drop_first());
            assert(done + rest@.map_values(|c: PngChunk| c@) =~= orig);
            lemma_kept_push(done_pre, c@);
        }
        let ghost kept_pre = kept@.map_values(|c: PngChunk| c@);
        if !is_exif_chunk_exec(&c) {
            kept.push(c);
            proof {
                assert(kept@.map_values(|c: PngChunk| c@) =~= kept_pre.push(c@));
            }
        }
    }
    proof {
        assert(rest@.map_values(|c: PngChunk| c@) =~= Seq::<ChunkView>::empty());
        assert(done =~= orig);
    }
    kept
}

/// Remove the metadata chunk from an image.
///
/// The image is parsed and validated first, so a corrupt image is rejected
/// untouched; then every `zTXt` chunk that opens with the EXIF profile
/// marker is dropped and the remaining chunks are serialized byte-exactly.
pub fn clear_metadata(data: &Vec<u8>) -> (r: Result<Vec<u8>, MetaError>)
    ensures
        r is Ok <==> clear_spec(data@) is Ok,
        r is Ok ==> r->Ok_0@ == clear_spec(data@)->Ok_0,
        r is Err ==> r->Err_0 == clear_spec(data@)->Err_0,
{
    match parse_png(data) {
        Err(e) => Err(e),
        Ok(chunks) => {
            let ghost cs = chunks@.map_values(|c: PngChunk| c@);
            proof {
                lemma_parse_chunks_wf(data@.skip(8));
            }
            let kept = remove_exif_chunks(chunks);
            proof {
                lemma_kept_props(cs);
                assert forall|i: int|
                    0 <= i < kept@.len() implies wf_chunk((#[trigger] kept@[i])@) by {
                    assert(kept@[i]@ == kept@.map_values(|c: PngChunk| c@)[i]);
                }
            }
            Ok(serialize_chunks(&kept))
        },
    }
}

/// The first metadata chunk is found where the scan says it is.
proof fn lemma_find_exif_exact(cs: Seq<ChunkView>, i: int)
    requires
        0 <= i < cs.len(),
        is_exif_chunk(cs[i]),
        forall|j: int| 0 <= j < i ==> !is_exif_chunk(#[trigger] cs[j]),
    ensures
        find_exif(cs) == Some(i),
    decreases i,
{
    if i == 0 {
    } else {
        let t = cs.drop_first();
        assert forall|j: int| 0 <= j < i - 1 implies !is_exif_chunk(#[trigger] t[j]) by {
            assert(t[j] == cs[j + 1]);
        }
        assert(t[i - 1] == cs[i]);
        lemma_find_exif_exact(t, i - 1);
    }
}

/// A run without metadata chunks yields no find position.
proof fn lemma_find_exif_none(cs: Seq<ChunkView>)
    requires
        forall|j: int| 0 <= j < cs.len() ==> !is_exif_chunk(#[trigger] cs[j]),
    ensures
        find_exif(cs) is None,
    decreases cs.len(),
{
    if cs.len() > 0 {
        let t = cs.drop_first();
        assert forall|j: int| 0 <= j < t.len() implies !is_exif_chunk(#[trigger] t[j]) by {
            assert(t[j] == cs[j + 1]);
        }
        lemma_find_exif_none(t);
    }
}

/// Extract the embedded payload from an image.
///
/// The image is parsed and validated; the first `zTXt` chunk opening with
/// the EXIF profile marker is inflated and its text envelope decoded. With
/// no such chunk the not-found error comes back; a body that does not
/// inflate is the inflate error.
#[verifier::loop_isolation(false)]
pub fn read_metadata(data: &Vec<u8>) -> (r: Result<Vec<u8>, MetaError>)
    ensures
        parse_png_spec(data@) is Err ==> r == Err::<Vec<u8>, MetaError>(
            parse_png_spec(data@)->Err_0,
        ),
        parse_png_spec(data@) is Ok && find_exif(parse_png_spec(data@)->Ok_0) is None ==> r
            == Err::<Vec<u8>, MetaError>(MetaError::NotFound),
        parse_png_spec(data@) is Ok && find_exif(parse_png_spec(data@)->Ok_0) is Some ==> ({
            let cs = parse_png_spec(data@)->Ok_0;
            let c = cs[find_exif(cs)->0];
            &&& forall|orig: Seq<u8>|
                c.data.skip(23) == zlib_deflate_of(orig) ==> match envelope_decode_spec(orig) {
                    Ok(v) => r is Ok && r->Ok_0@ == v,
                    Err(e) => r == Err::<Vec<u8>, MetaError>(e),
                }
            &&& (r is Err ==> r->Err_0 == MetaError::InflateFailed || r->Err_0
                == MetaError::EnvelopeMismatch)
        }),
{
    let chunks = match parse_png(data) {
        Err(e) => {
            return Err(e);
        },
        Ok(chunks) => chunks,
    };
    let ghost cs = chunks@.map_values(|c: PngChunk| c@);
    let n: usize = chunks.len();
    let mut i: usize = 0;
    while i < n
        invariant
            0 <= i <= n,
            forall|j: int| 0 <= j < i ==> !is_exif_chunk(#[trigger] cs[j]),
        decreases n - i,
    {
        if is_exif_chunk_exec(&chunks[i]) {
            proof {
                lemma_find_exif_exact(cs, i as int);
            }
            let c = &chunks[i];
            let compressed = copy_range(&c.data, 23, c.data.len());
            proof {
                assert(compressed@ =~= cs[i as int].data.skip(23));
            }
            match zlib_decompress(compressed.as_slice()) {
                Some(env) => {
                    return decode_metadata_png(&env);
                },
                None => {
                    return Err(MetaError::InflateFailed);
                },
            }
        }
        i += 1;
    }
    proof {
        lemma_find_exif_none(cs);
    }
    Err(MetaError::NotFound)
}

/// Build the raw `zTXt` chunk body for a payload, as the container writes
/// it: the chunk type, the marker, and the compressed envelope.
///
/// Without the chunk flag only the bare text envelope comes back.
pub fn as_u8_vec(general_encoded_metadata: &Vec<u8>, as_ztxt_chunk: bool) -> (r: Vec<u8>)
    requires
        general_encoded_metadata@.len() + 7 < 100000000,
    ensures
        !as_ztxt_chunk ==> r@ == envelope_encode_spec(general_encoded_metadata@),
        as_ztxt_chunk ==> r@ == ztxt_type_seq() + raw_profile_type_exif_seq() + zlib_deflate_of(
            envelope_encode_spec(general_encoded_metadata@),
        ),
{
    let basic = encode_metadata_png(general_encoded_metadata);
    if !as_ztxt_chunk {
        return basic;
    }
    let mut out: Vec<u8> = Vec::new();
    out.push(0x7a);
    out.push(0x54);
    out.push(0x58);
    out.push(0x74);
    push_marker(&mut out);
    let mut compressed = zlib_compress(basic.as_slice());
    out.append(&mut compressed);
    proof {
        assert(out@ =~= ztxt_type_seq() + raw_profile_type_exif_seq() + zlib_deflate_of(
            envelope_encode_spec(general_encoded_metadata@),
        ));
    }
    out
}

/// Append the fixed 23-byte EXIF profile marker.
fn push_marker(out: &mut Vec<u8>)
    ensures
        final(out)@ == old(out)@ + raw_profile_type_exif_seq(),
{
    let marker: [u8; 23] = [
        0x52, 0x61, 0x77, 0x20, 0x70, 0x72, 0x6f, 0x66, 0x69, 0x6c, 0x65, 0x20, 0x74, 0x79,
        0x70, 0x65, 0x20, 0x65, 0x78, 0x69, 0x66, 0x00, 0x00,
    ];
    let mut i: usize = 0;
    while i < 23
        invariant
            0 <= i <= 23,
            marker@ == raw_profile_type_exif_seq(),
            out@ == old(out)@ + raw_profile_type_exif_seq().take(i as int),
        decreases 23 - i,
    {
        out.push(marker[i]);
        i += 1;
        assert(out@ =~= old(out)@ + raw_profile_type_exif_seq().take(i as int));
    }
    proof {
        assert(raw_profile_type_exif_seq().take(23) =~= raw_profile_type_exif_seq());
    }
}

/// Embed a payload in an image.
///
/// The image is cleared first, which also validates it, so a corrupt image
/// is rejected before anything is built. The new `zTXt` chunk holds the
/// marker and the compressed text envelope of the payload and is spliced in
/// right after the first chunk.
#[verifier::rlimit(60)]
pub fn write_metadata(data: &Vec<u8>, general_encoded_metadata: &Vec<u8>) -> (r: Result<
    Vec<u8>,
    MetaError,
>)
    requires
        general_encoded_metadata@.len() + 7 < 100000000,
    ensures
        r is Ok <==> write_spec(data@, general_encoded_metadata@) is Ok,
        r is Ok ==> r->Ok_0@ == write_spec(data@, general_encoded_metadata@)->Ok_0,
        r is Err ==> r->Err_0 == write_spec(data@, general_encoded_metadata@)->Err_0,
{
    let chunks = match parse_png(data) {
        Err(e) => {
            return Err(e);
        },
        Ok(chunks) => chunks,
    };
    let ghost cs = chunks@.map_values(|c: PngChunk| c@);
    proof {
        lemma_parse_chunks_wf(data@.skip(8));
        lemma_kept_props(cs);
    }
    let mut kept = remove_exif_chunks(chunks);
    let ghost kept_views = kept_chunks(cs);

    // Build the new metadata chunk.
    let envelope = encode_metadata_png(general_encoded_metadata);
    let mut chunk_data: Vec<u8> = Vec::new();
    push_marker(&mut chunk_data);
    let mut compressed = zlib_compress(envelope.as_slice());
    chunk_data.append(&mut compressed);
    proof {
        assert(chunk_data@ =~= exif_chunk_view(general_encoded_metadata@).data);
    }
    if chunk_data.len() > 0xffffffff {
        return Err(MetaError::TooLarge);
    }
    let new_chunk = PngChunk { chunk_type: [0x7a, 0x54, 0x58, 0x74], data: chunk_data };
    proof {
        assert(new_chunk@.ctype =~= ztxt_type_seq());
        assert(new_chunk@ == exif_chunk_view(general_encoded_metadata@));
    }

    // Splice it in after the first kept chunk.
    let first = kept.remove(0);
    let mut result_chunks: Vec<PngChunk> = Vec::new();
    result_chunks.push(first);
    result_chunks.push(new_chunk);
    result_chunks.append(&mut kept);
    proof {
        assert(result_chunks@.map_values(|c: PngChunk| c@) =~= seq![
            kept_views[0],
            exif_chunk_view(general_encoded_metadata@),
        ] + kept_views.skip(1));
        assert forall|i: int|
            0 <= i < result_chunks@.len() implies wf_chunk(
            (#[trigger] result_chunks@[i])@,
        ) by {
            let rv = result_chunks@.map_values(|c: PngChunk| c@);
            assert(result_chunks@[i]@ == rv[i]);
            if i >= 2 {
                assert(rv[i] == kept_views[i - 1]);
            }
        }
    }
    Ok(serialize_chunks(&result_chunks))
}

/// Clearing is idempotent: clearing an already cleared image gives the same
/// bytes back, byte for byte.
pub proof fn lemma_clear_idempotent(b: Seq<u8>)
    requires
        clear_spec(b) is Ok,
    ensures
        clear_spec(clear_spec(b)->Ok_0) == clear_spec(b),
{
    let cs = parse_png_spec(b)->Ok_0;
    assert(b.len() >= 8 && b.subrange(0, 8) == png_signature_seq());
    lemma_parse_chunks_wf(b.skip(8));
    lemma_kept_props(cs);
    let kept = kept_chunks(cs);
    let out = png_bytes(kept);
    lemma_parse_of_png_bytes(kept);
    assert(parse_png_spec(out) == Ok::<_, MetaError>(kept));
    lemma_kept_all(kept);
    assert(clear_spec(out) == Ok::<_, MetaError>(png_bytes(kept)));
}

/// Reading back a freshly written payload recovers it.
///
/// For a valid image whose first chunk is not the closing one, a successful
/// write leaves an image that parses cleanly, whose first metadata chunk is
/// the newly spliced one, whose body past the marker is the compressed text
/// envelope of the payload, and that envelope decodes to the payload. With
/// the contracts of the write and read functions this is the write/read
/// round trip.
#[verifier::rlimit(100)]
pub proof fn lemma_write_read_roundtrip(b: Seq<u8>, payload: Seq<u8>)
    requires
        payload.len() + 7 < 100000000,
        write_spec(b, payload) is Ok,
        !is_iend(parse_png_spec(b)->Ok_0[0]),
        !is_exif_chunk(parse_png_spec(b)->Ok_0[0]),
    ensures
        ({
            let out = write_spec(b, payload)->Ok_0;
            let parsed = parse_png_spec(out);
            &&& parsed is Ok
            &&& find_exif(parsed->Ok_0) == Some(1int)
            &&& parsed->Ok_0[1].data.skip(23) == zlib_deflate_of(envelope_encode_spec(payload))
            &&& envelope_decode_spec(envelope_encode_spec(payload)) == Ok::<_, MetaError>(
                payload,
            )
        }),
{
    let cs = parse_png_spec(b)->Ok_0;
    lemma_parse_chunks_wf(b.skip(8));
    lemma_kept_props(cs);
    let kept = kept_chunks(cs);
    let nc = exif_chunk_view(payload);
    let cs2 = seq![kept[0], nc] + kept.skip(1);
    let out = write_spec(b, payload)->Ok_0;
    assert(out == png_bytes(cs2));

    // The first kept chunk is the first chunk of the image, unclipped.
    assert(kept[0] == cs[0]) by {
        reveal(Seq::filter);
        lemma_kept_first(cs);
    }
    assert(!is_iend(kept[0]));
    assert(!is_exif_chunk(kept[0]));

    // The spliced run is well formed, so it parses back to itself.
    assert(wf_chunk(nc)) by {
        assert(nc.ctype =~= ztxt_type_seq());
        assert(forall|i: int| 0 <= i < 4 ==> is_ascii_letter(#[trigger] ztxt_type_seq()[i]));
    }
    assert(!is_iend(nc)) by {
        if nc.ctype == iend_type_seq() {
            assert(nc.ctype[0] == 0x49 && nc.ctype[0] == 0x7a);
        }
    }
    assert(is_exif_chunk(nc)) by {
        assert(nc.data.subrange(0, 23) =~= raw_profile_type_exif_seq());
    }
    assert(cs2.len() == kept.len() + 1);
    assert(cs2.last() == kept.last()) by {
        assert(cs2[cs2.len() - 1] == kept.skip(1)[kept.len() - 2]);
        assert(kept.skip(1)[kept.len() - 2] == kept[kept.len() - 1]);
    }
    assert forall|i: int| 0 <= i < cs2.len() implies wf_chunk(#[trigger] cs2[i]) by {
        if i >= 2 {
            assert(cs2[i] == kept.skip(1)[i - 2]);
            assert(kept.skip(1)[i - 2] == kept[i - 1]);
        }
    }
    assert forall|i: int| 0 <= i < cs2.len() - 1 implies !is_iend(#[trigger] cs2[i]) by {
        if i >= 2 {
            assert(cs2[i] == kept.skip(1)[i - 2]);
            assert(kept.skip(1)[i - 2] == kept[i - 1]);
        }
    }
    lemma_parse_of_png_bytes(cs2);

    // The new chunk is the first metadata chunk of the result.
    assert(cs2[1] == nc);
    assert forall|j: int| 0 <= j < 1 implies !is_exif_chunk(#[trigger] cs2[j]) by {
        assert(cs2[0] == kept[0]);
    }
    lemma_find_exif_exact(cs2, 1);
    assert(cs2[1].data.skip(23) =~= zlib_deflate_of(envelope_encode_spec(payload)));
    crate::envelope::lemma_envelope_roundtrip(payload);
}

/// The first chunk survives the clear filter in first position whenever it
/// is not a metadata chunk and the filtered run is nonempty.
proof fn lemma_kept_first(cs: Seq<ChunkView>)
    requires
        cs.len() >= 1,
        !is_exif_chunk(cs[0]),
    ensures
        kept_chunks(cs).len() >= 1,
        kept_chunks(cs)[0] == cs[0],
    decreases cs.len(),
{
    reveal(Seq::filter);
    if cs.len() == 1 {
        assert(cs.drop_last() =~= Seq::<ChunkView>::empty());
    } else {
        let front = cs.drop_last();
        assert(front[0] == cs[0]);
        lemma_kept_first(front);
        if !is_exif_chunk(cs.last()) {
            assert(kept_chunks(cs) == kept_chunks(front).push(cs.last()));
            assert(kept_chunks(cs)[0] == kept_chunks(front)[0]);
        }
    }
}

} // verus!

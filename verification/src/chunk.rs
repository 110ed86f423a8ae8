use vstd::prelude::*;
use vstd::slice::{slice_subrange, slice_to_vec};
use vstd::utf8::{valid_utf8, decode_utf8, encode_utf8, encode_scalar};
use crate::chunk_type::{ChunkType, spec_name_valid, spec_name_code};

verus! {

/// Everything that can go wrong while decoding, building or querying a
/// container or one of its chunks.
#[derive(Debug, Clone, Copy, PartialEq, Eq, Structural)]
pub enum ChunkError {
    /// The stream does not begin with the fixed 8-byte signature.
    BadSignature,
    /// Truncated framing: `needed` bytes were required but only
    /// `available` were present.
    TooShort { needed: u64, available: u64 },
    /// The checksum recomputed over type + payload (`expected`) disagrees
    /// with the stored one (`actual`).
    ChecksumMismatch { expected: u32, actual: u32 },
    /// No chunk of the requested type is present in the container.
    ChunkNotFound,
    /// A type name that is not four ASCII letters.
    InvalidTypeName,
    /// A payload that is not valid UTF-8 cannot be read as text.
    InvalidText,
}

/// The IEEE CRC-32 of a byte sequence, as the checksum algorithm defines
/// it.  The value is pinned only by the trusted wrapper below: contracts
/// speak of this name, never of the algorithm itself.
pub uninterp spec fn crc32_of(data: Seq<u8>) -> u32;

/// Relies on crc32fast::hash: the IEEE CRC-32 of the input, a function of
/// the bytes alone.
#[verifier::external_body]
pub(crate) fn crc32(data: &[u8]) -> (r: u32)
    ensures
        r == crc32_of(data@),
{
    crc32fast::hash(data)
}

/// What String::from_utf8_lossy returns: a function of the bytes alone.
pub uninterp spec fn lossy_of(bytes: Seq<u8>) -> Seq<char>;

/// Relies on String::from_utf8_lossy: the result depends on the bytes
/// alone, and valid UTF-8 input is decoded exactly.
#[verifier::external_body]
pub(crate) fn lossy_string(bytes: &[u8]) -> (r: String)
    ensures
        r@ == lossy_of(bytes@),
        valid_utf8(bytes@) ==> r@ == decode_utf8(bytes@),
{
    String::from_utf8_lossy(bytes).into_owned()
}

/// Relies on String::from_utf8: succeeds exactly on valid UTF-8 input and
/// decodes it.
#[verifier::external_body]
pub(crate) fn utf8_string(bytes: &[u8]) -> (r: Option<String>)
    ensures
        r is Some <==> valid_utf8(bytes@),
        r matches Some(s) ==> s@ == decode_utf8(bytes@),
{
    match String::from_utf8(bytes.to_vec()) {
        Ok(s) => Some(s),
        Err(_) => None,
    }
}

/// The 4 big-endian bytes of a 32-bit value, most significant first.
pub open spec fn be_bytes(x: u32) -> Seq<u8> {
    seq![
        ((x >> 24) & 0xff) as u8,
        ((x >> 16) & 0xff) as u8,
        ((x >> 8) & 0xff) as u8,
        (x & 0xff) as u8,
    ]
}

/// The 32-bit value read big-endian from the first 4 bytes of a sequence.
pub open spec fn be_val(s: Seq<u8>) -> u32 {
    ((s[0] as u32) << 24) | ((s[1] as u32) << 16) | ((s[2] as u32) << 8) | (s[3] as u32)
}

pub proof fn lemma_be_val_of_be_bytes(x: u32)
    ensures
        be_val(be_bytes(x)) == x,
{
    assert(((((x >> 24) & 0xff) as u8 as u32) << 24) | ((((x >> 16) & 0xff) as u8 as u32) << 16)
        | ((((x >> 8) & 0xff) as u8 as u32) << 8) | ((x & 0xff) as u8 as u32) == x) by (bit_vector);
}

/// Appends the big-endian encoding of `x` to `out`.
pub(crate) fn push_be_u32(out: &mut Vec<u8>, x: u32)
    ensures
        final(out)@ == old(out)@ + be_bytes(x),
{
    proof {
        assert((x >> 24) & 0xff < 256 && (x >> 16) & 0xff < 256 && (x >> 8) & 0xff < 256 && x
            & 0xff < 256) by (bit_vector);
    }
    out.push(((x >> 24) & 0xff) as u8);
    out.push(((x >> 16) & 0xff) as u8);
    out.push(((x >> 8) & 0xff) as u8);
    out.push((x & 0xff) as u8);
    proof {
        assert(final(out)@ =~= old(out)@ + be_bytes(x));
    }
}

/// Reads a 32-bit value big-endian at offset `off`.
pub(crate) fn read_be_u32(s: &[u8], off: usize) -> (r: u32)
    requires
        off + 4 <= s@.len(),
    ensures
        r == be_val(s@.subrange(off as int, off as int + 4)),
{
    let b0 = s[off];
    let b1 = s[off + 1];
    let b2 = s[off + 2];
    let b3 = s[off + 3];
    let r = ((b0 as u32) << 24) | ((b1 as u32) << 16) | ((b2 as u32) << 8) | (b3 as u32);
    proof {
        let sub = s@.subrange(off as int, off as int + 4);
        assert(sub[0] == b0 && sub[1] == b1 && sub[2] == b2 && sub[3] == b3);
    }
    r
}

/// Appends all of `src` to `dst`.
pub(crate) fn append_bytes(dst: &mut Vec<u8>, src: &[u8])
    ensures
        final(dst)@ == old(dst)@ + src@,
{
    let n = src.len();
    let mut i: usize = 0;
    while i < n
        invariant
            i <= n,
            n == src@.len(),
            dst@ == old(dst)@ + src@.subrange(0, i as int),
        decreases n - i,
    {
        dst.push(src[i]);
        proof {
            assert(old(dst)@ + src@.subrange(0, i as int) + seq![src@[i as int]] =~= old(dst)@
                + src@.subrange(0, i as int + 1));
        }
        i = i + 1;
    }
    proof {
        assert(src@.subrange(0, n as int) =~= src@);
    }
}

/// The mathematical content of one chunk: its type code, its payload, and
/// the checksum stored with it.  The on-disk length field is derived from
/// the payload and is not part of the model.
#[verifier::ext_equal]
pub struct ChunkModel {
    pub code: Seq<u8>,
    pub data: Seq<u8>,
    pub crc: u32,
}

impl ChunkModel {
    /// A well-formed chunk has a 4-byte code, a payload whose length fits
    /// the 32-bit length field, and the checksum derived from
    /// type + payload.
    pub open spec fn wf(self) -> bool {
        self.code.len() == 4 && self.data.len() <= 0xffff_ffff && self.crc == crc32_of(
            self.code + self.data,
        )
    }
}

/// The byte encoding of one chunk: big-endian payload length, type code,
/// payload, big-endian checksum.
pub open spec fn spec_chunk_encode(m: ChunkModel) -> Seq<u8> {
    be_bytes(m.data.len() as u32) + m.code + m.data + be_bytes(m.crc)
}

/// What decoding a byte sequence as one chunk yields: the chunk read from
/// the front of the sequence (trailing bytes are the caller's concern), or
/// the first error met.
pub open spec fn spec_chunk_decode(s: Seq<u8>) -> Result<ChunkModel, ChunkError> {
    if s.len() < 12 {
        Err(ChunkError::TooShort { needed: 12, available: s.len() as u64 })
    } else {
        let l = be_val(s.subrange(0, 4)) as int;
        if s.len() < 12 + l {
            Err(ChunkError::TooShort { needed: (12 + l) as u64, available: s.len() as u64 })
        } else {
            let code = s.subrange(4, 8);
            let data = s.subrange(8, 8 + l);
            let stored = be_val(s.subrange(8 + l, 12 + l));
            let computed = crc32_of(code + data);
            if stored != computed {
                Err(ChunkError::ChecksumMismatch { expected: computed, actual: stored })
            } else {
                Ok(ChunkModel { code, data, crc: stored })
            }
        }
    }
}

/// One length-prefixed, checksummed record: type code + payload +
/// checksum.  Immutable once constructed; the checksum is always derived
/// (at construction) or verified (at decode), never accepted blindly.
#[derive(Debug)]
pub struct Chunk {
    length: u32,
    chunk_type: ChunkType,
    chunk_data: Vec<u8>,
    crc: u32,
}

impl View for Chunk {
    type V = ChunkModel;

    closed spec fn view(&self) -> ChunkModel {
        ChunkModel {
            code: self.chunk_type.spec_bytes(),
            data: self.chunk_data@,
            crc: self.crc,
        }
    }
}

impl Chunk {
    /// Every chunk value is well formed and carries the derived length.
    #[verifier::type_invariant]
    pub closed spec fn wf(self) -> bool {
        self@.wf() && self.length == self.chunk_data@.len()
    }

    /// Builds a chunk from a type code and a payload, deriving length and
    /// checksum.  The payload length must fit the 32-bit length field.
    pub fn new(chunk_type: ChunkType, data: Vec<u8>) -> (r: Chunk)
        requires
            data@.len() <= 0xffff_ffff,
        ensures
            r@ == (ChunkModel {
                code: chunk_type.spec_bytes(),
                data: data@,
                crc: crc32_of(chunk_type.spec_bytes() + data@),
            }),
    {
        let data_len = data.len() as u32;
        let type_bytes = chunk_type.bytes();
        let mut buf: Vec<u8> = Vec::new();
        append_bytes(&mut buf, type_bytes.as_slice());
        append_bytes(&mut buf, data.as_slice());
        proof {
            assert(buf@ =~= chunk_type.spec_bytes() + data@);
        }
        let checksum: u32 = crc32(buf.as_slice());
        Chunk { length: data_len, chunk_type, chunk_data: data, crc: checksum }
    }

    /// The payload length in bytes.
    pub fn length(&self) -> (r: u32)
        ensures
            r == self@.data.len(),
    {
        proof {
            use_type_invariant(self);
        }
        self.length
    }

    /// The chunk's type code.
    pub fn chunk_type(&self) -> (r: &ChunkType)
        ensures
            r.spec_bytes() == self@.code,
    {
        &self.chunk_type
    }

    /// The payload, an opaque byte sequence.
    pub fn data(&self) -> (r: &[u8])
        ensures
            r@ == self@.data,
    {
        self.chunk_data.as_slice()
    }

    /// The stored CRC-32 checksum over type + payload.
    pub fn crc(&self) -> (r: u32)
        ensures
            r == self@.crc,
            r == crc32_of(self@.code + self@.data),
    {
        proof {
            use_type_invariant(self);
        }
        self.crc
    }

    /// Reads the payload as text: succeeds exactly when it is valid UTF-8,
    /// and then decodes it; anything else is `InvalidText`.
    pub fn data_as_string(&self) -> (r: Result<String, ChunkError>)
        ensures
            r is Ok <==> valid_utf8(self@.data),
            r matches Ok(s) ==> s@ == decode_utf8(self@.data),
            r matches Err(e) ==> e == ChunkError::InvalidText,
    {
        match utf8_string(self.chunk_data.as_slice()) {
            Some(s) => Ok(s),
            None => Err(ChunkError::InvalidText),
        }
    }

    /// The chunk's byte encoding: big-endian length, type code, payload,
    /// big-endian checksum.
    pub fn as_bytes(&self) -> (r: Vec<u8>)
        ensures
            r@ == spec_chunk_encode(self@),
    {
        proof {
            use_type_invariant(self);
        }
        let mut out: Vec<u8> = Vec::new();
        push_be_u32(&mut out, self.length);
        let type_bytes = self.chunk_type.bytes();
        append_bytes(&mut out, type_bytes.as_slice());
        append_bytes(&mut out, self.chunk_data.as_slice());
        push_be_u32(&mut out, self.crc);
        proof {
            assert(out@ =~= spec_chunk_encode(self@));
        }
        out
    }

    /// Decodes one chunk from the front of `bytes`, verifying framing and
    /// checksum.  Trailing bytes are ignored: the caller locates the next
    /// chunk at offset 12 + payload length.
    pub fn decode(bytes: &[u8]) -> (r: Result<Chunk, ChunkError>)
        ensures
            r matches Ok(c) ==> spec_chunk_decode(bytes@) == Ok::<ChunkModel, ChunkError>(c@),
            r matches Err(e) ==> spec_chunk_decode(bytes@) == Err::<ChunkModel, ChunkError>(e),
    {
        let n = bytes.len();
        if n < 12 {
            return Err(ChunkError::TooShort { needed: 12, available: n as u64 });
        }
        let l = read_be_u32(bytes, 0);
        let l_us = l as usize;
        if n - 12 < l_us {
            return Err(
                ChunkError::TooShort { needed: 12 + l as u64, available: n as u64 },
            );
        }
        let type_bytes = [bytes[4], bytes[5], bytes[6], bytes[7]];
        let chunk_type = ChunkType::from_bytes(type_bytes);
        let payload: Vec<u8> = slice_to_vec(slice_subrange(bytes, 8, 8 + l_us));
        let stored = read_be_u32(bytes, 8 + l_us);
        let computed = crc32(slice_subrange(bytes, 4, 8 + l_us));
        proof {
            assert(bytes@.subrange(4, 8 + l_us as int) =~= bytes@.subrange(4, 8)
                + bytes@.subrange(8, 8 + l_us as int));
            assert(type_bytes@ =~= bytes@.subrange(4, 8));
        }
        if stored != computed {
            return Err(ChunkError::ChecksumMismatch { expected: computed, actual: stored });
        }
        let c = Chunk { length: l, chunk_type, chunk_data: payload, crc: stored };
        proof {
            assert(spec_chunk_decode(bytes@) == Ok::<ChunkModel, ChunkError>(c@));
        }
        Ok(c)
    }
}

/// A UTF-8 encoding takes at most 4 bytes per character.
pub proof fn lemma_encode_utf8_len(chars: Seq<char>)
    ensures
        encode_utf8(chars).len() <= 4 * chars.len(),
    decreases chars.len(),
{
    if chars.len() > 0 {
        assert(encode_scalar(chars[0] as u32).len() <= 4);
        lemma_encode_utf8_len(chars.drop_first());
    }
}

/// Builds a chunk from a type name and a text payload: the name must be
/// four ASCII letters, the payload becomes the UTF-8 bytes of the text,
/// and the checksum is derived.  The text must be short enough for its
/// encoding to fit the 32-bit length field.
pub fn chunk_from_strings(chunk_type: &str, data: &str) -> (r: Result<Chunk, ChunkError>)
    requires
        data@.len() <= 0x3fff_ffff,
    ensures
        r is Ok <==> spec_name_valid(chunk_type@),
        r matches Ok(c) ==> c@ == (ChunkModel {
            code: spec_name_code(chunk_type@),
            data: encode_utf8(data@),
            crc: crc32_of(spec_name_code(chunk_type@) + encode_utf8(data@)),
        }),
        r matches Err(e) ==> e == ChunkError::InvalidTypeName,
{
    let looked_up = ChunkType::from_name(chunk_type);
    let t: ChunkType;
    match looked_up {
        Err(e) => {
            return Err(e);
        },
        Ok(tt) => {
            t = tt;
        },
    }
    let bytes = data.as_bytes_vec();
    proof {
        lemma_encode_utf8_len(data@);
    }
    Ok(Chunk::new(t, bytes))
}

/// Decoding an encoded chunk followed by any trailing bytes yields the
/// chunk back, untouched by the suffix.
pub proof fn lemma_chunk_decode_with_suffix(m: ChunkModel, rest: Seq<u8>)
    requires
        m.wf(),
    ensures
        spec_chunk_decode(spec_chunk_encode(m) + rest) == Ok::<ChunkModel, ChunkError>(m),
{
    let s = spec_chunk_encode(m) + rest;
    let l = m.data.len() as int;
    assert(s.len() == 12 + l + rest.len());
    assert(s.subrange(0, 4) =~= be_bytes(m.data.len() as u32));
    lemma_be_val_of_be_bytes(m.data.len() as u32);
    assert(be_val(s.subrange(0, 4)) as int == l);
    assert(s.subrange(4, 8) =~= m.code);
    assert(s.subrange(8, 8 + l) =~= m.data);
    assert(s.subrange(8 + l, 12 + l) =~= be_bytes(m.crc));
    lemma_be_val_of_be_bytes(m.crc);
    assert(spec_chunk_decode(s) matches Ok(d) && d =~= m);
}

/// Round trip: decoding an encoded chunk yields an equal chunk (same
/// type, payload and checksum).
pub proof fn lemma_chunk_round_trip(m: ChunkModel)
    requires
        m.wf(),
    ensures
        spec_chunk_decode(spec_chunk_encode(m)) == Ok::<ChunkModel, ChunkError>(m),
{
    assert(spec_chunk_encode(m) + Seq::<u8>::empty() =~= spec_chunk_encode(m));
    lemma_chunk_decode_with_suffix(m, Seq::<u8>::empty());
}

/// Truncation: a buffer cut off anywhere before the end of a chunk's
/// encoding — inside the framing, the declared payload or the checksum —
/// fails to decode with `TooShort`.
pub proof fn lemma_truncated_chunk_too_short(m: ChunkModel, k: int)
    requires
        m.wf(),
        0 <= k < spec_chunk_encode(m).len(),
    ensures
        (spec_chunk_decode(spec_chunk_encode(m).subrange(0, k)) matches Err(e) && (e matches
        ChunkError::TooShort { .. })),
{
    let s = spec_chunk_encode(m).subrange(0, k);
    let l = m.data.len() as int;
    if k < 12 {
    } else {
        assert(s.subrange(0, 4) =~= be_bytes(m.data.len() as u32));
        lemma_be_val_of_be_bytes(m.data.len() as u32);
        assert(be_val(s.subrange(0, 4)) as int == l);
        assert(s.len() < 12 + l);
    }
}

/// A corrupted type code or payload is rejected: when the bytes in the
/// type + payload region no longer hash to the stored checksum, decoding
/// fails with `ChecksumMismatch`.
pub proof fn lemma_corrupted_chunk_rejected(m: ChunkModel, s: Seq<u8>)
    requires
        m.wf(),
        s.len() == spec_chunk_encode(m).len(),
        s.subrange(0, 4) == spec_chunk_encode(m).subrange(0, 4),
        s.subrange(8 + m.data.len() as int, 12 + m.data.len() as int) == spec_chunk_encode(
            m,
        ).subrange(8 + m.data.len() as int, 12 + m.data.len() as int),
        crc32_of(s.subrange(4, 8) + s.subrange(8, 8 + m.data.len() as int)) != crc32_of(
            m.code + m.data,
        ),
    ensures
        (spec_chunk_decode(s) matches Err(e) && (e matches ChunkError::ChecksumMismatch { .. })),
{
    let l = m.data.len() as int;
    let enc = spec_chunk_encode(m);
    assert(s.subrange(0, 4) =~= be_bytes(m.data.len() as u32)) by {
        assert(enc.subrange(0, 4) =~= be_bytes(m.data.len() as u32));
    }
    lemma_be_val_of_be_bytes(m.data.len() as u32);
    assert(be_val(s.subrange(0, 4)) as int == l);
    assert(s.subrange(8 + l, 12 + l) =~= be_bytes(m.crc)) by {
        assert(enc.subrange(8 + l, 12 + l) =~= be_bytes(m.crc));
    }
    lemma_be_val_of_be_bytes(m.crc);
    assert(be_val(s.subrange(8 + l, 12 + l)) == m.crc);
}

/// Checksum sensitivity: flipping one bit of a chunk's type code or
/// payload while re-using the original stored checksum makes decoding
/// fail with `ChecksumMismatch`, provided the flip changes the CRC-32 of
/// type + payload.  That every single-bit flip does change the CRC-32 is
/// a property of the checksum algorithm itself, exercised by test rather
/// than proved here.
pub proof fn lemma_bit_flip_rejected(m: ChunkModel, pos: int, bit: u8)
    requires
        m.wf(),
        4 <= pos < 8 + m.data.len(),
        bit < 8,
        ({
            let s = spec_chunk_encode(m).update(
                pos,
                spec_chunk_encode(m)[pos] ^ (1u8 << bit),
            );
            crc32_of(s.subrange(4, 8 + m.data.len() as int)) != crc32_of(m.code + m.data)
        }),
    ensures
        ({
            let s = spec_chunk_encode(m).update(
                pos,
                spec_chunk_encode(m)[pos] ^ (1u8 << bit),
            );
            spec_chunk_decode(s) matches Err(e) && (e matches ChunkError::ChecksumMismatch { .. })
        }),
{
    let enc = spec_chunk_encode(m);
    let l = m.data.len() as int;
    let s = enc.update(pos, enc[pos] ^ (1u8 << bit));
    assert(s.subrange(0, 4) =~= enc.subrange(0, 4));
    assert(s.subrange(8 + l, 12 + l) =~= enc.subrange(8 + l, 12 + l));
    assert(s.subrange(4, 8 + l) =~= s.subrange(4, 8) + s.subrange(8, 8 + l));
    lemma_corrupted_chunk_rejected(m, s);
}

} // verus!

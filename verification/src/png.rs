use vstd::prelude::*;
use vstd::slice::{slice_subrange, slice_index_get};
use crate::chunk::{
    Chunk, ChunkError, ChunkModel, append_bytes, spec_chunk_encode, spec_chunk_decode,
    lemma_chunk_decode_with_suffix, lossy_of,
};
use crate::chunk_type::{ChunkType, spec_name_valid, spec_name_code};

verus! {

/// The fixed 8-byte magic sequence that opens every valid stream.
pub open spec fn spec_signature() -> Seq<u8> {
    seq![137u8, 80u8, 78u8, 71u8, 13u8, 10u8, 26u8, 10u8]
}

/// The byte encoding of a chunk sequence: each chunk's encoding, in order.
pub open spec fn spec_chunks_encode(cs: Seq<ChunkModel>) -> Seq<u8>
    decreases cs.len(),
{
    if cs.len() == 0 {
        Seq::empty()
    } else {
        spec_chunk_encode(cs[0]) + spec_chunks_encode(cs.drop_first())
    }
}

/// The byte encoding of a whole container: signature, then the chunks.
pub open spec fn spec_png_encode(cs: Seq<ChunkModel>) -> Seq<u8> {
    spec_signature() + spec_chunks_encode(cs)
}

/// What decoding a byte sequence as a chunk stream yields: chunks read one
/// after the other until the input is exhausted, or the first error met.
pub open spec fn spec_decode_chunks(s: Seq<u8>) -> Result<Seq<ChunkModel>, ChunkError>
    decreases s.len(),
{
    if s.len() == 0 {
        Ok(Seq::empty())
    } else {
        match spec_chunk_decode(s) {
            Err(e) => Err(e),
            Ok(m) => if 12 + m.data.len() <= s.len() {
                match spec_decode_chunks(s.skip(12 + m.data.len() as int)) {
                    Err(e) => Err(e),
                    Ok(rest) => Ok(seq![m] + rest),
                }
            } else {
                // cannot happen: a decoded chunk fits in its input
                Ok(seq![m])
            },
        }
    }
}

/// What decoding a byte sequence as a whole container yields: the
/// signature is checked first, then the chunk stream fills the rest.
pub open spec fn spec_png_decode(s: Seq<u8>) -> Result<Seq<ChunkModel>, ChunkError> {
    if s.len() < 8 || s.subrange(0, 8) != spec_signature() {
        Err(ChunkError::BadSignature)
    } else {
        spec_decode_chunks(s.skip(8))
    }
}

/// A decode result with a sequence of already-decoded chunks put in front
/// of it; errors pass through.
pub open spec fn prepend_chunks(
    prefix: Seq<ChunkModel>,
    r: Result<Seq<ChunkModel>, ChunkError>,
) -> Result<Seq<ChunkModel>, ChunkError> {
    match r {
        Ok(rest) => Ok(prefix + rest),
        Err(e) => Err(e),
    }
}

/// The full decoded representation of one image file: the signature plus
/// an ordered chunk sequence.  The container owns its chunks; order is the
/// on-disk order and round-trips exactly.
#[derive(Debug)]
pub struct Png {
    chunks: Vec<Chunk>,
}

/// The models of a sequence of chunks, in order.
pub open spec fn views_of(chunks: Seq<Chunk>) -> Seq<ChunkModel> {
    Seq::new(chunks.len(), |i: int| chunks[i]@)
}

impl View for Png {
    type V = Seq<ChunkModel>;

    closed spec fn view(&self) -> Seq<ChunkModel> {
        views_of(self.chunks@)
    }
}

/// Byte-for-byte comparison of two type codes.
fn same_code(x: &ChunkType, y: &ChunkType) -> (r: bool)
    ensures
        r == (x.spec_bytes() == y.spec_bytes()),
{
    *x == *y
}

impl Png {
    /// The signature bytes.
    pub fn standard_header() -> (r: [u8; 8])
        ensures
            r@ == spec_signature(),
    {
        let r = [137u8, 80u8, 78u8, 71u8, 13u8, 10u8, 26u8, 10u8];
        proof {
            assert(r@ =~= spec_signature());
        }
        r
    }

    /// A container holding the given chunks, in order.
    pub fn from_chunks(chunks: Vec<Chunk>) -> (r: Png)
        ensures
            r@ == views_of(chunks@),
    {
        Png { chunks }
    }

    /// The chunks, in container order.
    pub fn chunks(&self) -> (r: &[Chunk])
        ensures
            views_of(r@) == self@,
    {
        self.chunks.as_slice()
    }

    /// Decodes a container from a complete byte buffer: the signature,
    /// then chunks until the input is exhausted.  The first error met is
    /// returned and no partial container escapes.
    pub fn from_bytes(bytes: &[u8]) -> (r: Result<Png, ChunkError>)
        ensures
            r matches Ok(p) ==> spec_png_decode(bytes@) == Ok::<Seq<ChunkModel>, ChunkError>(p@),
            r matches Err(e) ==> spec_png_decode(bytes@) == Err::<Seq<ChunkModel>, ChunkError>(e),
    {
        let n = bytes.len();
        if n < 8 {
            return Err(ChunkError::BadSignature);
        }
        let header = Self::standard_header();
        let mut k: usize = 0;
        while k < 8
            invariant
                0 <= k <= 8,
                n == bytes@.len(),
                8 <= n,
                header@ == spec_signature(),
                forall|j: int| 0 <= j < k ==> bytes@[j] == spec_signature()[j],
            decreases 8 - k,
        {
            if bytes[k] != header[k] {
                proof {
                    assert(bytes@.subrange(0, 8)[k as int] != spec_signature()[k as int]);
                }
                return Err(ChunkError::BadSignature);
            }
            k = k + 1;
        }
        proof {
            assert(bytes@.subrange(0, 8) =~= spec_signature());
        }
        let mut chunks: Vec<Chunk> = Vec::new();
        let mut cursor: usize = 8;
        while cursor < n
            invariant
                8 <= cursor <= n,
                n == bytes@.len(),
                bytes@.subrange(0, 8) == spec_signature(),
                spec_decode_chunks(bytes@.skip(8)) == prepend_chunks(
                    views_of(chunks@),
                    spec_decode_chunks(bytes@.skip(cursor as int)),
                ),
            decreases n - cursor,
        {
            let tail = slice_subrange(bytes, cursor, n);
            proof {
                assert(tail@ =~= bytes@.skip(cursor as int));
            }
            match Chunk::decode(tail) {
                Err(e) => {
                    return Err(e);
                },
                Ok(c) => {
                    let l_us = c.length() as usize;
                    proof {
                        assert(tail@.len() >= 12 + c@.data.len());
                    }
                    let next = cursor + 12 + l_us;
                    proof {
                        let ghost t = bytes@.skip(cursor as int);
                        let ghost l = c@.data.len() as int;
                        assert(bytes@.skip(next as int) =~= t.skip(12 + l));
                        assert(views_of(chunks@.push(c)) =~= views_of(chunks@).push(c@));
                        let ghost r2 = spec_decode_chunks(t.skip(12 + l));
                        if r2 is Ok {
                            let ghost rest = r2->Ok_0;
                            assert(views_of(chunks@) + (seq![c@] + rest) =~= views_of(
                                chunks@,
                            ).push(c@) + rest);
                        }
                    }
                    chunks.push(c);
                    cursor = next;
                },
            }
        }
        proof {
            assert(bytes@.skip(n as int) =~= Seq::<u8>::empty());
            assert(views_of(chunks@) + Seq::<ChunkModel>::empty() =~= views_of(chunks@));
        }
        Ok(Png { chunks })
    }

    /// Serializes the container: the signature followed by each chunk's
    /// encoding, in order.  A pure read; repeatable.
    pub fn as_bytes(&self) -> (r: Vec<u8>)
        ensures
            r@ == spec_png_encode(self@),
    {
        let mut out: Vec<u8> = Vec::new();
        let header = Self::standard_header();
        append_bytes(&mut out, header.as_slice());
        let n = self.chunks.len();
        let mut i: usize = 0;
        while i < n
            invariant
                0 <= i <= n,
                n == self.chunks@.len(),
                out@ == spec_signature() + spec_chunks_encode(self@.subrange(0, i as int)),
            decreases n - i,
        {
            let chunk_bytes = slice_index_get(self.chunks.as_slice(), i).as_bytes();
            append_bytes(&mut out, chunk_bytes.as_slice());
            proof {
                assert(self@.subrange(0, i as int + 1) =~= self@.subrange(0, i as int).push(
                    self@[i as int],
                ));
                lemma_chunks_encode_snoc(self@.subrange(0, i as int), self@[i as int]);
            }
            i = i + 1;
        }
        proof {
            assert(self@.subrange(0, n as int) =~= self@);
        }
        out
    }

    /// Appends a chunk at the end of the sequence; existing chunks keep
    /// their order.
    pub fn append_chunk(&mut self, chunk: Chunk)
        ensures
            final(self)@ == old(self)@.push(chunk@),
    {
        self.chunks.push(chunk);
        proof {
            assert(views_of(self.chunks@) =~= views_of(old(self).chunks@).push(chunk@));
        }
    }

    /// Finds the first chunk whose type code matches the given name, by a
    /// linear scan in container order.  A name that is not a well-formed
    /// type name matches nothing.
    pub fn chunk_by_type(&self, name: &str) -> (r: Option<&Chunk>)
        ensures
            !spec_name_valid(name@) ==> r is None,
            r matches Some(c) ==> spec_name_valid(name@) && exists|i: int|
                0 <= i < self@.len() && (#[trigger] self@[i]).code == spec_name_code(name@) && c@
                    == self@[i] && (forall|j: int|
                    0 <= j < i ==> self@[j].code != spec_name_code(name@)),
            (r is None && spec_name_valid(name@)) ==> forall|i: int|
                0 <= i < self@.len() ==> (#[trigger] self@[i]).code != spec_name_code(name@),
    {
        let looked_up = ChunkType::from_name(name);
        let target: ChunkType;
        match looked_up {
            Err(_) => {
                return None;
            },
            Ok(t) => {
                target = t;
            },
        }
        let n = self.chunks.len();
        let mut i: usize = 0;
        while i < n
            invariant
                0 <= i <= n,
                n == self.chunks@.len(),
                spec_name_valid(name@),
                target.spec_bytes() == spec_name_code(name@),
                forall|j: int| 0 <= j < i ==> (#[trigger] self@[j]).code != spec_name_code(name@),
            decreases n - i,
        {
            let c = slice_index_get(self.chunks.as_slice(), i);
            if same_code(c.chunk_type(), &target) {
                proof {
                    assert(self@[i as int].code == spec_name_code(name@));
                }
                return Some(c);
            }
            proof {
                assert(self@[i as int].code != spec_name_code(name@));
            }
            i = i + 1;
        }
        None
    }

    /// Removes and returns the first chunk of the given type.  A malformed
    /// name is `InvalidTypeName`; a type not present is `ChunkNotFound`;
    /// either way the container is left unmodified.  On success all other
    /// chunks keep their relative order.
    pub fn remove_chunk(&mut self, name: &str) -> (r: Result<Chunk, ChunkError>)
        ensures
            !spec_name_valid(name@) ==> r == Err::<Chunk, ChunkError>(ChunkError::InvalidTypeName)
                && final(self)@ == old(self)@,
            r matches Ok(c) ==> spec_name_valid(name@) && exists|i: int|
                0 <= i < old(self)@.len() && (#[trigger] old(self)@[i]).code == spec_name_code(
                    name@,
                ) && c@ == old(self)@[i] && final(self)@ == old(self)@.remove(i) && (forall|j: int|
                    0 <= j < i ==> old(self)@[j].code != spec_name_code(name@)),
            (r is Err && spec_name_valid(name@)) ==> r == Err::<Chunk, ChunkError>(
                ChunkError::ChunkNotFound,
            ) && final(self)@ == old(self)@ && (forall|i: int|
                0 <= i < old(self)@.len() ==> (#[trigger] old(self)@[i]).code != spec_name_code(
                    name@,
                )),
    {
        let looked_up = ChunkType::from_name(name);
        let target: ChunkType;
        match looked_up {
            Err(_) => {
                return Err(ChunkError::InvalidTypeName);
            },
            Ok(t) => {
                target = t;
            },
        }
        let n = self.chunks.len();
        let mut i: usize = 0;
        while i < n
            invariant
                0 <= i <= n,
                n == self.chunks@.len(),
                self@ == old(self)@,
                spec_name_valid(name@),
                target.spec_bytes() == spec_name_code(name@),
                forall|j: int| 0 <= j < i ==> (#[trigger] self@[j]).code != spec_name_code(name@),
            decreases n - i,
        {
            let matches_here = {
                let c = slice_index_get(self.chunks.as_slice(), i);
                same_code(c.chunk_type(), &target)
            };
            if matches_here {
                proof {
                    assert(self@[i as int].code == spec_name_code(name@));
                }
                let removed = self.chunks.remove(i);
                proof {
                    assert(views_of(self.chunks@) =~= views_of(old(self).chunks@).remove(i as int));
                }
                return Ok(removed);
            }
            proof {
                assert(self@[i as int].code != spec_name_code(name@));
            }
            i = i + 1;
        }
        Err(ChunkError::ChunkNotFound)
    }

    /// A human-readable listing of the chunks: one line per chunk with its
    /// type name and payload length, in container order.  For display
    /// only, never persisted.
    pub fn render_for_display(&self) -> (r: String)
        ensures
            r@ == spec_render(self@),
    {
        let mut acc = String::new();
        let n = self.chunks.len();
        let mut i: usize = 0;
        while i < n
            invariant
                0 <= i <= n,
                n == self.chunks@.len(),
                acc@ == spec_render(self@.subrange(0, i as int)),
            decreases n - i,
        {
            let c = slice_index_get(self.chunks.as_slice(), i);
            let name = c.chunk_type().to_display_string();
            let len_str = u32_decimal(c.length());
            acc.append(name.as_str());
            acc.append(": ");
            acc.append(len_str.as_str());
            acc.append(" bytes\n");
            proof {
                reveal_strlit(": ");
                reveal_strlit(" bytes\n");
                assert((": ")@ =~= seq![':', ' ']);
                assert((" bytes\n")@ =~= seq![' ', 'b', 'y', 't', 'e', 's', '\n']);
                assert(self@.subrange(0, i as int + 1) =~= self@.subrange(0, i as int).push(
                    self@[i as int],
                ));
                lemma_render_snoc(self@.subrange(0, i as int), self@[i as int]);
                assert(acc@ =~= spec_render(self@.subrange(0, i as int)) + spec_render_line(
                    self@[i as int],
                ));
            }
            i = i + 1;
        }
        proof {
            assert(self@.subrange(0, n as int) =~= self@);
        }
        acc
    }
}

/// The digit character for a value in 0..10.
pub open spec fn digit_char(d: int) -> char {
    ((48 + d) as u8) as char
}

/// The decimal digits of `n`, most significant first; empty for values
/// at or below zero.
pub open spec fn dec_digits(n: int) -> Seq<char>
    decreases n,
{
    if n <= 0 {
        Seq::empty()
    } else {
        dec_digits(n / 10).push(digit_char(n % 10))
    }
}

/// The decimal rendering of a non-negative value: "0" for zero, its
/// digits otherwise.
pub open spec fn spec_decimal(n: int) -> Seq<char> {
    if n == 0 {
        seq![digit_char(0)]
    } else {
        dec_digits(n)
    }
}

/// One line of the human-readable listing: the chunk's type name, a
/// separator, and its payload length in bytes.
pub open spec fn spec_render_line(m: ChunkModel) -> Seq<char> {
    lossy_of(m.code) + seq![':', ' '] + spec_decimal(m.data.len() as int) + seq![
        ' ',
        'b',
        'y',
        't',
        'e',
        's',
        '\n',
    ]
}

/// The whole listing: one line per chunk, in container order.
pub open spec fn spec_render(cs: Seq<ChunkModel>) -> Seq<char>
    decreases cs.len(),
{
    if cs.len() == 0 {
        Seq::empty()
    } else {
        spec_render_line(cs[0]) + spec_render(cs.drop_first())
    }
}

/// The one-character string for a decimal digit.
fn digit_str(d: u8) -> (r: &'static str)
    requires
        d < 10,
    ensures
        r@ == seq![digit_char(d as int)],
{
    proof {
        reveal_strlit("0");
        reveal_strlit("1");
        reveal_strlit("2");
        reveal_strlit("3");
        reveal_strlit("4");
        reveal_strlit("5");
        reveal_strlit("6");
        reveal_strlit("7");
        reveal_strlit("8");
        reveal_strlit("9");
    }
    let r = match d {
        0 => "0",
        1 => "1",
        2 => "2",
        3 => "3",
        4 => "4",
        5 => "5",
        6 => "6",
        7 => "7",
        8 => "8",
        _ => "9",
    };
    proof {
        assert(r@ =~= seq![digit_char(d as int)]);
    }
    r
}

/// The decimal rendering of a 32-bit value.
fn u32_decimal(x: u32) -> (r: String)
    ensures
        r@ == spec_decimal(x as int),
{
    if x == 0 {
        return String::from_str(digit_str(0));
    }
    let mut acc = String::new();
    let mut v = x;
    while v > 0
        invariant
            x > 0,
            dec_digits(x as int) == dec_digits(v as int) + acc@,
        decreases v,
    {
        let ghost v0 = v as int;
        let ghost acc0 = acc@;
        let d = (v % 10) as u8;
        let piece = String::from_str(digit_str(d));
        acc = piece.concat(acc.as_str());
        v = v / 10;
        proof {
            assert(dec_digits(v0) == dec_digits(v0 / 10).push(digit_char(v0 % 10)));
            assert(dec_digits(v0 / 10) + (seq![digit_char(v0 % 10)] + acc0) =~= dec_digits(v0)
                + acc0);
        }
    }
    proof {
        assert(dec_digits(0int) + acc@ =~= acc@);
    }
    acc
}

/// Rendering a chunk sequence extended by one chunk appends that chunk's
/// line.
proof fn lemma_render_snoc(cs: Seq<ChunkModel>, m: ChunkModel)
    ensures
        spec_render(cs.push(m)) == spec_render(cs) + spec_render_line(m),
    decreases cs.len(),
{
    reveal_with_fuel(spec_render, 3);
    if cs.len() == 0 {
        assert(cs.push(m)[0] == m);
        assert(cs.push(m).drop_first() =~= Seq::<ChunkModel>::empty());
        assert(spec_render_line(m) + Seq::<char>::empty() =~= spec_render_line(m));
        assert(Seq::<char>::empty() + spec_render_line(m) =~= spec_render_line(m));
    } else {
        assert(cs.push(m)[0] == cs[0]);
        assert(cs.push(m).drop_first() =~= cs.drop_first().push(m));
        lemma_render_snoc(cs.drop_first(), m);
        assert(spec_render_line(cs[0]) + (spec_render(cs.drop_first()) + spec_render_line(m))
            =~= (spec_render_line(cs[0]) + spec_render(cs.drop_first())) + spec_render_line(m));
    }
}

/// Encoding a chunk sequence extended by one chunk appends that chunk's
/// encoding.
pub proof fn lemma_chunks_encode_snoc(cs: Seq<ChunkModel>, m: ChunkModel)
    ensures
        spec_chunks_encode(cs.push(m)) == spec_chunks_encode(cs) + spec_chunk_encode(m),
    decreases cs.len(),
{
    reveal_with_fuel(spec_chunks_encode, 3);
    if cs.len() == 0 {
        assert(cs.push(m)[0] == m);
        assert(cs.push(m).drop_first() =~= Seq::<ChunkModel>::empty());
        assert(spec_chunk_encode(m) + Seq::<u8>::empty() =~= spec_chunk_encode(m));
        assert(Seq::<u8>::empty() + spec_chunk_encode(m) =~= spec_chunk_encode(m));
    } else {
        assert(cs.push(m)[0] == cs[0]);
        assert(cs.push(m).drop_first() =~= cs.drop_first().push(m));
        lemma_chunks_encode_snoc(cs.drop_first(), m);
        assert(spec_chunk_encode(cs[0]) + (spec_chunks_encode(cs.drop_first())
            + spec_chunk_encode(m)) =~= (spec_chunk_encode(cs[0]) + spec_chunks_encode(
            cs.drop_first(),
        )) + spec_chunk_encode(m));
    }
}

/// Decoding one encoded chunk followed by further bytes reads that chunk
/// and goes on with the rest.
#[verifier::spinoff_prover]
#[verifier::rlimit(100)]
proof fn lemma_decode_chunks_step(m0: ChunkModel, rest: Seq<u8>)
    requires
        m0.wf(),
    ensures
        spec_decode_chunks(spec_chunk_encode(m0) + rest) == prepend_chunks(
            seq![m0],
            spec_decode_chunks(rest),
        ),
{
    let s = spec_chunk_encode(m0) + rest;
    let l = m0.data.len() as int;
    lemma_chunk_decode_with_suffix(m0, rest);
    assert(spec_chunk_decode(s) == Ok::<ChunkModel, ChunkError>(m0));
    assert(spec_chunk_encode(m0).len() == 12 + l);
    assert(s.len() == 12 + l + rest.len());
    assert(s.skip(12 + l) =~= rest);
}

/// Decoding the encoding of a sequence of well-formed chunks yields the
/// sequence back.
#[verifier::spinoff_prover]
#[verifier::rlimit(100)]
proof fn lemma_decode_chunks_of_encode(cs: Seq<ChunkModel>)
    requires
        forall|i: int| 0 <= i < cs.len() ==> (#[trigger] cs[i]).wf(),
    ensures
        spec_decode_chunks(spec_chunks_encode(cs)) == Ok::<Seq<ChunkModel>, ChunkError>(cs),
    decreases cs.len(),
{
    if cs.len() == 0 {
        assert(cs =~= Seq::<ChunkModel>::empty());
    } else {
        assert(cs[0].wf());
        assert forall|i: int|
            0 <= i < cs.drop_first().len() implies (#[trigger] cs.drop_first()[i]).wf() by {
            assert(cs.drop_first()[i] == cs[i + 1]);
        }
        lemma_decode_chunks_of_encode(cs.drop_first());
        lemma_decode_chunks_step(cs[0], spec_chunks_encode(cs.drop_first()));
        assert(seq![cs[0]] + cs.drop_first() =~= cs);
    }
}

/// Round trip: decoding the encoding of any container built from
/// well-formed chunks yields the same chunk sequence — same order, same
/// types, same payloads, same checksums.
pub proof fn lemma_container_round_trip(cs: Seq<ChunkModel>)
    requires
        forall|i: int| 0 <= i < cs.len() ==> (#[trigger] cs[i]).wf(),
    ensures
        spec_png_decode(spec_png_encode(cs)) == Ok::<Seq<ChunkModel>, ChunkError>(cs),
{
    let s = spec_png_encode(cs);
    assert(s.subrange(0, 8) =~= spec_signature());
    assert(s.skip(8) =~= spec_chunks_encode(cs));
    lemma_decode_chunks_of_encode(cs);
}

/// Append/remove order: appending chunks `a`, `b`, `c` in that order
/// builds the sequence [a, b, c]; removing the type that `b` (and neither
/// `a` nor the scan before it) carries picks index 1 and leaves [a, c],
/// whose encoding is `a`'s followed by `c`'s.
pub proof fn lemma_append_remove_order(a: ChunkModel, b: ChunkModel, c: ChunkModel, code: Seq<u8>)
    requires
        a.code != code,
        b.code == code,
    ensures
        Seq::<ChunkModel>::empty().push(a).push(b).push(c) == seq![a, b, c],
        (seq![a, b, c])[1].code == code,
        forall|i: int|
            (0 <= i < 3 && (#[trigger] Seq::<ChunkModel>::empty().push(a).push(b).push(
                c,
            )[i]).code == code && (forall|j: int|
                0 <= j < i ==> Seq::<ChunkModel>::empty().push(a).push(b).push(c)[j].code != code))
                ==> i == 1,
        (seq![a, b, c]).remove(1) == seq![a, c],
        spec_chunks_encode(seq![a, c]) == spec_chunk_encode(a) + spec_chunk_encode(c),
{
    let s = Seq::<ChunkModel>::empty().push(a).push(b).push(c);
    assert(s =~= seq![a, b, c]);
    assert(s.remove(1) =~= seq![a, c]);
    assert forall|i: int|
        (0 <= i < 3 && (#[trigger] Seq::<ChunkModel>::empty().push(a).push(b).push(c)[i]).code
            == code && (forall|j: int|
            0 <= j < i ==> Seq::<ChunkModel>::empty().push(a).push(b).push(c)[j].code
                != code)) implies i == 1 by {
        if i != 1 {
            assert(s[0].code != code);
            if i == 2 {
                assert(s[1].code == code);
            }
        }
    }
    reveal_with_fuel(spec_chunks_encode, 4);
    assert((seq![a, c]).drop_first() =~= seq![c]);
    assert((seq![c]).drop_first() =~= Seq::<ChunkModel>::empty());
    assert(spec_chunks_encode(seq![c]) =~= spec_chunk_encode(c) + Seq::<u8>::empty());
    assert(spec_chunks_encode(seq![a, c]) =~= spec_chunk_encode(a) + (spec_chunk_encode(c)
        + Seq::<u8>::empty()));
    assert(spec_chunk_encode(a) + (spec_chunk_encode(c) + Seq::<u8>::empty())
        =~= spec_chunk_encode(a) + spec_chunk_encode(c));
}

} // verus!

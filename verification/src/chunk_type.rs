use vstd::prelude::*;
use vstd::utf8::{valid_utf8, decode_utf8};
use crate::is_ascii_alpha;
use crate::chunk::ChunkError;

verus! {

/// A 4-byte chunk type identifier with bit-encoded metadata.
///
/// A code can always be constructed from raw bytes, even when it is not
/// valid: malformed files must stay inspectable, so validity is the derived
/// property `is_valid`, not a construction precondition.
#[derive(Debug, Clone, Copy)]
pub struct ChunkType {
    pub code: [u8; 4],
}

/// An ASCII upper- or lower-case letter, given as a Unicode scalar value.
pub open spec fn is_ascii_alpha_scalar(v: u32) -> bool {
    (65 <= v && v <= 90) || (97 <= v && v <= 122)
}

/// A type name is accepted exactly when it is four ASCII letters.
pub open spec fn spec_name_valid(s: Seq<char>) -> bool {
    s.len() == 4 && (forall|i: int| 0 <= i < 4 ==> is_ascii_alpha_scalar(#[trigger] s[i] as u32))
}

/// The code bytes a four-letter type name stands for.
pub open spec fn spec_name_code(s: Seq<char>) -> Seq<u8> {
    seq![s[0] as u8, s[1] as u8, s[2] as u8, s[3] as u8]
}

impl ChunkType {
    /// The code's bytes as a sequence, for use in contracts.
    pub open spec fn spec_bytes(self) -> Seq<u8> {
        self.code@
    }

    /// Critical bit: bit 0x20 of the first byte is clear.
    pub open spec fn spec_is_critical(self) -> bool {
        self.code@[0] & 0x20 == 0
    }

    /// Public bit: bit 0x20 of the second byte is clear.
    pub open spec fn spec_is_public(self) -> bool {
        self.code@[1] & 0x20 == 0
    }

    /// Reserved bit: bit 0x20 of the third byte is clear.
    pub open spec fn spec_is_reserved_bit_valid(self) -> bool {
        self.code@[2] & 0x20 == 0
    }

    /// Safe-to-copy bit: bit 0x20 of the fourth byte is set.
    pub open spec fn spec_is_safe_to_copy(self) -> bool {
        self.code@[3] & 0x20 == 0x20
    }

    /// A code is valid when the reserved bit holds and all four bytes are
    /// ASCII letters.
    pub open spec fn spec_is_valid(self) -> bool {
        self.spec_is_reserved_bit_valid()
            && (forall|i: int| 0 <= i < 4 ==> is_ascii_alpha(#[trigger] self.code@[i]))
    }

    /// Total constructor: stores the bytes as given, valid or not.
    pub fn from_bytes(bytes: [u8; 4]) -> (r: ChunkType)
        ensures
            r.spec_bytes() == bytes@,
    {
        ChunkType { code: bytes }
    }

    /// Builds a code from a type name.
    ///
    /// Accepts exactly the four-letter ASCII names; anything else (too
    /// short, too long, digits, non-ASCII) is `InvalidTypeName`.  Shorter
    /// names are rejected rather than zero-padded: padding would produce a
    /// code that fails its own validity rule.
    pub fn from_name(s: &str) -> (r: Result<ChunkType, ChunkError>)
        ensures
            r is Ok <==> spec_name_valid(s@),
            r matches Ok(t) ==> t.spec_bytes() == spec_name_code(s@),
            r matches Err(e) ==> e == ChunkError::InvalidTypeName,
    {
        if s.unicode_len() != 4 {
            return Err(ChunkError::InvalidTypeName);
        }
        let v0 = s.get_char(0) as u32;
        let v1 = s.get_char(1) as u32;
        let v2 = s.get_char(2) as u32;
        let v3 = s.get_char(3) as u32;
        if is_alpha_scalar(v0) && is_alpha_scalar(v1) && is_alpha_scalar(v2) && is_alpha_scalar(v3) {
            let code = [v0 as u8, v1 as u8, v2 as u8, v3 as u8];
            proof {
                assert(code@ =~= spec_name_code(s@));
            }
            Ok(ChunkType { code })
        } else {
            Err(ChunkError::InvalidTypeName)
        }
    }

    /// The raw 4 bytes of the code.
    pub fn bytes(&self) -> (r: [u8; 4])
        ensures
            r@ == self.spec_bytes(),
    {
        self.code
    }

    /// True exactly when the reserved bit holds and all four bytes are
    /// ASCII letters.
    pub fn is_valid(&self) -> (r: bool)
        ensures
            r == self.spec_is_valid(),
    {
        let r = self.is_reserved_bit_valid()
            && is_alpha_byte(self.code[0])
            && is_alpha_byte(self.code[1])
            && is_alpha_byte(self.code[2])
            && is_alpha_byte(self.code[3]);
        proof {
            if !r && self.spec_is_reserved_bit_valid() {
                assert(!(forall|i: int| 0 <= i < 4 ==> is_ascii_alpha(#[trigger] self.code@[i])))
                    by {
                        if forall|i: int| 0 <= i < 4 ==> is_ascii_alpha(#[trigger] self.code@[i]) {
                            assert(is_ascii_alpha(self.code@[0]));
                            assert(is_ascii_alpha(self.code@[1]));
                            assert(is_ascii_alpha(self.code@[2]));
                            assert(is_ascii_alpha(self.code@[3]));
                        }
                    };
            }
        }
        r
    }

    /// Critical chunks are required for rendering; bit 0x20 of byte 0 clear.
    pub fn is_critical(&self) -> (r: bool)
        ensures
            r == self.spec_is_critical(),
    {
        self.code[0] & 32u8 == 0
    }

    /// Public chunks are part of the public format; bit 0x20 of byte 1 clear.
    pub fn is_public(&self) -> (r: bool)
        ensures
            r == self.spec_is_public(),
    {
        self.code[1] & 32u8 == 0
    }

    /// The reserved bit must be clear for a code to be valid.
    pub fn is_reserved_bit_valid(&self) -> (r: bool)
        ensures
            r == self.spec_is_reserved_bit_valid(),
    {
        self.code[2] & 32u8 == 0
    }

    /// Safe-to-copy chunks may be copied by editors that do not know them;
    /// bit 0x20 of byte 3 set.
    pub fn is_safe_to_copy(&self) -> (r: bool)
        ensures
            r == self.spec_is_safe_to_copy(),
    {
        self.code[3] & 32u8 == 32
    }

    /// Lossy text rendering of the 4 bytes, for human display only.
    pub fn to_display_string(&self) -> (r: String)
        ensures
            r@ == crate::chunk::lossy_of(self.spec_bytes()),
            valid_utf8(self.spec_bytes()) ==> r@ == decode_utf8(self.spec_bytes()),
    {
        crate::chunk::lossy_string(self.code.as_slice())
    }
}

/// Exec test for `is_ascii_alpha_scalar`.
fn is_alpha_scalar(v: u32) -> (r: bool)
    ensures
        r == is_ascii_alpha_scalar(v),
{
    (65 <= v && v <= 90) || (97 <= v && v <= 122)
}

/// Exec test for `is_ascii_alpha`.
fn is_alpha_byte(b: u8) -> (r: bool)
    ensures
        r == is_ascii_alpha(b),
{
    (65 <= b && b <= 90) || (97 <= b && b <= 122)
}

impl PartialEq for ChunkType {
    /// Byte-for-byte comparison of the two codes.
    fn eq(&self, other: &Self) -> (r: bool) {
        let r = self.code[0] == other.code[0] && self.code[1] == other.code[1]
            && self.code[2] == other.code[2] && self.code[3] == other.code[3];
        proof {
            if r {
                assert(self.code@ =~= other.code@);
            }
        }
        r
    }
}

impl vstd::std_specs::cmp::PartialEqSpecImpl for ChunkType {
    open spec fn obeys_eq_spec() -> bool {
        true
    }

    open spec fn eq_spec(&self, other: &ChunkType) -> bool {
        self.code@ == other.code@
    }
}

} // verus!

//! Note identifiers: opaque 32-byte values, shown to the outside world as
//! 52 characters of lowercased unpadded base32.

use vstd::prelude::*;
use vstd::string::StrSliceExecFns;
use rand::RngCore;
use crate::domain::EngineError;
use crate::text::{lower_char, lower_seq, to_ascii_lower, to_ascii_upper, upper_char, upper_seq};

verus! {

/// A note's identity: 32 bytes, equal exactly when the bytes are equal.
#[derive(Clone, Copy, PartialEq, Eq, Debug)]
pub struct NoteId(pub [u8; 32]);

impl View for NoteId {
    type V = Seq<u8>;

    open spec fn view(&self) -> Seq<u8> {
        self.0@
    }
}

impl NoteId {
    pub fn from_bytes(bytes: [u8; 32]) -> (r: Self)
        ensures
            r@ == bytes@,
    {
        Self(bytes)
    }

    pub fn to_bytes(self) -> (r: [u8; 32])
        ensures
            r@ == self@,
    {
        self.0
    }

    /// Byte-for-byte equality of two identifiers.
    pub fn eq_id(&self, other: &NoteId) -> (r: bool)
        ensures
            r == (self@ == other@),
    {
        let mut i: usize = 0;
        while i < 32
            invariant
                0 <= i <= 32,
                forall|j: int| 0 <= j < i ==> self@[j] == other@[j],
            decreases 32 - i,
        {
            if self.0[i] != other.0[i] {
                return false;
            }
            i += 1;
        }
        proof {
            assert(self@ =~= other@);
        }
        true
    }
}

/// A fresh random identifier for a new note.
///
/// Relies on rand's `OsRng::fill_bytes`: fills the buffer with bytes from
/// the operating system's random source.  Nothing can be promised of a
/// random value, so the result carries no contract; every operation that
/// takes generated identifiers checks them against the store instead.
#[verifier::external_body]
pub fn generate_note_id() -> NoteId {
    let mut bytes = [0u8; 32];
    rand::rngs::OsRng.fill_bytes(&mut bytes);
    NoteId(bytes)
}

/// The unpadded base32 text of a byte sequence, over the alphabet
/// `A`..=`Z`, `2`..=`7`.
pub uninterp spec fn base32_of(bytes: Seq<u8>) -> Seq<char>;

/// Whether the character belongs to the unpadded base32 alphabet.
pub open spec fn is_base32_symbol(c: char) -> bool {
    (65 <= c as u32 && c as u32 <= 90) || (50 <= c as u32 && c as u32 <= 55)
}

/// Relies on data-encoding's `BASE32_NOPAD.encode`: unpadded base32 over the
/// alphabet `ABCDEFGHIJKLMNOPQRSTUVWXYZ234567`, one symbol per five bits,
/// so an input of `n` bytes yields `ceil(8n / 5)` symbols.  `encode_len`
/// may panic above `usize::MAX / 512` input bytes.
#[verifier::external_body]
fn base32_nopad_encode(input: &[u8]) -> (r: String)
    requires
        input@.len() <= usize::MAX / 512,
    ensures
        r@ == base32_of(input@),
        r@.len() == (8 * input@.len() + 4) / 5,
        forall|i: int| 0 <= i < r@.len() ==> is_base32_symbol(#[trigger] r@[i]),
{
    data_encoding::BASE32_NOPAD.encode(input)
}

/// Relies on data-encoding's `BASE32_NOPAD.decode`: accepts exactly the
/// canonical unpadded base32 texts (the encoding checks trailing bits) and
/// inverts `encode`.  `decode_len` may panic above `usize::MAX / 8` input
/// bytes, and a character takes at most four bytes.
#[verifier::external_body]
fn base32_nopad_decode(input: &str) -> (r: Option<Vec<u8>>)
    requires
        input@.len() <= usize::MAX / 32,
    ensures
        forall|b: Seq<u8>| input@ == #[trigger] base32_of(b) ==> r is Some && r->Some_0@ == b,
        r is Some ==> base32_of(r->Some_0@) == input@,
{
    match data_encoding::BASE32_NOPAD.decode(input.as_bytes()) {
        Ok(bytes) => Some(bytes),
        Err(_) => None,
    }
}

/// The text form of an identifier: its base32 encoding, lowercased.
pub fn encode_id(id: [u8; 32]) -> (r: String)
    ensures
        r@ == lower_seq(base32_of(id@)),
        r@.len() == 52,
        forall|i: int|
            0 <= i < base32_of(id@).len() ==> is_base32_symbol(#[trigger] base32_of(id@)[i]),
{
    let upper = base32_nopad_encode(id.as_slice());
    to_ascii_lower(upper.as_str())
}

/// Whether a character may appear in an identifier's text form.
pub open spec fn is_id_char(c: char) -> bool {
    (97 <= c as u32 && c as u32 <= 122) || (65 <= c as u32 && c as u32 <= 90) || (50 <= c as u32
        && c as u32 <= 55)
}

/// The shape of an identifier's text form: 52 characters, each a letter or
/// one of the digits `2`..=`7`.
pub open spec fn spec_is_base32_url(s: Seq<char>) -> bool {
    s.len() == 52 && forall|i: int| 0 <= i < s.len() ==> is_id_char(#[trigger] s[i])
}

/// Whether the text has the shape of an identifier.
pub fn is_base32_url(value: &str) -> (r: bool)
    ensures
        r == spec_is_base32_url(value@),
{
    let n = value.unicode_len();
    if n != 52 {
        return false;
    }
    let mut i: usize = 0;
    while i < n
        invariant
            0 <= i <= n,
            n == value@.len(),
            forall|j: int| 0 <= j < i ==> is_id_char(#[trigger] value@[j]),
        decreases n - i,
    {
        let u = value.get_char(i) as u32;
        let ok = (97 <= u && u <= 122) || (65 <= u && u <= 90) || (50 <= u && u <= 55);
        if !ok {
            return false;
        }
        i += 1;
    }
    true
}

/// Reads an identifier back from its text form.  Accepts any mix of upper
/// and lower case; everything else is refused.
pub fn decode_id(encoded: &str) -> (r: Option<[u8; 32]>)
    ensures
        forall|b: Seq<u8>|
            b.len() == 32 && encoded@.len() == 52 && upper_seq(encoded@) == #[trigger] base32_of(b)
                ==> r is Some && r->Some_0@ == b,
        r is Some ==> r->Some_0@.len() == 32 && upper_seq(encoded@) == base32_of(r->Some_0@),
{
    if encoded.unicode_len() != 52 {
        return None;
    }
    let upper = to_ascii_upper(encoded);
    match base32_nopad_decode(upper.as_str()) {
        Some(bytes) => {
            if bytes.len() == 32 {
                let mut out = [0u8; 32];
                let mut i: usize = 0;
                while i < 32
                    invariant
                        0 <= i <= 32,
                        bytes@.len() == 32,
                        out@.len() == 32,
                        forall|j: int| 0 <= j < i ==> out@[j] == bytes@[j],
                    decreases 32 - i,
                {
                    out[i] = bytes[i];
                    i += 1;
                }
                proof {
                    assert(out@ =~= bytes@);
                }
                Some(out)
            } else {
                None
            }
        },
        None => None,
    }
}

/// Parses an identifier from text, refusing anything that does not have the
/// shape or is not a canonical encoding.
pub fn parse_note_id(value: &str) -> (r: Result<NoteId, EngineError>)
    ensures
        r is Ok ==> spec_is_base32_url(value@) && upper_seq(value@) == base32_of(r->Ok_0@),
        r is Err ==> r->Err_0 == EngineError::InvalidInput,
        forall|b: Seq<u8>|
            b.len() == 32 && spec_is_base32_url(value@) && upper_seq(value@) == #[trigger] base32_of(
                b,
            ) ==> r is Ok && r->Ok_0@ == b,
{
    if !is_base32_url(value) {
        return Err(EngineError::InvalidInput);
    }
    match decode_id(value) {
        Some(bytes) => Ok(NoteId::from_bytes(bytes)),
        None => Err(EngineError::InvalidInput),
    }
}

/// Uppercasing undoes the lowercasing of a base32 text, and the lowercased
/// text has the identifier shape.
pub proof fn lemma_base32_text_case(s: Seq<char>)
    requires
        forall|i: int| 0 <= i < s.len() ==> is_base32_symbol(#[trigger] s[i]),
    ensures
        upper_seq(lower_seq(s)) =~= s,
        s.len() == 52 ==> spec_is_base32_url(lower_seq(s)),
{
    assert forall|i: int| 0 <= i < s.len() implies upper_seq(lower_seq(s))[i] == s[i] by {
        let c = s[i];
        assert(is_base32_symbol(c));
        let u = c as u32;
        assert(lower_seq(s)[i] == lower_char(c));
        assert(upper_seq(lower_seq(s))[i] == upper_char(lower_char(c)));
        if 65 <= u && u <= 90 {
            let l = lower_char(c);
            assert(l == ((u + 32) as u8) as char);
            assert(l as u32 == u + 32);
            assert(upper_char(l) == (((l as u32) - 32) as u8) as char);
            assert(upper_char(l) as u32 == u);
            vstd::utf8::char_u32_cast(c, u);
            vstd::utf8::char_u32_cast(upper_char(l), u);
        } else {
            assert(lower_char(c) == c);
            assert(upper_char(c) == c);
        }
    }
    if s.len() == 52 {
        assert forall|i: int| 0 <= i < lower_seq(s).len() implies is_id_char(
            #[trigger] lower_seq(s)[i],
        ) by {
            assert(is_base32_symbol(s[i]));
        }
    }
}

} // verus!

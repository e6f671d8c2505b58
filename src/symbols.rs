//! Alphabets: characters or bytes, the codes that stand for their symbols,
//! and the errors of combining or decoding them.

use vstd::prelude::*;
use vstd::utf8::{decode_utf8, encode_utf8, valid_utf8};

verus! {

/// The alphabet a structure is bound to for its whole lifetime.
#[derive(Clone, Copy, Debug, PartialEq, Eq, Structural)]
pub enum SymbolKind {
    Chars,
    Bytes,
}

/// Two structures that were combined are bound to different alphabets.
#[derive(Clone, Copy, Debug, PartialEq, Eq, Structural)]
pub struct InconsistentCharOrByte;

impl InconsistentCharOrByte {
    /// The text that describes this error.
    pub fn message(&self) -> (r: &'static str)
        ensures
            r@ == "inconsistent char or byte as the backends of the types"@,
    {
        "inconsistent char or byte as the backends of the types"
    }
}

/// What can go wrong when symbols are handed to a structure.
#[derive(Clone, Copy, Debug, PartialEq, Eq, Structural)]
pub enum SymbolError {
    /// Two structures of different alphabets were combined.
    Inconsistent { left: SymbolKind, right: SymbolKind },
    /// Bytes given to a character structure are not valid UTF-8.
    InvalidUtf8,
}

/// The name of an alphabet: `"char"` or `"byte"`.
pub fn get_char_or_byte_variant_name(kind: SymbolKind) -> (r: &'static str)
    ensures
        kind == SymbolKind::Chars ==> r@ == "char"@,
        kind == SymbolKind::Bytes ==> r@ == "byte"@,
{
    match kind {
        SymbolKind::Chars => "char",
        SymbolKind::Bytes => "byte",
    }
}

/// Checks that two structures share one alphabet.
pub fn check_same_kind(left: SymbolKind, right: SymbolKind) -> (r: Result<SymbolKind, SymbolError>)
    ensures
        left == right ==> r == Ok::<SymbolKind, SymbolError>(left),
        left != right ==> r == Err::<SymbolKind, SymbolError>(
            SymbolError::Inconsistent { left, right },
        ),
{
    if left == right {
        Ok(left)
    } else {
        Err(SymbolError::Inconsistent { left, right })
    }
}

/// The code of each character.
pub open spec fn char_codes(s: Seq<char>) -> Seq<u32> {
    s.map_values(|c: char| c as u32)
}

/// The code of each byte.
pub open spec fn byte_codes(b: Seq<u8>) -> Seq<u32> {
    b.map_values(|x: u8| x as u32)
}

/// The symbols that a text stands for in a structure of the given alphabet:
/// its characters, or the bytes of its UTF-8 encoding.
pub open spec fn text_symbols(kind: SymbolKind, s: Seq<char>) -> Seq<u32> {
    match kind {
        SymbolKind::Chars => char_codes(s),
        SymbolKind::Bytes => byte_codes(encode_utf8(s)),
    }
}

/// The symbols that bytes stand for in a structure of the given alphabet:
/// the characters they decode to, or the bytes themselves. `None` where a
/// character structure is given bytes that are not valid UTF-8.
pub open spec fn bytes_symbols(kind: SymbolKind, b: Seq<u8>) -> Option<Seq<u32>> {
    match kind {
        SymbolKind::Chars => if valid_utf8(b) {
            Some(char_codes(decode_utf8(b)))
        } else {
            None
        },
        SymbolKind::Bytes => Some(byte_codes(b)),
    }
}

/// The codes of the characters of a text.
pub fn char_codes_of(s: &str) -> (r: Vec<u32>)
    ensures
        r@ == char_codes(s@),
{
    let mut r: Vec<u32> = Vec::new();
    for c in it: s.chars()
        invariant
            it.seq() == s@,
            r@ == char_codes(s@.take(it.index() as int)),
    {
        proof {
            assert(s@.take(it.index() as int + 1) == s@.take(it.index() as int).push(c));
        }
        r.push(c as u32);
    }
    proof {
        assert(s@.take(s@.len() as int) == s@);
    }
    r
}

/// The codes of a run of bytes.
pub fn byte_codes_of(b: &[u8]) -> (r: Vec<u32>)
    ensures
        r@ == byte_codes(b@),
{
    let mut r: Vec<u32> = Vec::new();
    let mut i: usize = 0;
    while i < b.len()
        invariant
            i <= b@.len(),
            r@ == byte_codes(b@.take(i as int)),
        decreases b@.len() - i,
    {
        proof {
            assert(b@.take(i as int + 1) == b@.take(i as int).push(b@[i as int]));
        }
        r.push(b[i] as u32);
        i = i + 1;
    }
    proof {
        assert(b@.take(b@.len() as int) == b@);
    }
    r
}

/// Relies on std::str::from_utf8: it accepts exactly the valid UTF-8
/// sequences and decodes them, and refuses the others.
#[verifier::external_body]
fn decode_utf8_text(b: &[u8]) -> (r: Option<&str>)
    ensures
        r is Some <==> valid_utf8(b@),
        r is Some ==> r->0@ == decode_utf8(b@),
{
    std::str::from_utf8(b).ok()
}

/// The symbols of a text in a structure of the given alphabet.
pub fn text_symbols_of(kind: SymbolKind, s: &str) -> (r: Vec<u32>)
    ensures
        r@ == text_symbols(kind, s@),
{
    match kind {
        SymbolKind::Chars => char_codes_of(s),
        SymbolKind::Bytes => byte_codes_of(s.as_bytes()),
    }
}

/// The symbols of bytes in a structure of the given alphabet; a character
/// structure refuses bytes that are not valid UTF-8.
pub fn bytes_symbols_of(kind: SymbolKind, b: &[u8]) -> (r: Result<Vec<u32>, SymbolError>)
    ensures
        bytes_symbols(kind, b@) is Some <==> r is Ok,
        r is Ok ==> bytes_symbols(kind, b@) == Some(r->Ok_0@),
        r is Err ==> r == Err::<Vec<u32>, SymbolError>(SymbolError::InvalidUtf8),
{
    match kind {
        SymbolKind::Chars => match decode_utf8_text(b) {
            Some(s) => Ok(char_codes_of(s)),
            None => Err(SymbolError::InvalidUtf8),
        },
        SymbolKind::Bytes => Ok(byte_codes_of(b)),
    }
}

} // verus!

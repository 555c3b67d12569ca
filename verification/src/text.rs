//! Length-prefixed UTF-8 strings as the file format stores them.

use vstd::prelude::*;
use vstd::utf8::{decode_utf8, encode_utf8, valid_utf8};
use crate::bytes::{avail, le_u16, lemma_u16_roundtrip, push_bytes, write_word, read_bytes, read_word, u16_at};
use crate::error::AsepriteError;

verus! {

/// What `String::from_utf8_lossy` makes of bytes that are not valid UTF-8.
pub uninterp spec fn utf8_lossy(bytes: Seq<u8>) -> Seq<char>;

/// The text that a stored byte string denotes: its UTF-8 decoding, with
/// invalid sequences replaced as `String::from_utf8_lossy` replaces them.
pub open spec fn decode_text(bytes: Seq<u8>) -> Seq<char> {
    if valid_utf8(bytes) {
        decode_utf8(bytes)
    } else {
        utf8_lossy(bytes)
    }
}

/// `String::from_utf8_lossy`: valid UTF-8 is decoded as is; other byte
/// strings give the named result `utf8_lossy`.
#[verifier::external_body]
pub(crate) fn string_from_utf8_lossy(bytes: &[u8]) -> (s: String)
    ensures
        s@ == (if valid_utf8(bytes@) {
            decode_utf8(bytes@)
        } else {
            utf8_lossy(bytes@)
        }),
{
    String::from_utf8_lossy(bytes).into_owned()
}

/// The UTF-8 bytes of a text.
pub open spec fn text_bytes(s: Seq<char>) -> Seq<u8> {
    encode_utf8(s)
}

/// A string as stored: its byte length (as a 16-bit word), then its bytes.
pub open spec fn enc_str(s: Seq<char>) -> Seq<u8> {
    le_u16(text_bytes(s).len() as u16) + text_bytes(s)
}

/// Whether a string's byte length fits the 16-bit length prefix.
pub open spec fn str_fits(s: Seq<char>) -> bool {
    text_bytes(s).len() <= 65535
}

/// The number of bytes a string occupies when read back at `pos`.
pub open spec fn str_len_at(d: Seq<u8>, pos: int) -> int {
    u16_at(d, pos) as int
}

/// The text of the string stored at `pos`.
pub open spec fn str_at(d: Seq<u8>, pos: int) -> Seq<char> {
    decode_text(d.subrange(pos + 2, pos + 2 + u16_at(d, pos)))
}

/// Whether a whole string is stored at `pos`.
pub open spec fn str_avail(d: Seq<u8>, pos: int) -> bool {
    avail(d, pos, 2) && avail(d, pos + 2, u16_at(d, pos) as int)
}

pub fn write_string(buf: &mut Vec<u8>, s: &str)
    ensures
        final(buf)@ == old(buf)@ + enc_str(s@),
{
    let b = s.as_bytes();
    write_word(buf, b.len() as u16);
    push_bytes(buf, b);
    assert(buf@ =~= old(buf)@ + enc_str(s@));
}

pub fn read_string(d: &[u8], pos: &mut usize) -> (r: Result<String, AsepriteError>)
    ensures
        match r {
            Ok(s) => str_avail(d@, *old(pos) as int) && s@ == str_at(d@, *old(pos) as int)
                && *final(pos) == *old(pos) + 2 + u16_at(d@, *old(pos) as int),
            Err(e) => !str_avail(d@, *old(pos) as int) && e is Io,
        },
{
    let n = read_word(d, pos)?;
    let bytes = read_bytes(d, pos, n as usize)?;
    Ok(string_from_utf8_lossy(bytes.as_slice()))
}

/// A valid string read back from its stored form is the string written.
pub proof fn lemma_str_roundtrip(s: Seq<char>, d: Seq<u8>, pos: int)
    requires
        str_fits(s),
        0 <= pos,
        pos + enc_str(s).len() <= d.len(),
        d.subrange(pos, pos + enc_str(s).len()) == enc_str(s),
    ensures
        str_avail(d, pos),
        u16_at(d, pos) == text_bytes(s).len(),
        str_at(d, pos) == s,
{
    let e = enc_str(s);
    let n = text_bytes(s).len();
    assert(d.subrange(pos, pos + 2) =~= e.subrange(0, 2));
    assert(e.subrange(0, 2) =~= le_u16(n as u16));
    lemma_u16_roundtrip(n as u16, d, pos);
    assert(d.subrange(pos + 2, pos + 2 + n) =~= e.subrange(2, 2 + n as int));
    assert(e.subrange(2, 2 + n as int) =~= text_bytes(s));
    vstd::utf8::encode_utf8_valid_utf8(s);
    vstd::utf8::encode_utf8_decode_utf8(s);
}

/// A string read back where it was written.
pub proof fn lemma_read_str_in(a: Seq<u8>, s: Seq<char>, c: Seq<u8>)
    requires
        str_fits(s),
    ensures
        str_avail(a + enc_str(s) + c, a.len() as int),
        u16_at(a + enc_str(s) + c, a.len() as int) == text_bytes(s).len(),
        str_at(a + enc_str(s) + c, a.len() as int) == s,
        (a + enc_str(s) + c).len() == a.len() + 2 + text_bytes(s).len() + c.len(),
{
    let d = a + enc_str(s) + c;
    assert(d.subrange(a.len() as int, (a.len() + enc_str(s).len()) as int) =~= enc_str(s));
    lemma_str_roundtrip(s, d, a.len() as int);
}

} // verus!

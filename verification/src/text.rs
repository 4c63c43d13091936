//! Text on the wire: UTF-8 out, lossy UTF-8 in.
use vstd::prelude::*;
use vstd::string::StrSliceExecFns;
use vstd::utf8::{
    decode_utf8, encode_utf8, encode_utf8_decode_utf8, encode_utf8_valid_utf8, valid_utf8,
};

verus! {

/// What `String::from_utf8_lossy` makes of bytes that are not valid UTF-8:
/// the text in which each invalid sequence is replaced by U+FFFD.
pub uninterp spec fn lossy_text(bytes: Seq<u8>) -> Seq<char>;

/// What `str::trim` leaves of a text.
pub uninterp spec fn trimmed(text: Seq<char>) -> Seq<char>;

/// The text that a run of received bytes stands for. Valid UTF-8 decodes to
/// the characters it encodes; anything else decodes lossily.
pub open spec fn text_of(bytes: Seq<u8>) -> Seq<char> {
    if valid_utf8(bytes) {
        decode_utf8(bytes)
    } else {
        lossy_text(bytes)
    }
}

/// Whether `part` is a run of consecutive characters of `whole`.
pub open spec fn part_of(part: Seq<char>, whole: Seq<char>) -> bool {
    exists|from: int, to: int| 0 <= from <= to <= whole.len() && part == whole.subrange(from, to)
}

/// Whether a text is empty once leading and trailing whitespace is removed.
pub open spec fn blank_text(text: Seq<char>) -> bool {
    trimmed(text).len() == 0
}

/// `String::from_utf8_lossy`, with the result owned. Trusted: for valid
/// UTF-8 the result is the decoded text, as the standard library documents;
/// for other input it is whatever the standard library substitutes, which
/// the contract only names.
#[verifier::external_body]
fn from_utf8_lossy(bytes: &[u8]) -> (text: String)
    ensures
        valid_utf8(bytes@) ==> text@ == decode_utf8(bytes@),
        !valid_utf8(bytes@) ==> text@ == lossy_text(bytes@),
{
    String::from_utf8_lossy(bytes).into_owned()
}

/// `str::trim`. Trusted: the result is a part of the argument, as the
/// standard library documents. Which characters it removes is the standard
/// library's notion of whitespace, so beyond that the contract only names
/// the result: the same text is always trimmed to the same text.
#[verifier::external_body]
fn trim<'a>(text: &'a str) -> (rest: &'a str)
    ensures
        rest@ == trimmed(text@),
        part_of(rest@, text@),
{
    text.trim()
}

/// The bytes that a text is carried as: its UTF-8 encoding.
pub fn text_bytes(text: &str) -> (bytes: Vec<u8>)
    ensures
        bytes@ == encode_utf8(text@),
{
    text.as_bytes_vec()
}

/// Decodes received bytes as text, never failing.
pub fn decode_text(bytes: &[u8]) -> (text: String)
    ensures
        text@ == text_of(bytes@),
{
    from_utf8_lossy(bytes)
}

/// Whether `text` holds nothing but whitespace.
pub fn is_blank(text: &str) -> (blank: bool)
    ensures
        blank == blank_text(text@),
{
    trim(text).is_empty()
}

/// Decoding undoes encoding: the bytes of a text decode to that text.
pub proof fn lemma_text_round_trip(text: Seq<char>)
    ensures
        text_of(encode_utf8(text)) == text,
{
    encode_utf8_valid_utf8(text);
    encode_utf8_decode_utf8(text);
}

} // verus!

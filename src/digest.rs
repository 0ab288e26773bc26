use vstd::prelude::*;
use vstd::utf8::*;

verus! {

/// The lowercase hexadecimal MD5 digest of a byte sequence.
pub uninterp spec fn md5_hex_of(content: Seq<u8>) -> Seq<char>;

/// The value of an ASCII hex digit of either case.
pub open spec fn hex_value(b: u8) -> Option<u8> {
    if 48 <= b && b <= 57 {
        Some((b - 48) as u8)
    } else if 65 <= b && b <= 70 {
        Some((b - 55) as u8)
    } else if 97 <= b && b <= 102 {
        Some((b - 87) as u8)
    } else {
        None
    }
}

/// Percent-decoding of bytes: a `%` followed by two hex digits becomes the
/// byte they spell; every other byte, any other `%` included, is kept.
pub open spec fn unescape(b: Seq<u8>) -> Seq<u8>
    decreases b.len(),
{
    if b.len() == 0 {
        seq![]
    } else if b[0] == 37 && b.len() >= 3 && hex_value(b[1]) is Some && hex_value(b[2]) is Some {
        seq![(hex_value(b[1])->Some_0 * 16 + hex_value(b[2])->Some_0) as u8] + unescape(b.skip(3))
    } else {
        seq![b[0]] + unescape(b.skip(1))
    }
}

/// The text that percent-decoding yields: the UTF-8 text of the unescaped
/// bytes, or `None` where they are not UTF-8.
pub open spec fn percent_decoded(s: Seq<char>) -> Option<Seq<char>> {
    let b = unescape(encode_utf8(s));
    if valid_utf8(b) {
        Some(decode_utf8(b))
    } else {
        None
    }
}

pub open spec fn is_lower_hex_digit(c: char) -> bool {
    ('0' <= c && c <= '9') || ('a' <= c && c <= 'f')
}

/// A content hash as this library writes it: 32 lowercase hex digits.
pub open spec fn is_content_hash(h: Seq<char>) -> bool {
    &&& h.len() == 32
    &&& forall|i: int| 0 <= i < h.len() ==> is_lower_hex_digit(#[trigger] h[i])
}

#[verifier::external_type_specification]
#[verifier::external_body]
pub struct ExFromUtf8Error(std::string::FromUtf8Error);

/// Relies on md-5's `Md5` through `digest::Digest` (`new`, `update`,
/// `finalize`), formatted with generic-array's `LowerHex`: the 16-byte digest
/// of the bytes, written as 32 lowercase hex digits.
#[verifier::external_body]
pub(crate) fn md5_hex(content: &[u8]) -> (r: String)
    ensures
        r@ == md5_hex_of(content@),
        is_content_hash(r@),
{
    let mut hasher = <md5::Md5 as md5::Digest>::new();
    md5::Digest::update(&mut hasher, content);
    format!("{:x}", md5::Digest::finalize(hasher))
}

/// Relies on `urlencoding::decode`: the bytes of the text, with each `%XX`
/// escape replaced by its byte (`decode_binary`), read as UTF-8 by
/// `String::from_utf8`, whose error comes back where they are not UTF-8.
#[verifier::external_body]
pub(crate) fn percent_decode(s: &str) -> (r: Result<String, std::string::FromUtf8Error>)
    ensures
        r is Ok <==> percent_decoded(s@) is Some,
        r is Ok ==> r->Ok_0@ == percent_decoded(s@)->Some_0,
{
    match urlencoding::decode(s) {
        Ok(text) => Ok(text.into_owned()),
        Err(e) => Err(e),
    }
}

} // verus!

//! Decoding lines, splitting off comparison keys and counting characters.

use vstd::prelude::*;
use vstd::string::StringSliceAdditionalSpecFns;
use vstd::utf8::{decode_utf8, valid_utf8};

verus! {

#[verifier::external_type_specification]
#[verifier::external_body]
pub struct ExUtf8Error(simdutf8::basic::Utf8Error);

/// Relies on simdutf8::basic::from_utf8: the bytes read as text when, and only
/// when, they are valid UTF-8.
#[verifier::external_body]
fn utf8_text(bytes: &[u8]) -> (r: Result<&str, simdutf8::basic::Utf8Error>)
    ensures
        r is Ok <==> valid_utf8(bytes@),
        r matches Ok(s) ==> s.spec_bytes() == bytes@,
{
    simdutf8::basic::from_utf8(bytes)
}

/// The characters that a line of bytes holds, or `None` where the bytes are
/// not valid UTF-8.
pub fn decode_line(bytes: &[u8]) -> (r: Option<&str>)
    ensures
        r is Some <==> valid_utf8(bytes@),
        r matches Some(s) ==> s@ == decode_utf8(bytes@),
{
    match utf8_text(bytes) {
        Ok(s) => {
            proof {
                vstd::utf8::encode_utf8_decode_utf8(s@);
            }
            Some(s)
        },
        Err(_) => None,
    }
}

/// Relies on bytecount::num_chars: the number of code points that UTF-8 text
/// holds.
#[verifier::external_body]
fn char_count(s: &str) -> (n: usize)
    ensures
        n == s@.len(),
{
    bytecount::num_chars(s.as_bytes())
}

/// The number of characters of a string.
pub fn code_point_count(s: &str) -> (n: usize)
    ensures
        n == s@.len(),
{
    char_count(s)
}

/// `sep` occurs in `line` starting at character position `i`.
pub open spec fn sep_at(line: Seq<char>, sep: Seq<char>, i: int) -> bool {
    0 <= i && i + sep.len() <= line.len() && line.subrange(i, i + sep.len()) == sep
}

/// `i` is the first position at which `sep` occurs in `line`.
pub open spec fn first_sep_at(line: Seq<char>, sep: Seq<char>, i: int) -> bool {
    sep_at(line, sep, i) && forall|k: int| 0 <= k < i ==> !#[trigger] sep_at(line, sep, k)
}

/// `key` is the comparison key of `line` under separator `sep`: the text
/// before the first occurrence of a non-empty separator, or the whole line
/// where the separator is empty or absent.
pub open spec fn is_key(line: Seq<char>, sep: Seq<char>, key: Seq<char>) -> bool {
    if sep.len() > 0 && exists|i: int| #[trigger] sep_at(line, sep, i) {
        first_sep_at(line, sep, key.len() as int) && key == line.take(key.len() as int)
    } else {
        key == line
    }
}

/// Relies on memchr::memmem::find: the first occurrence of the separator's
/// bytes in the line's bytes. Both are UTF-8, so a match starts on a character
/// boundary, the first byte match is the first character match, and the text
/// before it is the prefix up to that character.
#[verifier::external_body]
fn prefix_before<'a>(line: &'a str, sep: &str) -> (r: Option<&'a str>)
    requires
        sep@.len() > 0,
    ensures
        r matches Some(k) ==> first_sep_at(line@, sep@, k@.len() as int) && k@ == line@.take(
            k@.len() as int,
        ),
        r is None ==> forall|i: int| !#[trigger] sep_at(line@, sep@, i),
{
    memchr::memmem::find(line.as_bytes(), sep.as_bytes()).map(|p| &line[..p])
}

/// The comparison key of a line: the text before the first occurrence of a
/// non-empty separator, else the whole line.
pub fn comparison_key<'a>(line: &'a str, sep: &str) -> (k: &'a str)
    ensures
        is_key(line@, sep@, k@),
{
    if sep.is_empty() {
        return line;
    }
    match prefix_before(line, sep) {
        Some(k) => k,
        None => line,
    }
}

/// The characters of a string, in order.
pub fn chars_of(s: &str) -> (r: Vec<char>)
    ensures
        r@ == s@,
{
    let mut out: Vec<char> = Vec::new();
    for c in it: s.chars()
        invariant
            out@ == it.seq().take(it.index() as int),
    {
        out.push(c);
    }
    out
}

} // verus!

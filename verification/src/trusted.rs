//! What this library takes on trust: the functions of other crates and of
//! the standard library that it calls, each with the contract that the
//! verifier assumes of it. Nothing here is proved; each item says which
//! function it stands for and what is claimed of it.

use vstd::prelude::*;
use vstd::utf8::{decode_utf8, valid_utf8};

verus! {

/// `core::str::Utf8Error`, as an opaque value.
#[verifier::external_type_specification]
#[verifier::external_body]
pub struct ExUtf8Error(core::str::Utf8Error);

/// `encoding_rs::Encoding`, as an opaque value.
#[verifier::external_type_specification]
#[verifier::external_body]
pub struct ExEncoding(encoding_rs::Encoding);

/// `regex::bytes::Regex`, as an opaque value.
#[verifier::external_type_specification]
#[verifier::external_body]
pub struct ExRegex(regex::bytes::Regex);

/// `regex::Error`, as an opaque value.
#[verifier::external_type_specification]
#[verifier::external_body]
pub struct ExRegexError(regex::Error);

/// `serde_json::Value`, as an opaque value.
#[verifier::external_type_specification]
#[verifier::external_body]
pub struct ExJsonValue(serde_json::Value);

/// `serde_json::Error`, as an opaque value.
#[verifier::external_type_specification]
#[verifier::external_body]
pub struct ExJsonError(serde_json::Error);

/// `String::push` appends one character at the end of the string.
pub assume_specification[ std::string::String::push ](s: &mut std::string::String, ch: char)
    ensures
        final(s)@ == old(s)@.push(ch),
;

/// `core::str::from_utf8` succeeds exactly on well-formed UTF-8, and then
/// gives the text that the bytes encode.
pub assume_specification[ core::str::from_utf8 ](v: &[u8]) -> (text: Result<
    &str,
    core::str::Utf8Error,
>)
    ensures
        text is Ok <==> valid_utf8(v@),
        text matches Ok(s) ==> s@ == decode_utf8(v@),
;

/// The value of an ASCII hexadecimal digit, in either case.
pub open spec fn hex_digit(b: u8) -> Option<u8> {
    if 0x30 <= b <= 0x39 {
        Some((b - 0x30) as u8)
    } else if 0x41 <= b <= 0x46 {
        Some((b - 0x41 + 10) as u8)
    } else if 0x61 <= b <= 0x66 {
        Some((b - 0x61 + 10) as u8)
    } else {
        None
    }
}

/// `input` with every `%` that is followed by two hexadecimal digits
/// replaced, together with the digits, by the byte that the digits name.
/// Every other byte stays, a `%` without two such digits too.
pub open spec fn percent_decoded(input: Seq<u8>) -> Seq<u8>
    decreases input.len(),
{
    if input.len() == 0 {
        Seq::empty()
    } else if input[0] == 0x25 && input.len() >= 3 && hex_digit(input[1]) is Some && hex_digit(
        input[2],
    ) is Some {
        seq![(hex_digit(input[1])->0 * 16 + hex_digit(input[2])->0) as u8] + percent_decoded(
            input.skip(3),
        )
    } else {
        seq![input[0]] + percent_decoded(input.skip(1))
    }
}

/// `percent_encoding::percent_decode`, collected: the bytes of `input`,
/// percent-decoded as [`percent_decoded`] says.
#[verifier::external_body]
pub(crate) fn percent_decode(input: &[u8]) -> (out: Vec<u8>)
    ensures
        out@ == percent_decoded(input@),
{
    percent_encoding::percent_decode(input).collect()
}

/// The encoding that `encoding_rs::Encoding::for_label` finds for a label.
pub uninterp spec fn label_encoding(label: Seq<u8>) -> Option<encoding_rs::Encoding>;

/// The text that `encoding_rs::Encoding::decode` makes of bytes.
pub uninterp spec fn decoded_text(encoding: encoding_rs::Encoding, bytes: Seq<u8>) -> Seq<char>;

/// The label `utf-8`.
pub open spec fn utf8_label() -> Seq<u8> {
    seq![0x75u8, 0x74u8, 0x66u8, 0x2du8, 0x38u8]
}

/// `encoding_rs::Encoding::for_label`: which encoding a label names, if
/// any. The answer depends on the label alone.
#[verifier::external_body]
pub(crate) fn encoding_for_label(label: &[u8]) -> (found: Option<&'static encoding_rs::Encoding>)
    ensures
        match found {
            Some(encoding) => label_encoding(label@) == Some(*encoding),
            None => label_encoding(label@) is None,
        },
{
    encoding_rs::Encoding::for_label(label)
}

/// `encoding_rs::UTF_8`: the encoding that the label `utf-8` names.
#[verifier::external_body]
pub(crate) fn utf8_encoding() -> (encoding: &'static encoding_rs::Encoding)
    ensures
        label_encoding(utf8_label()) == Some(*encoding),
{
    encoding_rs::UTF_8
}

/// Whether bytes begin with a byte order mark of UTF-8 or of UTF-16, which
/// `encoding_rs::Encoding::decode` takes off and lets decide the encoding.
pub open spec fn starts_with_byte_order_mark(bytes: Seq<u8>) -> bool {
    ||| bytes.len() >= 3 && bytes[0] == 0xEFu8 && bytes[1] == 0xBBu8 && bytes[2] == 0xBFu8
    ||| bytes.len() >= 2 && bytes[0] == 0xFFu8 && bytes[1] == 0xFEu8
    ||| bytes.len() >= 2 && bytes[0] == 0xFEu8 && bytes[1] == 0xFFu8
}

/// `encoding_rs::Encoding::decode`, of which the text is kept: the bytes
/// decoded in the given encoding, or in the one that a byte order mark at
/// their start names, malformed sequences replaced. The text depends on the
/// encoding and the bytes alone. In UTF-8, well-formed bytes without a byte
/// order mark give the text that they encode. The function panics where the
/// size of its buffer overflows, which the bound on the input rules out.
#[verifier::external_body]
pub(crate) fn decode_bytes(encoding: &'static encoding_rs::Encoding, bytes: &[u8]) -> (text: String)
    requires
        bytes@.len() <= usize::MAX / 4,
    ensures
        text@ == decoded_text(*encoding, bytes@),
        label_encoding(utf8_label()) == Some(*encoding) && valid_utf8(bytes@)
            && !starts_with_byte_order_mark(bytes@) ==> text@ == decode_utf8(bytes@),
{
    encoding.decode(bytes).0.into_owned()
}

/// The value that `serde_json::from_slice` reads from bytes, if they are
/// JSON text.
pub uninterp spec fn json_value(bytes: Seq<u8>) -> Option<serde_json::Value>;

/// `serde_json::from_slice` for `serde_json::Value`: the JSON value that
/// the bytes spell, or an error. The outcome depends on the bytes alone.
#[verifier::external_body]
pub(crate) fn parse_json(bytes: &[u8]) -> (parsed: Result<serde_json::Value, serde_json::Error>)
    ensures
        match parsed {
            Ok(value) => json_value(bytes@) == Some(value),
            Err(_) => json_value(bytes@) is None,
        },
{
    serde_json::from_slice::<serde_json::Value>(bytes)
}

/// The matcher that `regex::bytes::Regex::new` builds from a pattern, if
/// the pattern is one.
pub uninterp spec fn compiled_pattern(pattern: Seq<char>) -> Option<regex::bytes::Regex>;

/// The pieces into which `regex::bytes::Regex::split` cuts a haystack.
pub uninterp spec fn pattern_split(matcher: regex::bytes::Regex, haystack: Seq<u8>) -> Seq<Seq<u8>>;

/// `regex::bytes::Regex::new`: the matcher for a pattern, or an error where
/// the text is no pattern or its matcher would be too large. The outcome
/// depends on the pattern alone.
#[verifier::external_body]
pub(crate) fn compile_pattern(pattern: &str) -> (built: Result<regex::bytes::Regex, regex::Error>)
    ensures
        match built {
            Ok(matcher) => compiled_pattern(pattern@) == Some(matcher),
            Err(_) => compiled_pattern(pattern@) is None,
        },
{
    regex::bytes::Regex::new(pattern)
}

/// `regex::bytes::Regex::split`, collected: the parts of the haystack that
/// lie between the matches, in order, each copied. The pieces depend on the
/// matcher and the haystack alone, and each is a part of the haystack.
#[verifier::external_body]
pub(crate) fn split_bytes(matcher: &regex::bytes::Regex, haystack: &[u8]) -> (pieces: Vec<Vec<u8>>)
    ensures
        pieces@.map_values(|piece: Vec<u8>| piece@) == pattern_split(*matcher, haystack@),
        forall|i: int| 0 <= i < pieces@.len() ==> (#[trigger] pieces@[i])@.len() <= haystack@.len(),
{
    matcher.split(haystack).map(|piece| piece.to_vec()).collect()
}

} // verus!

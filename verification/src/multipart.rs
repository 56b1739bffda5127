//! The decoder for `multipart/form-data` bodies.
//!
//! A body is cut at every match of its boundary into chunks. A chunk with a
//! header block, a blank line and a payload is a part. A part whose
//! `Content-Disposition` header names it becomes a field: a file where the
//! header gives a filename, else a JSON value where the payload is JSON
//! text, else a text. Every other chunk is skipped. A later part replaces an
//! earlier one of the same name.

use crate::bytes::find_bytes;
use crate::content_header::{parse_header_chars, parsed_header};
use crate::strmap::StrMap;
use crate::text::{
    chars_of, find, lemma_find_from, lemma_first_occurrence, lemma_split_pieces,
    occurs_at, split_all, split_chars, split_once, split_once_chars, string_of, trim_chars,
    trimmed,
};
use crate::trusted::{
    compile_pattern, compiled_pattern, decode_bytes, decoded_text, encoding_for_label, hex_digit,
    json_value, label_encoding, parse_json, pattern_split, percent_decode, percent_decoded,
    split_bytes, starts_with_byte_order_mark, utf8_encoding, utf8_label,
};
use vstd::pervasive::unreached;
use vstd::prelude::*;
use vstd::slice::{slice_subrange, slice_to_vec};
use vstd::string::StringExecFns;
use vstd::utf8::{decode_utf8, encode_utf8, valid_utf8};

verus! {

/// An uploaded file: the payload as it came, byte for byte.
#[derive(Debug)]
pub struct UploadFile {
    pub content_type: String,
    pub filename: String,
    pub headers: StrMap<String>,
    pub content: Vec<u8>,
}

/// A field whose payload is JSON text: the value that the text spells.
#[derive(Debug)]
pub struct JsonField {
    pub content_type: String,
    pub headers: StrMap<String>,
    pub content: serde_json::Value,
}

/// A field whose payload is text: the payload decoded in the charset asked
/// for.
#[derive(Debug)]
pub struct StringField {
    pub content_type: String,
    pub headers: StrMap<String>,
    pub content: String,
}

/// A form field.
#[derive(Debug)]
pub enum Field {
    File(UploadFile),
    Json(JsonField),
    String(StringField),
}

/// What an [`UploadFile`] holds.
pub struct UploadFileModel {
    pub content_type: Seq<char>,
    pub filename: Seq<char>,
    pub headers: Map<Seq<char>, Seq<char>>,
    pub content: Seq<u8>,
}

/// What a [`JsonField`] holds.
pub struct JsonFieldModel {
    pub content_type: Seq<char>,
    pub headers: Map<Seq<char>, Seq<char>>,
    pub content: serde_json::Value,
}

/// What a [`StringField`] holds.
pub struct StringFieldModel {
    pub content_type: Seq<char>,
    pub headers: Map<Seq<char>, Seq<char>>,
    pub content: Seq<char>,
}

/// What a [`Field`] holds.
pub enum FieldModel {
    File(UploadFileModel),
    Json(JsonFieldModel),
    String(StringFieldModel),
}

impl View for UploadFile {
    type V = UploadFileModel;

    open spec fn view(&self) -> UploadFileModel {
        UploadFileModel {
            content_type: self.content_type@,
            filename: self.filename@,
            headers: self.headers@,
            content: self.content@,
        }
    }
}

impl View for JsonField {
    type V = JsonFieldModel;

    open spec fn view(&self) -> JsonFieldModel {
        JsonFieldModel {
            content_type: self.content_type@,
            headers: self.headers@,
            content: self.content,
        }
    }
}

impl View for StringField {
    type V = StringFieldModel;

    open spec fn view(&self) -> StringFieldModel {
        StringFieldModel {
            content_type: self.content_type@,
            headers: self.headers@,
            content: self.content@,
        }
    }
}

impl View for Field {
    type V = FieldModel;

    open spec fn view(&self) -> FieldModel {
        match self {
            Field::File(file) => FieldModel::File(file@),
            Field::Json(json) => FieldModel::Json(json@),
            Field::String(text) => FieldModel::String(text@),
        }
    }
}

/// What the header block of a part says: the content type, `text/plain`
/// where none is given; the field name and the filename of the last
/// `Content-Disposition` line; and every header under its name.
#[derive(Debug)]
pub struct PartHead {
    pub content_type: String,
    pub name: Option<String>,
    pub filename: Option<String>,
    pub headers: StrMap<String>,
}

/// What a [`PartHead`] holds.
pub struct PartHeadModel {
    pub content_type: Seq<char>,
    pub name: Option<Seq<char>>,
    pub filename: Option<Seq<char>>,
    pub headers: Map<Seq<char>, Seq<char>>,
}

impl View for PartHead {
    type V = PartHeadModel;

    open spec fn view(&self) -> PartHeadModel {
        PartHeadModel {
            content_type: self.content_type@,
            name: match self.name {
                Some(name) => Some(name@),
                None => None,
            },
            filename: match self.filename {
                Some(filename) => Some(filename@),
                None => None,
            },
            headers: self.headers@,
        }
    }
}

/// Why a body was not decoded.
#[derive(Debug, PartialEq, Eq, Clone, Copy)]
pub enum MultipartError {
    /// The boundary is not UTF-8 text.
    BoundaryNotText,
    /// The boundary, read as a pattern, is none: a bracket of it is
    /// unbalanced, say, or its matcher would be too large.
    BoundaryNotPattern,
    /// The body is longer than [`MAX_BODY_LEN`].
    BodyTooLong,
}

/// The longest body that is decoded. The bound leaves room for the text
/// decoder: a filename of a part may take four bytes for each character of
/// the header it stands in, and the decoder's buffer up to four times the
/// bytes that it is given.
pub const MAX_BODY_LEN: usize = usize::MAX / 16;

/// A carriage return and a line feed, as characters.
pub open spec fn line_break() -> Seq<char> {
    seq!['\r', '\n']
}

/// Two line breaks in a row: what ends the header block of a part.
pub open spec fn blank_line() -> Seq<u8> {
    seq![13u8, 10u8, 13u8, 10u8]
}

/// What separates a header's name from its value.
pub open spec fn colon() -> Seq<char> {
    seq![':']
}

/// What separates the charset, the language and the name in an extended
/// filename.
pub open spec fn apostrophe() -> Seq<char> {
    seq!['\'']
}

/// The code of `c`, that of the small letter where `c` is an ASCII capital.
pub open spec fn lower_code(c: char) -> u32 {
    if 0x41 <= c as u32 <= 0x5A {
        (c as u32 + 0x20) as u32
    } else {
        c as u32
    }
}

/// Whether two texts are the same but for the case of their ASCII letters.
pub open spec fn same_ignoring_case(a: Seq<char>, b: Seq<char>) -> bool {
    &&& a.len() == b.len()
    &&& forall|i: int| 0 <= i < a.len() ==> lower_code(#[trigger] a[i]) == lower_code(b[i])
}

/// The encoding that a charset label stands for: the one that the label
/// names, UTF-8 where it names none.
pub open spec fn charset_encoding(label: Seq<u8>) -> encoding_rs::Encoding {
    match label_encoding(label) {
        Some(encoding) => encoding,
        None => label_encoding(utf8_label())->0,
    }
}

/// Whether a charset label stands for UTF-8: it names UTF-8, or no charset
/// at all.
pub open spec fn stands_for_utf8(label: Seq<u8>) -> bool {
    label_encoding(label) is None || label_encoding(label) == label_encoding(utf8_label())
}

/// Whether bytes are read in UTF-8 as the text that they encode: they are
/// well-formed and begin with no byte order mark.
pub open spec fn plain_utf8(bytes: Seq<u8>) -> bool {
    valid_utf8(bytes) && !starts_with_byte_order_mark(bytes)
}

/// The text that bytes hold in the charset that `label` stands for.
pub open spec fn charset_text(label: Seq<u8>, bytes: Seq<u8>) -> Seq<char> {
    decoded_text(charset_encoding(label), bytes)
}

/// The filename that an extended value `charset'language'name` gives: the
/// name, percent-decoded and then read in the charset. The language is not
/// looked at. A value with fewer than two apostrophes gives none.
pub open spec fn extended_filename(value: Seq<char>) -> Option<Seq<char>> {
    match split_once(value, apostrophe()) {
        Some((charset, rest)) => match split_once(rest, apostrophe()) {
            Some((_language, name)) => Some(
                charset_text(encode_utf8(charset), percent_decoded(encode_utf8(name))),
            ),
            None => None,
        },
        None => None,
    }
}

/// The filename that the options of a `Content-Disposition` header give:
/// that of `filename*` where the option is there, else `filename` as it
/// stands, else none.
pub open spec fn filename_of(options: Map<Seq<char>, Seq<char>>) -> Option<Seq<char>> {
    if options.contains_key("filename*"@) {
        extended_filename(options["filename*"@])
    } else if options.contains_key("filename"@) {
        Some(options["filename"@])
    } else {
        None
    }
}

/// The field name that the options of a `Content-Disposition` header give.
pub open spec fn name_of(options: Map<Seq<char>, Seq<char>>) -> Option<Seq<char>> {
    if options.contains_key("name"@) {
        Some(options["name"@])
    } else {
        None
    }
}

/// What is known of a part before its first header line.
pub open spec fn initial_head() -> PartHeadModel {
    PartHeadModel {
        content_type: "text/plain"@,
        name: None,
        filename: None,
        headers: Map::empty(),
    }
}

/// `head` after one more line of the header block. A line without a colon
/// changes nothing. Else the line is cut at its first colon into a name and
/// a value, both trimmed. A `Content-Disposition` line sets the field name
/// and the filename, and is stored with its primary value; every other line
/// is stored with its value, and a `Content-Type` line sets the content
/// type too.
pub open spec fn with_header_line(head: PartHeadModel, line: Seq<char>) -> PartHeadModel {
    match split_once(line, colon()) {
        Some((raw_name, raw_value)) => {
            let name = trimmed(raw_name);
            let value = trimmed(raw_value);
            if same_ignoring_case(name, "content-disposition"@) {
                let (primary, options) = parsed_header(value);
                PartHeadModel {
                    content_type: head.content_type,
                    name: name_of(options),
                    filename: filename_of(options),
                    headers: head.headers.insert(name, primary),
                }
            } else {
                PartHeadModel {
                    content_type: if same_ignoring_case(name, "content-type"@) {
                        value
                    } else {
                        head.content_type
                    },
                    name: head.name,
                    filename: head.filename,
                    headers: head.headers.insert(name, value),
                }
            }
        },
        None => head,
    }
}

/// What a header block says, line by line.
pub open spec fn head_of(text: Seq<char>) -> PartHeadModel {
    split_all(text, line_break()).fold_left(
        initial_head(),
        |head: PartHeadModel, line: Seq<char>| with_header_line(head, line),
    )
}

/// The header block of a chunk: what stands before its first blank line, or
/// all of it where it has none.
pub open spec fn header_block(chunk: Seq<u8>) -> Seq<u8> {
    match find(chunk, blank_line()) {
        Some(i) => chunk.take(i),
        None => chunk,
    }
}

/// The text of a header block: empty where the block is not UTF-8.
pub open spec fn header_text(block: Seq<u8>) -> Seq<char> {
    if valid_utf8(block) {
        decode_utf8(block)
    } else {
        Seq::empty()
    }
}

/// The payload of a chunk as it stands in the body: all that follows the
/// first blank line, later blank lines included. A chunk without a blank
/// line has none.
pub open spec fn raw_payload(chunk: Seq<u8>) -> Option<Seq<u8>> {
    match find(chunk, blank_line()) {
        Some(i) => Some(chunk.skip(i + 4)),
        None => None,
    }
}

/// `payload` without the one line break at its end, if it ends with one.
pub open spec fn without_line_break(payload: Seq<u8>) -> Seq<u8> {
    if payload.len() >= 2 && payload[payload.len() - 2] == 13u8 && payload[payload.len() - 1]
        == 10u8 {
        payload.take(payload.len() - 2)
    } else {
        payload
    }
}

/// The payload of a chunk: [`raw_payload`] without the line break that
/// stands before the next boundary.
pub open spec fn payload_of(chunk: Seq<u8>) -> Option<Seq<u8>> {
    match raw_payload(chunk) {
        Some(raw) => Some(without_line_break(raw)),
        None => None,
    }
}

/// The field that a payload makes under a head, given what the payload
/// reads as JSON: a file where the head has a filename; else the JSON value
/// where there is one; else the payload as text in the charset.
pub open spec fn classified_with(
    head: PartHeadModel,
    payload: Seq<u8>,
    json: Option<serde_json::Value>,
    charset: Seq<u8>,
) -> FieldModel {
    match head.filename {
        Some(filename) => FieldModel::File(
            UploadFileModel {
                content_type: head.content_type,
                filename: filename,
                headers: head.headers,
                content: payload,
            },
        ),
        None => match json {
            Some(value) => FieldModel::Json(
                JsonFieldModel {
                    content_type: head.content_type,
                    headers: head.headers,
                    content: value,
                },
            ),
            None => FieldModel::String(
                StringFieldModel {
                    content_type: head.content_type,
                    headers: head.headers,
                    content: charset_text(charset, payload),
                },
            ),
        },
    }
}

/// The field that a payload makes under a head.
pub open spec fn classified(head: PartHeadModel, payload: Seq<u8>, charset: Seq<u8>) -> FieldModel {
    classified_with(head, payload, json_value(payload), charset)
}

/// The field name and the field that a chunk gives: none where the chunk
/// has no blank line or its header block names no field.
pub open spec fn part_of(chunk: Seq<u8>, charset: Seq<u8>) -> Option<(Seq<char>, FieldModel)> {
    let head = head_of(header_text(header_block(chunk)));
    match (head.name, payload_of(chunk)) {
        (Some(name), Some(payload)) => Some((name, classified(head, payload, charset))),
        _ => None,
    }
}

/// Whether a chunk holds plain text in UTF-8: it has a payload and no
/// filename, the payload is no JSON text, the charset stands for UTF-8, and
/// the payload is well-formed UTF-8 without a byte order mark.
pub open spec fn holds_plain_text(chunk: Seq<u8>, charset: Seq<u8>) -> bool {
    &&& payload_of(chunk) is Some
    &&& head_of(header_text(header_block(chunk))).filename is None
    &&& json_value(payload_of(chunk)->0) is None
    &&& stands_for_utf8(charset)
    &&& plain_utf8(payload_of(chunk)->0)
}

/// The field name that a chunk gives.
pub open spec fn part_name(chunk: Seq<u8>, charset: Seq<u8>) -> Option<Seq<char>> {
    match part_of(chunk, charset) {
        Some((name, _)) => Some(name),
        None => None,
    }
}

/// The field that a chunk gives.
pub open spec fn part_field(chunk: Seq<u8>, charset: Seq<u8>) -> Option<FieldModel> {
    match part_of(chunk, charset) {
        Some((_, field)) => Some(field),
        None => None,
    }
}

/// The text of the field that a chunk gives, where it gives a text field.
pub open spec fn part_text(chunk: Seq<u8>, charset: Seq<u8>) -> Option<Seq<char>> {
    match part_of(chunk, charset) {
        Some((_, FieldModel::String(text))) => Some(text.content),
        _ => None,
    }
}

/// Whether a chunk that holds plain text in UTF-8 and names a field gives
/// that very text: the text that its payload encodes.
pub open spec fn plain_text_is_kept(chunk: Seq<u8>, charset: Seq<u8>) -> bool {
    holds_plain_text(chunk, charset) && part_name(chunk, charset) is Some ==> part_text(
        chunk,
        charset,
    ) == Some(decode_utf8(payload_of(chunk)->0))
}

/// `form` with the part that `chunk` gives, if it gives one.
pub open spec fn with_part(
    form: Map<Seq<char>, FieldModel>,
    chunk: Seq<u8>,
    charset: Seq<u8>,
) -> Map<Seq<char>, FieldModel> {
    match part_of(chunk, charset) {
        Some((name, field)) => form.insert(name, field),
        None => form,
    }
}

/// The fields that the chunks give, a later part winning over an earlier
/// one of the same name.
pub open spec fn form_of(chunks: Seq<Seq<u8>>, charset: Seq<u8>) -> Map<Seq<char>, FieldModel> {
    chunks.fold_left(
        Map::empty(),
        |form: Map<Seq<char>, FieldModel>, chunk: Seq<u8>| with_part(form, chunk, charset),
    )
}

/// The pattern that matches a boundary with any number of hyphens on either
/// side. The boundary stands in it as it is: it is read as a pattern itself.
pub open spec fn boundary_pattern(boundary: Seq<u8>) -> Seq<char> {
    "-*("@ + decode_utf8(boundary) + ")-*"@
}

/// Whether a boundary can be used: it is UTF-8 text and, with hyphens
/// allowed around it, a pattern.
pub open spec fn boundary_usable(boundary: Seq<u8>) -> bool {
    valid_utf8(boundary) && compiled_pattern(boundary_pattern(boundary)) is Some
}

/// The chunks into which a boundary cuts a body.
pub open spec fn chunks_of(body: Seq<u8>, boundary: Seq<u8>) -> Seq<Seq<u8>> {
    pattern_split(compiled_pattern(boundary_pattern(boundary))->0, body)
}

/// Percent-decoding never makes bytes longer.
pub proof fn lemma_percent_decoded_len(input: Seq<u8>)
    ensures
        percent_decoded(input).len() <= input.len(),
    decreases input.len(),
{
    if input.len() == 0 {
    } else if input[0] == 0x25 && input.len() >= 3 && hex_digit(input[1]) is Some
        && hex_digit(input[2]) is Some {
        lemma_percent_decoded_len(input.skip(3));
    } else {
        lemma_percent_decoded_len(input.skip(1));
    }
}

/// A character takes at most four bytes in UTF-8.
pub proof fn lemma_encoded_len(text: Seq<char>)
    ensures
        encode_utf8(text).len() <= 4 * text.len(),
    decreases text.len(),
{
    if text.len() > 0 {
        lemma_encoded_len(text.drop_first());
    }
}

/// A character takes at least one byte in UTF-8.
pub proof fn lemma_decoded_len(bytes: Seq<u8>)
    requires
        valid_utf8(bytes),
    ensures
        decode_utf8(bytes).len() <= bytes.len(),
    decreases bytes.len(),
{
    if bytes.len() > 0 {
        lemma_decoded_len(vstd::utf8::pop_first_scalar(bytes));
    }
}

/// The code that [`lower_code`] names.
fn lower_code_of(c: char) -> (code: u32)
    ensures
        code == lower_code(c),
{
    let code: u32 = c as u32;
    if 0x41 <= code && code <= 0x5A {
        code + 0x20
    } else {
        code
    }
}

/// Decides [`same_ignoring_case`].
pub fn eq_ignoring_case(a: &[char], b: &[char]) -> (same: bool)
    ensures
        same == same_ignoring_case(a@, b@),
{
    if a.len() != b.len() {
        return false;
    }
    let mut i: usize = 0;
    while i < a.len()
        invariant
            i <= a.len(),
            a.len() == b.len(),
            forall|k: int| 0 <= k < i ==> lower_code(#[trigger] a@[k]) == lower_code(b@[k]),
        decreases a.len() - i,
    {
        if lower_code_of(a[i]) != lower_code_of(b[i]) {
            return false;
        }
        i += 1;
    }
    true
}

/// The text that bytes hold in the charset that `label` stands for: UTF-8
/// where the label names no charset.
///
/// Where the label stands for UTF-8 and the bytes are well-formed UTF-8
/// without a byte order mark, the text is exactly the text that the bytes
/// encode.
pub fn decode_in_charset(label: &[u8], bytes: &[u8]) -> (text: String)
    requires
        bytes@.len() <= usize::MAX / 4,
    ensures
        text@ == charset_text(label@, bytes@),
        stands_for_utf8(label@) && plain_utf8(bytes@) ==> text@ == decode_utf8(bytes@),
{
    let encoding = match encoding_for_label(label) {
        Some(encoding) => encoding,
        None => utf8_encoding(),
    };
    decode_bytes(encoding, bytes)
}

/// The characters of [`apostrophe`].
fn apostrophe_chars() -> (sign: Vec<char>)
    ensures
        sign@ == apostrophe(),
{
    let mut sign: Vec<char> = Vec::new();
    sign.push('\'');
    assert(sign@ =~= apostrophe());
    sign
}

/// The filename that the options of a `Content-Disposition` header give.
///
/// An option `filename*` holds `charset'language'name`: its name is
/// percent-decoded and read in its charset, in UTF-8 where the charset is
/// empty or unknown; with fewer than two apostrophes it gives no filename,
/// and `filename` is not looked at. Without `filename*`, `filename` is the
/// filename as it stands.
pub fn extract_filename(options: &StrMap<String>) -> (filename: Option<String>)
    requires
        options@.contains_key("filename*"@) ==> options@["filename*"@].len() <= MAX_BODY_LEN,
    ensures
        match filename {
            Some(name) => filename_of(options@) == Some(name@),
            None => filename_of(options@) is None,
        },
{
    match options.get("filename*") {
        Some(value) => {
            let chars = chars_of(value.as_str());
            let sign = apostrophe_chars();
            match split_once_chars(chars.as_slice(), sign.as_slice()) {
                Some((charset, rest)) => match split_once_chars(rest.as_slice(), sign.as_slice()) {
                    Some((_language, name)) => {
                        let label = string_of(charset.as_slice());
                        let encoded = string_of(name.as_slice());
                        proof {
                            lemma_encoded_len(name@);
                            lemma_percent_decoded_len(encode_utf8(name@));
                        }
                        let bytes = percent_decode(encoded.as_str().as_bytes());
                        Some(decode_in_charset(label.as_str().as_bytes(), bytes.as_slice()))
                    },
                    None => None,
                },
                None => None,
            }
        },
        None => match options.get("filename") {
            Some(name) => Some(name.clone()),
            None => None,
        },
    }
}

/// The characters of [`colon`].
fn colon_chars() -> (sign: Vec<char>)
    ensures
        sign@ == colon(),
{
    let mut sign: Vec<char> = Vec::new();
    sign.push(':');
    assert(sign@ =~= colon());
    sign
}

/// The characters of [`line_break`].
fn line_break_chars() -> (sign: Vec<char>)
    ensures
        sign@ == line_break(),
{
    let mut sign: Vec<char> = Vec::new();
    sign.push('\r');
    sign.push('\n');
    assert(sign@ =~= line_break());
    sign
}

/// What is known of a part before its first header line.
pub fn new_part_head() -> (head: PartHead)
    ensures
        head@ == initial_head(),
{
    PartHead {
        content_type: "text/plain".to_owned(),
        name: None,
        filename: None,
        headers: StrMap::new(),
    }
}

/// `head` after one more line of the header block.
pub fn read_header_line(head: PartHead, line: &[char]) -> (next: PartHead)
    requires
        line@.len() <= MAX_BODY_LEN,
    ensures
        next@ == with_header_line(head@, line@),
{
    let sign = colon_chars();
    match split_once_chars(line, sign.as_slice()) {
        Some((raw_name, raw_value)) => {
            let name = trim_chars(raw_name.as_slice());
            let value = trim_chars(raw_value.as_slice());
            let disposition = chars_of("content-disposition");
            let mut headers = head.headers;
            if eq_ignoring_case(name.as_slice(), disposition.as_slice()) {
                let (primary, options) = parse_header_chars(value.as_slice());
                let field_name = match options.get("name") {
                    Some(text) => Some(text.clone()),
                    None => None,
                };
                let filename = extract_filename(&options);
                headers.insert(string_of(name.as_slice()), string_of(primary.as_slice()));
                PartHead {
                    content_type: head.content_type,
                    name: field_name,
                    filename: filename,
                    headers: headers,
                }
            } else {
                let kind = chars_of("content-type");
                let content_type = if eq_ignoring_case(name.as_slice(), kind.as_slice()) {
                    string_of(value.as_slice())
                } else {
                    head.content_type
                };
                headers.insert(string_of(name.as_slice()), string_of(value.as_slice()));
                PartHead {
                    content_type: content_type,
                    name: head.name,
                    filename: head.filename,
                    headers: headers,
                }
            }
        },
        None => head,
    }
}

/// What a header block says, line by line.
pub fn read_part_head(text: &[char]) -> (head: PartHead)
    requires
        text@.len() <= MAX_BODY_LEN,
    ensures
        head@ == head_of(text@),
{
    let sign = line_break_chars();
    let lines = split_chars(text, sign.as_slice());
    let ghost texts = split_all(text@, line_break());
    let mut head = new_part_head();
    let mut k: usize = 0;
    assert(texts.take(0) =~= Seq::<Seq<char>>::empty());
    while k < lines.len()
        invariant
            k <= lines.len(),
            lines@.len() == texts.len(),
            forall|j: int| 0 <= j < lines@.len() ==> #[trigger] lines@[j]@ == texts[j],
            forall|j: int| 0 <= j < lines@.len() ==> (#[trigger] lines@[j])@.len() <= MAX_BODY_LEN,
            head@ == texts.take(k as int).fold_left(
                initial_head(),
                |head: PartHeadModel, line: Seq<char>| with_header_line(head, line),
            ),
        decreases lines.len() - k,
    {
        proof {
            assert(texts.take(k + 1).drop_last() =~= texts.take(k as int));
            assert(texts.take(k + 1).last() == lines@[k as int]@);
        }
        head = read_header_line(head, lines[k].as_slice());
        k += 1;
    }
    assert(texts.take(k as int) =~= texts);
    head
}

/// The bytes of [`blank_line`].
fn blank_line_bytes() -> (sign: Vec<u8>)
    ensures
        sign@ == blank_line(),
{
    let mut sign: Vec<u8> = Vec::new();
    sign.push(13u8);
    sign.push(10u8);
    sign.push(13u8);
    sign.push(10u8);
    assert(sign@ =~= blank_line());
    sign
}

/// `payload` without the one line break at its end, if it ends with one.
pub fn strip_line_break(payload: &[u8]) -> (stripped: &[u8])
    ensures
        stripped@ == without_line_break(payload@),
        stripped@.len() <= payload@.len(),
{
    let n = payload.len();
    if n >= 2 && payload[n - 2] == 13u8 && payload[n - 1] == 10u8 {
        slice_subrange(payload, 0, n - 2)
    } else {
        payload
    }
}

/// Cuts a chunk into its header block and its payload.
pub fn cut_chunk(chunk: &[u8]) -> (cut: (&[u8], Option<&[u8]>))
    ensures
        cut.0@ == header_block(chunk@),
        cut.0@.len() <= chunk@.len(),
        match cut.1 {
            Some(payload) => payload_of(chunk@) == Some(payload@) && payload@.len() <= chunk@.len(),
            None => payload_of(chunk@) is None,
        },
{
    let sign = blank_line_bytes();
    match find_bytes(chunk, sign.as_slice(), 0) {
        Some(i) => {
            let block = slice_subrange(chunk, 0, i);
            let raw = slice_subrange(chunk, i + 4, chunk.len());
            (block, Some(strip_line_break(raw)))
        },
        None => (chunk, None),
    }
}

/// The field that a payload makes under a head, given what the payload
/// reads as JSON.
pub fn classify(
    head: PartHead,
    payload: &[u8],
    json: Option<serde_json::Value>,
    charset: &[u8],
) -> (field: Field)
    requires
        payload@.len() <= MAX_BODY_LEN,
    ensures
        field@ == classified_with(head@, payload@, json, charset@),
        head@.filename is None && json is None && stands_for_utf8(charset@) && plain_utf8(payload@)
            ==> field@ == FieldModel::String(
            StringFieldModel {
                content_type: head@.content_type,
                headers: head@.headers,
                content: decode_utf8(payload@),
            },
        ),
{
    match head.filename {
        Some(filename) => Field::File(
            UploadFile {
                content_type: head.content_type,
                filename: filename,
                headers: head.headers,
                content: slice_to_vec(payload),
            },
        ),
        None => match json {
            Some(value) => Field::Json(
                JsonField { content_type: head.content_type, headers: head.headers, content: value },
            ),
            None => Field::String(
                StringField {
                    content_type: head.content_type,
                    headers: head.headers,
                    content: decode_in_charset(charset, payload),
                },
            ),
        },
    }
}

/// The field name and the field that a chunk gives, if it gives one.
pub fn part_from_chunk(chunk: &[u8], charset: &[u8]) -> (part: Option<(String, Field)>)
    requires
        chunk@.len() <= MAX_BODY_LEN,
    ensures
        match part {
            Some((name, field)) => part_of(chunk@, charset@) == Some((name@, field@)),
            None => part_of(chunk@, charset@) is None,
        },
        plain_text_is_kept(chunk@, charset@),
{
    let (block, payload) = cut_chunk(chunk);
    let text: Vec<char> = match core::str::from_utf8(block) {
        Ok(text) => {
            proof {
                lemma_decoded_len(block@);
            }
            chars_of(text)
        },
        Err(_) => Vec::new(),
    };
    let head = read_part_head(text.as_slice());
    let name = match &head.name {
        Some(name) => Some(name.clone()),
        None => None,
    };
    match (name, payload) {
        (Some(name), Some(payload)) => {
            let json = if head.filename.is_some() {
                None
            } else {
                match parse_json(payload) {
                    Ok(value) => Some(value),
                    Err(_) => None,
                }
            };
            Some((name, classify(head, payload, json, charset)))
        },
        _ => None,
    }
}

/// The fields that the chunks of a body give.
pub fn fields_from_chunks(chunks: &Vec<Vec<u8>>, charset: &[u8]) -> (form: StrMap<Field>)
    requires
        forall|i: int| 0 <= i < chunks@.len() ==> (#[trigger] chunks@[i])@.len() <= MAX_BODY_LEN,
    ensures
        form@ == form_of(chunks@.map_values(|chunk: Vec<u8>| chunk@), charset@),
        forall|i: int|
            0 <= i < chunks@.len() ==> plain_text_is_kept((#[trigger] chunks@[i])@, charset@),
{
    let ghost pieces = chunks@.map_values(|chunk: Vec<u8>| chunk@);
    let mut form: StrMap<Field> = StrMap::new();
    let mut k: usize = 0;
    assert(pieces.take(0) =~= Seq::<Seq<u8>>::empty());
    while k < chunks.len()
        invariant
            k <= chunks.len(),
            pieces == chunks@.map_values(|chunk: Vec<u8>| chunk@),
            forall|i: int|
                0 <= i < chunks@.len() ==> (#[trigger] chunks@[i])@.len() <= MAX_BODY_LEN,
            form@ == form_of(pieces.take(k as int), charset@),
            forall|i: int| 0 <= i < k ==> plain_text_is_kept((#[trigger] chunks@[i])@, charset@),
        decreases chunks.len() - k,
    {
        proof {
            assert(pieces.take(k + 1).drop_last() =~= pieces.take(k as int));
            assert(pieces.take(k + 1).last() == chunks@[k as int]@);
        }
        match part_from_chunk(chunks[k].as_slice(), charset) {
            Some((name, field)) => {
                form.insert(name, field);
            },
            None => {},
        }
        k += 1;
    }
    assert(pieces.take(k as int) =~= pieces);
    form
}

/// The text of [`boundary_pattern`].
fn pattern_for(boundary: &str) -> (pattern: String)
    ensures
        pattern@ == "-*("@ + boundary@ + ")-*"@,
{
    let mut pattern = "-*(".to_owned();
    pattern.append(boundary);
    pattern.append(")-*");
    pattern
}

/// Decodes a `multipart/form-data` body into its fields.
///
/// The boundary is given without the hyphens that stand before it in the
/// body. It is read as a pattern, so a character with a meaning in patterns
/// keeps that meaning. `charset` is the label of the charset in which text
/// fields are read; UTF-8 is used where the label names none.
///
/// The payload of a part is all that follows its first blank line, less one
/// line break at its end. A file keeps it byte for byte. A text in UTF-8
/// that is well-formed and begins with no byte order mark comes out as the
/// very text that the payload encodes.
///
/// The boundary must be usable and the body at most [`MAX_BODY_LEN`] bytes
/// long; [`try_parse_multipart_form_data`] tests both.
pub fn parse_multipart_form_data(body: &[u8], boundary: &[u8], charset: &[u8]) -> (form: StrMap<
    Field,
>)
    requires
        boundary_usable(boundary@),
        body@.len() <= MAX_BODY_LEN,
    ensures
        form@ == form_of(chunks_of(body@, boundary@), charset@),
        forall|i: int|
            0 <= i < chunks_of(body@, boundary@).len() ==> plain_text_is_kept(
                #[trigger] chunks_of(body@, boundary@)[i],
                charset@,
            ),
{
    match core::str::from_utf8(boundary) {
        Ok(text) => {
            let pattern = pattern_for(text);
            match compile_pattern(pattern.as_str()) {
                Ok(matcher) => {
                    let chunks = split_bytes(&matcher, body);
                    let form = fields_from_chunks(&chunks, charset);
                    proof {
                        assert forall|i: int|
                            0 <= i < chunks_of(body@, boundary@).len() implies plain_text_is_kept(
                            #[trigger] chunks_of(body@, boundary@)[i],
                            charset@,
                        ) by {
                            assert(chunks_of(body@, boundary@)[i] == chunks@[i]@);
                        }
                    }
                    form
                },
                Err(_) => unreached(),
            }
        },
        Err(_) => unreached(),
    }
}

/// Decodes a `multipart/form-data` body into its fields, or says why the
/// body cannot be decoded: a part that is malformed is skipped and is no
/// reason.
pub fn try_parse_multipart_form_data(body: &[u8], boundary: &[u8], charset: &[u8]) -> (outcome:
    Result<StrMap<Field>, MultipartError>)
    ensures
        match outcome {
            Ok(form) => boundary_usable(boundary@) && body@.len() <= MAX_BODY_LEN && form@
                == form_of(chunks_of(body@, boundary@), charset@) && forall|i: int|
                0 <= i < chunks_of(body@, boundary@).len() ==> plain_text_is_kept(
                    #[trigger] chunks_of(body@, boundary@)[i],
                    charset@,
                ),
            Err(MultipartError::BoundaryNotText) => !valid_utf8(boundary@),
            Err(MultipartError::BoundaryNotPattern) => valid_utf8(boundary@) && !boundary_usable(
                boundary@,
            ),
            Err(MultipartError::BodyTooLong) => boundary_usable(boundary@) && body@.len()
                > MAX_BODY_LEN,
        },
{
    match core::str::from_utf8(boundary) {
        Ok(text) => {
            let pattern = pattern_for(text);
            match compile_pattern(pattern.as_str()) {
                Ok(_) => {
                    if body.len() <= MAX_BODY_LEN {
                        Ok(parse_multipart_form_data(body, boundary, charset))
                    } else {
                        Err(MultipartError::BodyTooLong)
                    }
                },
                Err(_) => Err(MultipartError::BoundaryNotPattern),
            }
        },
        Err(_) => Err(MultipartError::BoundaryNotText),
    }
}

/// A text that holds no apostrophe, followed by an apostrophe, is cut at
/// that apostrophe.
proof fn lemma_cut_at_apostrophe(before: Seq<char>, after: Seq<char>)
    requires
        forall|k: int| 0 <= k < before.len() ==> before[k] != '\'',
    ensures
        split_once(before + apostrophe() + after, apostrophe()) == Some((before, after)),
{
    let text = before + apostrophe() + after;
    let at = before.len() as int;
    assert(occurs_at(text, apostrophe(), at)) by {
        assert(text.subrange(at, at + 1) =~= apostrophe());
    }
    assert forall|k: int| 0 <= k < at implies !occurs_at(text, apostrophe(), k) by {
        if occurs_at(text, apostrophe(), k) {
            assert(text.subrange(k, k + 1)[0] == apostrophe()[0]);
            assert(text[k] == before[k]);
        }
    }
    lemma_first_occurrence(text, apostrophe(), at);
    assert(text.take(at) =~= before);
    assert(text.skip(at + 1) =~= after);
}

/// The language of an extended filename is not looked at: whatever stands
/// between the first two apostrophes, and whatever else the options hold,
/// the filename is the name, percent-decoded and read in the charset. So a
/// value with a language gives the filename of the value without.
pub proof fn law_language_is_ignored(
    options: Map<Seq<char>, Seq<char>>,
    charset: Seq<char>,
    language: Seq<char>,
    name: Seq<char>,
)
    requires
        forall|k: int| 0 <= k < charset.len() ==> charset[k] != '\'',
        forall|k: int| 0 <= k < language.len() ==> language[k] != '\'',
    ensures
        extended_filename(charset + apostrophe() + (language + apostrophe() + name)) == Some(
            charset_text(encode_utf8(charset), percent_decoded(encode_utf8(name))),
        ),
        filename_of(
            options.insert(
                "filename*"@,
                charset + apostrophe() + (language + apostrophe() + name),
            ),
        ) == filename_of(
            options.insert(
                "filename*"@,
                charset + apostrophe() + (Seq::<char>::empty() + apostrophe() + name),
            ),
        ),
{
    lemma_cut_at_apostrophe(charset, language + apostrophe() + name);
    lemma_cut_at_apostrophe(language, name);
    lemma_cut_at_apostrophe(charset, Seq::<char>::empty() + apostrophe() + name);
    lemma_cut_at_apostrophe(Seq::<char>::empty(), name);
}

/// The payload of a chunk is all that follows its first blank line, less
/// one line break at the end: a blank line inside the payload stays in it.
pub proof fn law_payload_follows_first_blank_line(block: Seq<u8>, rest: Seq<u8>)
    requires
        forall|k: int|
            0 <= k < block.len() ==> !occurs_at(block + blank_line() + rest, blank_line(), k),
    ensures
        header_block(block + blank_line() + rest) == block,
        raw_payload(block + blank_line() + rest) == Some(rest),
        payload_of(block + blank_line() + rest) == Some(without_line_break(rest)),
{
    let chunk = block + blank_line() + rest;
    let at = block.len() as int;
    assert(occurs_at(chunk, blank_line(), at)) by {
        assert(chunk.subrange(at, at + 4) =~= blank_line());
    }
    lemma_first_occurrence(chunk, blank_line(), at);
    assert(chunk.take(at) =~= block);
    assert(chunk.skip(at + 4) =~= rest);
}

/// A payload that is JSON text, in a part without a filename, makes a JSON
/// field that holds the value that the text spells, not a text field.
pub proof fn law_json_payload_makes_json_field(
    head: PartHeadModel,
    payload: Seq<u8>,
    charset: Seq<u8>,
)
    requires
        head.filename is None,
        json_value(payload) is Some,
    ensures
        classified(head, payload, charset) == FieldModel::Json(
            JsonFieldModel {
                content_type: head.content_type,
                headers: head.headers,
                content: json_value(payload)->0,
            },
        ),
{
}

/// A payload in a part with a filename makes a file that holds the payload
/// byte for byte, whatever the payload and the charset are.
pub proof fn law_file_keeps_payload(head: PartHeadModel, payload: Seq<u8>, charset: Seq<u8>)
    requires
        head.filename is Some,
    ensures
        classified(head, payload, charset) == FieldModel::File(
            UploadFileModel {
                content_type: head.content_type,
                filename: head.filename->0,
                headers: head.headers,
                content: payload,
            },
        ),
{
}

/// A chunk without a blank line gives no part, whatever its headers say.
/// The empty chunk, as it stands before the first boundary and after the
/// last, is one.
pub proof fn law_chunk_without_blank_line(chunk: Seq<u8>, charset: Seq<u8>)
    requires
        find(chunk, blank_line()) is None,
    ensures
        part_of(chunk, charset) is None,
        part_of(Seq::<u8>::empty(), charset) is None,
{
}

/// Whether a text holds no colon.
pub open spec fn colon_free(text: Seq<char>) -> bool {
    forall|k: int| 0 <= k < text.len() ==> text[k] != ':'
}

/// A line without a colon says nothing.
proof fn lemma_line_without_colon(head: PartHeadModel, line: Seq<char>)
    requires
        colon_free(line),
    ensures
        with_header_line(head, line) == head,
{
    lemma_find_from(line, colon(), 0);
    match find(line, colon()) {
        Some(i) => {
            assert(line.subrange(i, i + 1)[0] == colon()[0]);
        },
        None => {},
    }
}

/// Lines without a colon leave a head as it is.
proof fn lemma_lines_without_colon(head: PartHeadModel, lines: Seq<Seq<char>>)
    requires
        forall|j: int| 0 <= j < lines.len() ==> colon_free(#[trigger] lines[j]),
    ensures
        lines.fold_left(head, |head: PartHeadModel, line: Seq<char>| with_header_line(head, line))
            == head,
    decreases lines.len(),
{
    if lines.len() > 0 {
        let earlier = lines.drop_last();
        assert forall|j: int| 0 <= j < earlier.len() implies colon_free(#[trigger] earlier[j]) by {
            assert(earlier[j] == lines[j]);
        }
        lemma_lines_without_colon(head, earlier);
        assert(lines.last() == lines[lines.len() - 1]);
        lemma_line_without_colon(head, lines.last());
    }
}

/// A header block without a colon holds no header: it names no field, so
/// its chunk gives no part.
pub proof fn law_block_without_colon(text: Seq<char>)
    requires
        colon_free(text),
    ensures
        head_of(text) == initial_head(),
        head_of(text).name is None,
{
    let lines = split_all(text, line_break());
    assert forall|j: int| 0 <= j < lines.len() implies colon_free(#[trigger] lines[j]) by {
        lemma_split_pieces(text, line_break(), 0, j);
        let (a, b) = choose|a: int, b: int|
            0 <= a <= b <= text.len() && lines[j] == #[trigger] text.subrange(a, b);
        assert forall|k: int| 0 <= k < lines[j].len() implies lines[j][k] != ':' by {
            assert(lines[j][k] == text[a + k]);
        }
    }
    lemma_lines_without_colon(initial_head(), lines);
}

/// A header block that is not UTF-8 is read as an empty one: its chunk
/// gives no part.
pub proof fn law_block_not_text(chunk: Seq<u8>, charset: Seq<u8>)
    requires
        !valid_utf8(header_block(chunk)),
    ensures
        part_of(chunk, charset) is None,
{
    law_block_without_colon(Seq::<char>::empty());
}

/// The form holds a name exactly when some chunk gives a part of that name.
pub proof fn law_form_names(chunks: Seq<Seq<u8>>, charset: Seq<u8>, name: Seq<char>)
    ensures
        form_of(chunks, charset).contains_key(name) <==> exists|i: int|
            0 <= i < chunks.len() && part_name(#[trigger] chunks[i], charset) == Some(name),
    decreases chunks.len(),
{
    if chunks.len() > 0 {
        let earlier = chunks.drop_last();
        law_form_names(earlier, charset, name);
        let last = chunks.len() - 1;
        if form_of(chunks, charset).contains_key(name) {
            if form_of(earlier, charset).contains_key(name) {
                let i = choose|i: int|
                    0 <= i < earlier.len() && part_name(#[trigger] earlier[i], charset) == Some(
                        name,
                    );
                assert(chunks[i] == earlier[i]);
            } else {
                assert(part_name(chunks[last], charset) == Some(name));
            }
        }
        if exists|i: int|
            0 <= i < chunks.len() && part_name(#[trigger] chunks[i], charset) == Some(name) {
            let i = choose|i: int|
                0 <= i < chunks.len() && part_name(#[trigger] chunks[i], charset) == Some(name);
            if i < last {
                assert(earlier[i] == chunks[i]);
            }
        }
    }
}

/// Of the parts of one name the last wins: where chunk `i` gives a part and
/// no later chunk gives a part of the same name, the form holds the field
/// of chunk `i` under that name, whatever earlier chunks gave.
pub proof fn law_later_part_wins(chunks: Seq<Seq<u8>>, charset: Seq<u8>, i: int)
    requires
        0 <= i < chunks.len(),
        part_name(chunks[i], charset) is Some,
        forall|j: int|
            i < j < chunks.len() ==> part_name(#[trigger] chunks[j], charset) != part_name(
                chunks[i],
                charset,
            ),
    ensures
        form_of(chunks, charset).contains_key(part_name(chunks[i], charset)->0),
        Some(form_of(chunks, charset)[part_name(chunks[i], charset)->0]) == part_field(
            chunks[i],
            charset,
        ),
    decreases chunks.len(),
{
    let last = chunks.len() - 1;
    if i < last {
        let earlier = chunks.drop_last();
        assert(earlier[i] == chunks[i]);
        assert forall|j: int| i < j < earlier.len() implies part_name(
            #[trigger] earlier[j],
            charset,
        ) != part_name(earlier[i], charset) by {
            assert(earlier[j] == chunks[j]);
        }
        law_later_part_wins(earlier, charset, i);
        assert(part_name(chunks[last], charset) != part_name(chunks[i], charset));
    }
}

} // verus!

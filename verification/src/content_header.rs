//! The tokenizer for structured header values such as
//! `form-data; name="field"; filename="a.txt"`: a primary value followed by
//! `key=value` options, separated by a semicolon and a space.
//!
//! The tokenizer is permissive. It never fails: a header without the
//! separator yields an empty primary value and no options.

use crate::strmap::StrMap;
use crate::text::{
    chars_of, copy_range, drop_spaces_before, find, is_space, is_space_char,
    lemma_drop_spaces_bounds, lemma_find_from, lemma_skip_spaces_bounds, lemma_trimmed, occurs_at,
    skip_spaces, split_all, split_chars, split_once, split_once_chars, string_of, trim_chars,
    trimmed,
};
use vstd::prelude::*;

verus! {

/// A double quote or an apostrophe.
pub open spec fn is_quote(c: char) -> bool {
    c == '"' || c == '\''
}

/// Whether an escaped quote, a backslash followed by a double quote, stands
/// in `s` at index `i`.
pub open spec fn escape_at(s: Seq<char>, i: int) -> bool {
    0 <= i && i + 1 < s.len() && s[i] == '\\' && s[i + 1] == '"'
}

/// What is left of `s` from index `i` on once every escaped quote is taken
/// out together with the whitespace that directly follows it. `skipping`
/// says that an escaped quote, and nothing but whitespace since, stands
/// directly before index `i`.
pub open spec fn unescaped_from(s: Seq<char>, i: int, skipping: bool) -> Seq<char>
    decreases s.len() - i,
{
    if i < 0 || i >= s.len() {
        Seq::empty()
    } else if escape_at(s, i) {
        unescaped_from(s, i + 2, true)
    } else if skipping && is_space(s[i]) {
        unescaped_from(s, i + 1, true)
    } else {
        seq![s[i]] + unescaped_from(s, i + 1, false)
    }
}

/// `s` without its escaped quotes and without the whitespace that directly
/// follows each of them.
pub open spec fn unescaped(s: Seq<char>) -> Seq<char> {
    unescaped_from(s, 0, false)
}

/// `s` without one quote character at its start, if it starts with one, and
/// without one at its end, if what is left ends with one. The two ends are
/// looked at independently: the quotes need not match.
pub open spec fn unquoted(s: Seq<char>) -> Seq<char> {
    let from: int = if s.len() > 0 && is_quote(s[0]) {
        1
    } else {
        0
    };
    let to: int = if s.len() > from && is_quote(s[s.len() - 1]) {
        s.len() - 1
    } else {
        s.len() as int
    };
    s.subrange(from, to)
}

/// A token as it is stored: trimmed, then unquoted.
pub open spec fn normalized(s: Seq<char>) -> Seq<char> {
    unquoted(trimmed(s))
}

/// What separates the primary value from the options, and the options from
/// each other: a semicolon and one space.
pub open spec fn separator() -> Seq<char> {
    seq![';', ' ']
}

/// What separates an option's key from its value.
pub open spec fn assignment() -> Seq<char> {
    seq!['=']
}

/// `options` with the option that `segment` holds: the segment is cut at its
/// first `=`, and both sides are normalized. A segment without `=` adds
/// nothing.
pub open spec fn with_option(
    options: Map<Seq<char>, Seq<char>>,
    segment: Seq<char>,
) -> Map<Seq<char>, Seq<char>> {
    match split_once(segment, assignment()) {
        Some((key, value)) => options.insert(normalized(key), normalized(value)),
        None => options,
    }
}

/// The key of the option that a segment holds.
pub open spec fn option_key(segment: Seq<char>) -> Option<Seq<char>> {
    match split_once(segment, assignment()) {
        Some((key, _)) => Some(normalized(key)),
        None => None,
    }
}

/// The value of the option that a segment holds.
pub open spec fn option_value(segment: Seq<char>) -> Option<Seq<char>> {
    match split_once(segment, assignment()) {
        Some((_, value)) => Some(normalized(value)),
        None => None,
    }
}

/// The options that the segments hold, a later segment winning over an
/// earlier one with the same key.
pub open spec fn options_of(segments: Seq<Seq<char>>) -> Map<Seq<char>, Seq<char>> {
    segments.fold_left(
        Map::empty(),
        |options: Map<Seq<char>, Seq<char>>, segment: Seq<char>| with_option(options, segment),
    )
}

/// The primary value and the options of a header value.
pub open spec fn parsed_header(header: Seq<char>) -> (Seq<char>, Map<Seq<char>, Seq<char>>) {
    let text = unquoted(unescaped(header));
    match split_once(text, separator()) {
        Some((value, rest)) => (normalized(value), options_of(split_all(rest, separator()))),
        None => (Seq::empty(), Map::empty()),
    }
}

/// Whether `s` holds the separator at index `i`.
pub open spec fn separator_at(s: Seq<char>, i: int) -> bool {
    0 <= i && i + 1 < s.len() && s[i] == ';' && s[i + 1] == ' '
}

/// The separator stands at an index exactly when a semicolon stands there
/// and a space behind it.
proof fn lemma_separator_at(s: Seq<char>, i: int)
    ensures
        occurs_at(s, separator(), i) <==> separator_at(s, i),
{
    if separator_at(s, i) {
        assert(s.subrange(i, i + 2) =~= separator());
    }
    if occurs_at(s, separator(), i) {
        assert(s.subrange(i, i + 2)[0] == separator()[0]);
        assert(s.subrange(i, i + 2)[1] == separator()[1]);
    }
}

/// A text without the separator has none after unescaping either: what
/// follows a removed escaped quote is never whitespace.
proof fn lemma_unescaped_keeps_free(s: Seq<char>, i: int, skipping: bool)
    requires
        0 <= i,
        forall|k: int| !separator_at(s, k),
    ensures
        forall|k: int| !separator_at(unescaped_from(s, i, skipping), k),
        unescaped_from(s, i, skipping).len() > 0 && unescaped_from(s, i, skipping)[0] == ' '
            ==> i < s.len() && s[i] == ' ',
    decreases s.len() - i,
{
    let u = unescaped_from(s, i, skipping);
    if i >= s.len() {
    } else if escape_at(s, i) {
        lemma_unescaped_keeps_free(s, i + 2, true);
        lemma_skipping_starts_solid(s, i + 2);
    } else if skipping && is_space(s[i]) {
        lemma_unescaped_keeps_free(s, i + 1, true);
        lemma_skipping_starts_solid(s, i + 1);
    } else {
        lemma_unescaped_keeps_free(s, i + 1, false);
        let rest = unescaped_from(s, i + 1, false);
        assert forall|k: int| !separator_at(u, k) by {
            if separator_at(u, k) {
                if k == 0 {
                    assert(u[1] == rest[0]);
                    assert(separator_at(s, i));
                } else {
                    assert(u[k] == rest[k - 1]);
                    assert(u[k + 1] == rest[k]);
                    assert(separator_at(rest, k - 1));
                }
            }
        }
    }
}

/// While whitespace is being skipped, what comes out next is no whitespace.
proof fn lemma_skipping_starts_solid(s: Seq<char>, i: int)
    requires
        0 <= i,
    ensures
        unescaped_from(s, i, true).len() > 0 ==> !is_space(unescaped_from(s, i, true)[0]),
    decreases s.len() - i,
{
    if i >= s.len() {
    } else if escape_at(s, i) {
        lemma_skipping_starts_solid(s, i + 2);
    } else if is_space(s[i]) {
        lemma_skipping_starts_solid(s, i + 1);
    } else {
    }
}

/// A part of a text without the separator holds no separator.
proof fn lemma_part_keeps_free(s: Seq<char>, from: int, to: int)
    requires
        0 <= from <= to <= s.len(),
        forall|k: int| !separator_at(s, k),
    ensures
        forall|k: int| !separator_at(s.subrange(from, to), k),
{
    assert forall|k: int| !separator_at(s.subrange(from, to), k) by {
        if separator_at(s.subrange(from, to), k) {
            assert(separator_at(s, from + k));
        }
    }
}

/// Unquoting gives a part of the text.
proof fn lemma_unquoted_is_part(s: Seq<char>)
    ensures
        exists|from: int, to: int|
            0 <= from <= to <= s.len() && unquoted(s) == #[trigger] s.subrange(from, to),
        unquoted(s).len() <= s.len(),
{
    let from: int = if s.len() > 0 && is_quote(s[0]) {
        1
    } else {
        0
    };
    let to: int = if s.len() > from && is_quote(s[s.len() - 1]) {
        s.len() - 1
    } else {
        s.len() as int
    };
    assert(unquoted(s) == s.subrange(from, to));
}

/// Trimming gives a part of the text.
proof fn lemma_trimmed_is_part(s: Seq<char>)
    ensures
        exists|from: int, to: int|
            0 <= from <= to <= s.len() && trimmed(s) == #[trigger] s.subrange(from, to),
{
    let a = skip_spaces(s, 0);
    lemma_skip_spaces_bounds(s, 0);
    let b = drop_spaces_before(s, a, s.len() as int);
    lemma_drop_spaces_bounds(s, a, s.len() as int);
    assert(trimmed(s) == s.subrange(a, b));
}

/// `find` gives no separator exactly when there is none at any index.
proof fn lemma_free_means_not_found(s: Seq<char>)
    ensures
        (forall|k: int| !separator_at(s, k)) <==> find(s, separator()) is None,
{
    lemma_find_from(s, separator(), 0);
    if find(s, separator()) is None {
        assert forall|k: int| !separator_at(s, k) by {
            lemma_separator_at(s, k);
        }
    } else {
        lemma_separator_at(s, find(s, separator())->0);
    }
    if forall|k: int| !separator_at(s, k) {
        if find(s, separator()) is Some {
            lemma_separator_at(s, find(s, separator())->0);
        }
    }
}

/// A header in which no semicolon is followed by a space has an empty
/// primary value and no options.
pub proof fn law_header_without_separator(header: Seq<char>)
    requires
        find(header, separator()) is None,
    ensures
        parsed_header(header) == (Seq::<char>::empty(), Map::<Seq<char>, Seq<char>>::empty()),
{
    lemma_free_means_not_found(header);
    lemma_unescaped_keeps_free(header, 0, false);
    let plain = unescaped(header);
    lemma_unquoted_is_part(plain);
    let (from, to) = choose|from: int, to: int|
        0 <= from <= to <= plain.len() && unquoted(plain) == #[trigger] plain.subrange(from, to);
    lemma_part_keeps_free(plain, from, to);
    lemma_free_means_not_found(unquoted(plain));
}

/// Parsing the primary value of a header again gives an empty primary value:
/// a primary value holds no separator. So it comes back unchanged exactly
/// when it is empty.
pub proof fn law_reparsed_primary_value(header: Seq<char>)
    ensures
        find(parsed_header(header).0, separator()) is None,
        parsed_header(parsed_header(header).0).0 == Seq::<char>::empty(),
        parsed_header(parsed_header(header).0).0 == parsed_header(header).0 <==> parsed_header(
            header,
        ).0.len() == 0,
{
    let text = unquoted(unescaped(header));
    let primary = parsed_header(header).0;
    match split_once(text, separator()) {
        Some((value, rest)) => {
            lemma_find_from(text, separator(), 0);
            let i = find(text, separator())->0;
            assert(value == text.subrange(0, i));
            assert forall|k: int| !separator_at(value, k) by {
                if separator_at(value, k) {
                    assert(separator_at(text, k));
                    lemma_separator_at(text, k);
                }
            }
            lemma_trimmed_is_part(value);
            let (a, b) = choose|a: int, b: int|
                0 <= a <= b <= value.len() && trimmed(value) == #[trigger] value.subrange(a, b);
            lemma_part_keeps_free(value, a, b);
            let inner = trimmed(value);
            lemma_unquoted_is_part(inner);
            let (c, d) = choose|c: int, d: int|
                0 <= c <= d <= inner.len() && unquoted(inner) == #[trigger] inner.subrange(c, d);
            lemma_part_keeps_free(inner, c, d);
            lemma_free_means_not_found(primary);
        },
        None => {
            assert(primary.len() == 0);
            lemma_find_from(primary, separator(), 0);
            assert(find(primary, separator()) is None);
        },
    }
    law_header_without_separator(primary);
    assert(primary.len() == 0 ==> primary =~= Seq::<char>::empty());
}

/// Of the options of one key the last wins: where segment `i` holds an
/// option and no later segment holds one of the same key, the options hold
/// the value of segment `i` under that key.
pub proof fn law_later_option_wins(segments: Seq<Seq<char>>, i: int)
    requires
        0 <= i < segments.len(),
        option_key(segments[i]) is Some,
        forall|j: int|
            i < j < segments.len() ==> option_key(#[trigger] segments[j]) != option_key(
                segments[i],
            ),
    ensures
        options_of(segments).contains_key(option_key(segments[i])->0),
        Some(options_of(segments)[option_key(segments[i])->0]) == option_value(segments[i]),
    decreases segments.len(),
{
    let last = segments.len() - 1;
    if i < last {
        let earlier = segments.drop_last();
        assert(earlier[i] == segments[i]);
        assert forall|j: int| i < j < earlier.len() implies option_key(#[trigger] earlier[j])
            != option_key(earlier[i]) by {
            assert(earlier[j] == segments[j]);
        }
        law_later_option_wins(earlier, i);
        assert(option_key(segments[last]) != option_key(segments[i]));
    }
}

/// A segment without `=` holds no option: the options are those of the
/// other segments.
pub proof fn law_segment_without_assignment(options: Map<Seq<char>, Seq<char>>, segment: Seq<char>)
    requires
        find(segment, assignment()) is None,
    ensures
        with_option(options, segment) == options,
{
}

/// Where nothing is escaped, unescaping changes nothing.
proof fn lemma_unescaped_plain(s: Seq<char>, i: int)
    requires
        0 <= i <= s.len(),
        forall|k: int| !escape_at(s, k),
    ensures
        unescaped_from(s, i, false) == s.subrange(i, s.len() as int),
    decreases s.len() - i,
{
    if i < s.len() {
        lemma_unescaped_plain(s, i + 1);
        assert(seq![s[i]] + s.subrange(i + 1, s.len() as int) =~= s.subrange(i, s.len() as int));
    } else {
        assert(s.subrange(i, s.len() as int) =~= Seq::<char>::empty());
    }
}

/// A value in which nothing is left to unescape, unquote or trim comes out
/// of each step of the tokenizer's normalization as it went in.
pub proof fn law_clean_value_is_kept(value: Seq<char>)
    requires
        forall|k: int| !escape_at(value, k),
        value.len() > 0 ==> !is_quote(value.first()) && !is_quote(value.last()),
        value.len() > 0 ==> !is_space(value.first()) && !is_space(value.last()),
    ensures
        unescaped(value) == value,
        unquoted(value) == value,
        trimmed(value) == value,
        normalized(unquoted(unescaped(value))) == value,
{
    lemma_unescaped_plain(value, 0);
    assert(value.subrange(0, value.len() as int) =~= value);
    assert(unquoted(value) =~= value);
    lemma_trimmed(value);
}

/// The characters of [`separator`].
fn separator_chars() -> (sep: Vec<char>)
    ensures
        sep@ == separator(),
{
    let mut sep: Vec<char> = Vec::new();
    sep.push(';');
    sep.push(' ');
    assert(sep@ =~= separator());
    sep
}

/// The characters of [`assignment`].
fn assignment_chars() -> (sign: Vec<char>)
    ensures
        sign@ == assignment(),
{
    let mut sign: Vec<char> = Vec::new();
    sign.push('=');
    assert(sign@ =~= assignment());
    sign
}

/// [`unescaped`], on characters.
pub fn unescape_chars(s: &[char]) -> (out: Vec<char>)
    ensures
        out@ == unescaped(s@),
        out@.len() <= s@.len(),
{
    let mut out: Vec<char> = Vec::new();
    let mut i: usize = 0;
    let mut skipping = false;
    while i < s.len()
        invariant
            i <= s.len(),
            out@.len() <= i,
            out@ + unescaped_from(s@, i as int, skipping) =~= unescaped(s@),
        decreases s.len() - i,
    {
        if s[i] == '\\' && i + 1 < s.len() && s[i + 1] == '"' {
            i += 2;
            skipping = true;
        } else if skipping && is_space_char(s[i]) {
            i += 1;
        } else {
            out.push(s[i]);
            i += 1;
            skipping = false;
        }
    }
    out
}

/// [`unquoted`], on characters.
pub fn unquote_chars(s: &[char]) -> (out: Vec<char>)
    ensures
        out@ == unquoted(s@),
        out@.len() <= s@.len(),
{
    let n = s.len();
    let from: usize = if n > 0 && (s[0] == '"' || s[0] == '\'') {
        1
    } else {
        0
    };
    let to: usize = if n > from && (s[n - 1] == '"' || s[n - 1] == '\'') {
        n - 1
    } else {
        n
    };
    copy_range(s, from, to)
}

/// [`normalized`], on characters.
pub fn normalize_chars(s: &[char]) -> (out: Vec<char>)
    ensures
        out@ == normalized(s@),
        out@.len() <= s@.len(),
{
    let inner = trim_chars(s);
    unquote_chars(inner.as_slice())
}

/// Takes every escaped quote out of `value`, together with the whitespace
/// that directly follows it.
pub fn unescape(value: &str) -> (out: String)
    ensures
        out@ == unescaped(value@),
{
    let chars = chars_of(value);
    let plain = unescape_chars(chars.as_slice());
    string_of(plain.as_slice())
}

/// Strips one quote character from each end of `value` that has one.
pub fn unquote(value: &str) -> (out: String)
    ensures
        out@ == unquoted(value@),
{
    let chars = chars_of(value);
    let bare = unquote_chars(chars.as_slice());
    string_of(bare.as_slice())
}

/// Trims `value`, then strips one quote character from each end that has
/// one.
pub fn normalize_value(value: &str) -> (out: String)
    ensures
        out@ == normalized(value@),
{
    let chars = chars_of(value);
    let token = normalize_chars(chars.as_slice());
    string_of(token.as_slice())
}

/// The options that the segments hold.
fn collect_options(segments: &Vec<Vec<char>>, Ghost(bound): Ghost<nat>) -> (options: StrMap<String>)
    requires
        forall|k: int| 0 <= k < segments@.len() ==> (#[trigger] segments@[k])@.len() <= bound,
    ensures
        options@ == options_of(segments@.map_values(|segment: Vec<char>| segment@)),
        forall|key: Seq<char>| options@.contains_key(key) ==> (#[trigger] options@[key]).len() <= bound,
{
    let ghost texts = segments@.map_values(|segment: Vec<char>| segment@);
    let sign = assignment_chars();
    let mut options: StrMap<String> = StrMap::new();
    let mut k: usize = 0;
    assert(texts.take(0) =~= Seq::<Seq<char>>::empty());
    while k < segments.len()
        invariant
            k <= segments.len(),
            sign@ == assignment(),
            texts == segments@.map_values(|segment: Vec<char>| segment@),
            options@ == options_of(texts.take(k as int)),
            forall|j: int| 0 <= j < segments@.len() ==> (#[trigger] segments@[j])@.len() <= bound,
            forall|key: Seq<char>|
                options@.contains_key(key) ==> (#[trigger] options@[key]).len() <= bound,
        decreases segments.len() - k,
    {
        proof {
            assert(texts.take(k + 1).drop_last() =~= texts.take(k as int));
            assert(texts.take(k + 1).last() == segments@[k as int]@);
        }
        match split_once_chars(segments[k].as_slice(), sign.as_slice()) {
            Some((key, value)) => {
                let key = normalize_chars(key.as_slice());
                let value = normalize_chars(value.as_slice());
                options.insert(string_of(key.as_slice()), string_of(value.as_slice()));
            },
            None => {},
        }
        k += 1;
    }
    assert(texts.take(k as int) =~= texts);
    options
}

/// [`parsed_header`], on characters.
pub fn parse_header_chars(header: &[char]) -> (parsed: (Vec<char>, StrMap<String>))
    ensures
        parsed.0@ == parsed_header(header@).0,
        parsed.1@ == parsed_header(header@).1,
        parsed.0@.len() <= header@.len(),
        forall|key: Seq<char>|
            parsed.1@.contains_key(key) ==> (#[trigger] parsed.1@[key]).len() <= header@.len(),
{
    let plain = unescape_chars(header);
    let text = unquote_chars(plain.as_slice());
    let sep = separator_chars();
    match split_once_chars(text.as_slice(), sep.as_slice()) {
        Some((value, rest)) => {
            let segments = split_chars(rest.as_slice(), sep.as_slice());
            proof {
                assert(segments@.map_values(|segment: Vec<char>| segment@) =~= split_all(
                    rest@,
                    separator(),
                ));
            }
            let options = collect_options(&segments, Ghost(header@.len()));
            let primary = normalize_chars(value.as_slice());
            (primary, options)
        },
        None => (Vec::new(), StrMap::new()),
    }
}

/// Parses a header value into its primary value and its options.
///
/// Escaped quotes are taken out first, then one quote character at each end
/// of the whole value. What stands before the first separator is the primary
/// value; what stands after it is cut at every separator into segments, each
/// of them an option `key=value`. The primary value, the keys and the values
/// are trimmed and unquoted. A header without the separator has an empty
/// primary value and no options.
pub fn parse_content_header(header: &str) -> (parsed: (String, StrMap<String>))
    ensures
        parsed.0@ == parsed_header(header@).0,
        parsed.1@ == parsed_header(header@).1,
        find(header@, separator()) is None ==> parsed.0@ == Seq::<char>::empty() && parsed.1@
            == Map::<Seq<char>, Seq<char>>::empty(),
{
    proof {
        if find(header@, separator()) is None {
            law_header_without_separator(header@);
        }
    }
    let chars = chars_of(header);
    let (primary, options) = parse_header_chars(chars.as_slice());
    (string_of(primary.as_slice()), options)
}

} // verus!

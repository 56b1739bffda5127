//! Character-level building blocks shared by the header tokenizer and the
//! multipart decoder: whitespace, trimming, searching and splitting.
//!
//! Text is modelled as `Seq<char>`; the executable functions work on slices
//! of `char` and return freshly built vectors.

use vstd::prelude::*;
use vstd::utf8::{encode_utf8, encode_utf8_decode_utf8};

verus! {

/// The characters of a string slice, in order.
pub fn chars_of(s: &str) -> (out: Vec<char>)
    ensures
        out@ == s@,
{
    let mut out: Vec<char> = Vec::new();
    for c in it: s.chars()
        invariant
            out@ == it.seq().take(it.index() as int),
    {
        out.push(c);
    }
    out
}

/// The string made of the given characters, in order.
pub fn string_of(chars: &[char]) -> (out: String)
    ensures
        out@ == chars@,
{
    let mut out = String::new();
    let mut i: usize = 0;
    while i < chars.len()
        invariant
            i <= chars.len(),
            out@ == chars@.take(i as int),
        decreases chars.len() - i,
    {
        out.push(chars[i]);
        i += 1;
    }
    out
}

/// A copy of the characters of `s` from index `from` up to, not including,
/// index `to`.
pub fn copy_range(s: &[char], from: usize, to: usize) -> (out: Vec<char>)
    requires
        from <= to <= s.len(),
    ensures
        out@ == s@.subrange(from as int, to as int),
{
    let mut out: Vec<char> = Vec::new();
    let mut i: usize = from;
    while i < to
        invariant
            from <= i <= to <= s.len(),
            out@ == s@.subrange(from as int, i as int),
        decreases to - i,
    {
        out.push(s[i]);
        i += 1;
    }
    out
}

/// Whether `c` has the Unicode property `White_Space`.
pub open spec fn is_space(c: char) -> bool {
    let u = c as u32;
    ||| 0x09 <= u <= 0x0D
    ||| u == 0x20
    ||| u == 0x85
    ||| u == 0xA0
    ||| u == 0x1680
    ||| 0x2000 <= u <= 0x200A
    ||| u == 0x2028
    ||| u == 0x2029
    ||| u == 0x202F
    ||| u == 0x205F
    ||| u == 0x3000
}

/// Decides [`is_space`].
pub fn is_space_char(c: char) -> (b: bool)
    ensures
        b == is_space(c),
{
    let u: u32 = c as u32;
    (0x09 <= u && u <= 0x0D) || u == 0x20 || u == 0x85 || u == 0xA0 || u == 0x1680 || (0x2000 <= u
        && u <= 0x200A) || u == 0x2028 || u == 0x2029 || u == 0x202F || u == 0x205F || u == 0x3000
}

/// The first index at or after `i` that holds no whitespace, or the length
/// of `s` when only whitespace follows.
pub open spec fn skip_spaces(s: Seq<char>, i: int) -> int
    decreases s.len() - i,
{
    if 0 <= i < s.len() && is_space(s[i]) {
        skip_spaces(s, i + 1)
    } else {
        i
    }
}

/// The end of `s` once the whitespace before index `j` is dropped, never
/// going below `lo`.
pub open spec fn drop_spaces_before(s: Seq<char>, lo: int, j: int) -> int
    decreases j,
{
    if lo < j <= s.len() && 0 < j && is_space(s[j - 1]) {
        drop_spaces_before(s, lo, j - 1)
    } else {
        j
    }
}

/// `s` without its leading and trailing whitespace.
pub open spec fn trimmed(s: Seq<char>) -> Seq<char> {
    let a = skip_spaces(s, 0);
    let b = drop_spaces_before(s, a, s.len() as int);
    s.subrange(a, b)
}

/// Where [`skip_spaces`] stops: on the first character at or after `i` that
/// is no whitespace.
pub proof fn lemma_skip_spaces_bounds(s: Seq<char>, i: int)
    requires
        0 <= i <= s.len(),
    ensures
        i <= skip_spaces(s, i) <= s.len(),
        skip_spaces(s, i) < s.len() ==> !is_space(s[skip_spaces(s, i)]),
        forall|k: int| i <= k < skip_spaces(s, i) ==> is_space(#[trigger] s[k]),
    decreases s.len() - i,
{
    if i < s.len() && is_space(s[i]) {
        lemma_skip_spaces_bounds(s, i + 1);
    }
}

/// Where [`drop_spaces_before`] stops: behind the last character before `j`
/// that is no whitespace.
pub proof fn lemma_drop_spaces_bounds(s: Seq<char>, lo: int, j: int)
    requires
        0 <= lo <= j <= s.len(),
    ensures
        lo <= drop_spaces_before(s, lo, j) <= j,
        lo < drop_spaces_before(s, lo, j) ==> !is_space(s[drop_spaces_before(s, lo, j) - 1]),
        forall|k: int| drop_spaces_before(s, lo, j) <= k < j ==> is_space(#[trigger] s[k]),
    decreases j,
{
    if lo < j && is_space(s[j - 1]) {
        lemma_drop_spaces_bounds(s, lo, j - 1);
    }
}

/// Trimming gives a part of the text that neither begins nor ends with
/// whitespace, and everything cut away is whitespace.
pub proof fn lemma_trimmed(s: Seq<char>)
    ensures
        trimmed(s).len() <= s.len(),
        trimmed(s).len() > 0 ==> !is_space(trimmed(s).first()) && !is_space(trimmed(s).last()),
        (s.len() > 0 && !is_space(s.first()) && !is_space(s.last())) ==> trimmed(s) == s,
        s.len() == 0 ==> trimmed(s) == s,
{
    let a = skip_spaces(s, 0);
    lemma_skip_spaces_bounds(s, 0);
    lemma_drop_spaces_bounds(s, a, s.len() as int);
    if s.len() > 0 && !is_space(s.first()) && !is_space(s.last()) {
        assert(trimmed(s) =~= s);
    }
    if s.len() == 0 {
        assert(trimmed(s) =~= s);
    }
}

/// The index that [`skip_spaces`] names.
pub fn skip_spaces_from(s: &[char], i: usize) -> (j: usize)
    requires
        i <= s.len(),
    ensures
        j == skip_spaces(s@, i as int),
        i <= j <= s.len(),
{
    let mut j: usize = i;
    while j < s.len() && is_space_char(s[j])
        invariant
            i <= j <= s.len(),
            skip_spaces(s@, j as int) == skip_spaces(s@, i as int),
        decreases s.len() - j,
    {
        j += 1;
    }
    j
}

/// `s` without its leading and trailing whitespace.
pub fn trim_chars(s: &[char]) -> (out: Vec<char>)
    ensures
        out@ == trimmed(s@),
        out@.len() <= s@.len(),
{
    let a = skip_spaces_from(s, 0);
    let mut b: usize = s.len();
    while a < b && is_space_char(s[b - 1])
        invariant
            a <= b <= s.len(),
            drop_spaces_before(s@, a as int, b as int) == drop_spaces_before(
                s@,
                a as int,
                s@.len() as int,
            ),
        decreases b,
    {
        b -= 1;
    }
    copy_range(s, a, b)
}

/// Whether `pat` stands in `s` at index `i`.
pub open spec fn occurs_at<T>(s: Seq<T>, pat: Seq<T>, i: int) -> bool {
    0 <= i && i + pat.len() <= s.len() && s.subrange(i, i + pat.len()) =~= pat
}

/// The index of the first occurrence of `pat` in `s` that starts at or
/// after `from`.
pub open spec fn find_from<T>(s: Seq<T>, pat: Seq<T>, from: int) -> Option<int>
    decreases s.len() - from,
{
    if from < 0 || from + pat.len() > s.len() {
        None
    } else if occurs_at(s, pat, from) {
        Some(from)
    } else {
        find_from(s, pat, from + 1)
    }
}

/// The index of the first occurrence of `pat` in `s`.
pub open spec fn find<T>(s: Seq<T>, pat: Seq<T>) -> Option<int> {
    find_from(s, pat, 0)
}

/// What `find_from` returns is the first occurrence at or after `from`, and
/// it returns `None` exactly when there is none.
pub proof fn lemma_find_from<T>(s: Seq<T>, pat: Seq<T>, from: int)
    requires
        0 <= from,
    ensures
        match find_from(s, pat, from) {
            Some(i) => from <= i && occurs_at(s, pat, i) && forall|k: int|
                from <= k < i ==> !occurs_at(s, pat, k),
            None => forall|k: int| from <= k ==> !occurs_at(s, pat, k),
        },
    decreases s.len() - from,
{
    if from + pat.len() > s.len() {
    } else if occurs_at(s, pat, from) {
    } else {
        lemma_find_from(s, pat, from + 1);
    }
}

/// An occurrence with none before it is the one that `find` gives.
pub proof fn lemma_first_occurrence<T>(s: Seq<T>, pat: Seq<T>, at: int)
    requires
        occurs_at(s, pat, at),
        forall|k: int| 0 <= k < at ==> !occurs_at(s, pat, k),
    ensures
        find(s, pat) == Some(at),
{
    lemma_find_from(s, pat, 0);
    match find_from(s, pat, 0) {
        Some(i) => {
            if i < at {
                assert(!occurs_at(s, pat, i));
            } else if i > at {
                assert(!occurs_at(s, pat, at));
            }
        },
        None => {
            assert(!occurs_at(s, pat, at));
        },
    }
}

/// `s` cut at the first occurrence of `pat`: what stands before it and what
/// stands after it.
pub open spec fn split_once<T>(s: Seq<T>, pat: Seq<T>) -> Option<(Seq<T>, Seq<T>)> {
    match find(s, pat) {
        Some(i) => Some((s.take(i), s.skip(i + pat.len()))),
        None => None,
    }
}

/// The pieces of `s`, from index `from` on, that lie between the
/// occurrences of `pat`, taken from left to right without overlap.
pub open spec fn split_from<T>(s: Seq<T>, pat: Seq<T>, from: int) -> Seq<Seq<T>>
    decreases s.len() - from,
{
    match find_from(s, pat, from) {
        Some(i) if from <= i && 0 < pat.len() && i + pat.len() <= s.len() => seq![
            s.subrange(from, i),
        ] + split_from(s, pat, i + pat.len()),
        _ => seq![s.subrange(from, s.len() as int)],
    }
}

/// The pieces of `s` that lie between the occurrences of `pat`.
pub open spec fn split_all<T>(s: Seq<T>, pat: Seq<T>) -> Seq<Seq<T>> {
    split_from(s, pat, 0)
}

/// Every piece of a split is a part of the text that was split.
pub proof fn lemma_split_pieces<T>(s: Seq<T>, pat: Seq<T>, from: int, k: int)
    requires
        0 <= from <= s.len(),
        0 <= k < split_from(s, pat, from).len(),
    ensures
        exists|a: int, b: int|
            from <= a <= b <= s.len() && split_from(s, pat, from)[k] == #[trigger] s.subrange(a, b),
    decreases s.len() - from,
{
    lemma_find_from(s, pat, from);
    match find_from(s, pat, from) {
        Some(i) if from <= i && 0 < pat.len() && i + pat.len() <= s.len() => {
            if k == 0 {
                assert(split_from(s, pat, from)[0] == s.subrange(from, i));
            } else {
                let rest = split_from(s, pat, i + pat.len());
                assert(split_from(s, pat, from)[k] == rest[k - 1]);
                lemma_split_pieces(s, pat, i + pat.len(), k - 1);
                let (a, b) = choose|a: int, b: int|
                    i + pat.len() <= a <= b <= s.len() && rest[k - 1] == #[trigger] s.subrange(a, b);
                assert(from <= a <= b <= s.len() && split_from(s, pat, from)[k] == s.subrange(a, b));
            }
        },
        _ => {
            assert(split_from(s, pat, from)[k] == s.subrange(from, s.len() as int));
        },
    }
}

/// Whether `pat` stands in `s` at index `i`.
pub fn matches_at(s: &[char], pat: &[char], i: usize) -> (b: bool)
    requires
        i <= s.len(),
    ensures
        b == occurs_at(s@, pat@, i as int),
{
    if pat.len() > s.len() - i {
        return false;
    }
    let mut k: usize = 0;
    while k < pat.len()
        invariant
            k <= pat.len(),
            i + pat.len() <= s.len(),
            s@.subrange(i as int, i + k) =~= pat@.take(k as int),
        decreases pat.len() - k,
    {
        if s[i + k] != pat[k] {
            assert(s@.subrange(i as int, i + pat.len())[k as int] != pat@[k as int]);
            return false;
        }
        k += 1;
    }
    true
}

/// The first occurrence of `pat` in `s` at or after `from`.
pub fn find_chars(s: &[char], pat: &[char], from: usize) -> (found: Option<usize>)
    requires
        from <= s.len(),
    ensures
        match found {
            Some(i) => find_from(s@, pat@, from as int) == Some(i as int) && from <= i && i
                + pat.len() <= s.len(),
            None => find_from(s@, pat@, from as int) is None,
        },
{
    let mut i: usize = from;
    while i <= s.len()
        invariant
            from <= i <= s.len() + 1,
            i == s.len() + 1 ==> find_from(s@, pat@, from as int) is None,
            i <= s.len() ==> find_from(s@, pat@, i as int) == find_from(s@, pat@, from as int),
        decreases s.len() + 1 - i,
    {
        if pat.len() > s.len() - i {
            return None;
        }
        if matches_at(s, pat, i) {
            return Some(i);
        }
        if i == s.len() {
            return None;
        }
        i += 1;
    }
    None
}

/// The two sides of the first occurrence of `pat` in `s`.
pub fn split_once_chars(s: &[char], pat: &[char]) -> (parts: Option<(Vec<char>, Vec<char>)>)
    ensures
        match parts {
            Some((before, after)) => split_once(s@, pat@) == Some((before@, after@))
                && before@.len() <= s@.len() && after@.len() <= s@.len(),
            None => split_once(s@, pat@) is None,
        },
{
    match find_chars(s, pat, 0) {
        Some(i) => {
            let before = copy_range(s, 0, i);
            let after = copy_range(s, i + pat.len(), s.len());
            Some((before, after))
        },
        None => None,
    }
}

/// The pieces that [`split_all`] names.
pub fn split_chars(s: &[char], pat: &[char]) -> (pieces: Vec<Vec<char>>)
    requires
        pat.len() > 0,
    ensures
        pieces@.len() == split_all(s@, pat@).len(),
        forall|k: int| 0 <= k < pieces@.len() ==> #[trigger] pieces@[k]@ == split_all(s@, pat@)[k],
        forall|k: int| 0 <= k < pieces@.len() ==> (#[trigger] pieces@[k])@.len() <= s@.len(),
{
    let mut pieces: Vec<Vec<char>> = Vec::new();
    let mut from: usize = 0;
    let ghost mut done: Seq<Seq<char>> = Seq::empty();
    loop
        invariant_except_break
            done + split_from(s@, pat@, from as int) =~= split_all(s@, pat@),
        invariant
            pat.len() > 0,
            from <= s.len(),
            pieces@.len() == done.len(),
            forall|k: int| 0 <= k < pieces@.len() ==> #[trigger] pieces@[k]@ == done[k],
            forall|k: int| 0 <= k < pieces@.len() ==> (#[trigger] pieces@[k])@.len() <= s@.len(),
        ensures
            pieces@.len() == split_all(s@, pat@).len(),
            forall|k: int|
                0 <= k < pieces@.len() ==> #[trigger] pieces@[k]@ == split_all(s@, pat@)[k],
            forall|k: int| 0 <= k < pieces@.len() ==> (#[trigger] pieces@[k])@.len() <= s@.len(),
        decreases s.len() - from,
    {
        match find_chars(s, pat, from) {
            Some(i) => {
                let piece = copy_range(s, from, i);
                proof {
                    done = done.push(piece@);
                }
                pieces.push(piece);
                from = i + pat.len();
            },
            None => {
                let piece = copy_range(s, from, s.len());
                proof {
                    done = done.push(piece@);
                    assert(done =~= split_all(s@, pat@));
                }
                pieces.push(piece);
                break;
            },
        }
    }
    pieces
}

/// Whether two string slices hold the same text.
pub fn same_text(a: &str, b: &str) -> (same: bool)
    ensures
        same == (a@ == b@),
{
    let x = a.as_bytes();
    let y = b.as_bytes();
    proof {
        encode_utf8_decode_utf8(a@);
        encode_utf8_decode_utf8(b@);
    }
    if x.len() != y.len() {
        return false;
    }
    let mut i: usize = 0;
    while i < x.len()
        invariant
            i <= x.len(),
            x.len() == y.len(),
            x@ == encode_utf8(a@),
            y@ == encode_utf8(b@),
            x@.take(i as int) =~= y@.take(i as int),
        decreases x.len() - i,
    {
        if x[i] != y[i] {
            return false;
        }
        assert(x@.take(i + 1) =~= x@.take(i as int).push(x@[i as int]));
        assert(y@.take(i + 1) =~= y@.take(i as int).push(y@[i as int]));
        i += 1;
    }
    assert(x@ =~= x@.take(x@.len() as int));
    assert(y@ =~= y@.take(y@.len() as int));
    true
}

} // verus!

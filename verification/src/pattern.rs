//! The regular expressions that are applied to code.

use vstd::prelude::*;
use vstd::utf8::*;

verus! {

/// The head of the function that a UMD bundle wraps its code in.
pub const RE_UMD: &'static str =
    r#"\}\)\((?:this,\s*)?function\([^()]*\)\s*\{(?:\s*"use strict";)?"#;

/// The head of the function that an IIFE bundle wraps its code in.
pub const RE_IIFE: &'static str =
    r#"(?:(?:const|var)\s+\S+\s*=\s*|^|\n)\(?function\([^()]*\)\s*\{(?:\s*"use strict";)?"#;

pub const AT_IMPORT_RE: &'static str =
    r#"@import(?:\s*(?:url\([^)]*\)|"(?:[^"\\]|\\.)*"|'(?:[^'\\]|\\.)*')[^;]*|[^;]*);"#;

pub const AT_CHARSET_RE: &'static str =
    r#"@charset(?:\s*(?:"(?:[^"\\]|\\.)*"|'(?:[^'\\]|\\.)*').*?|[^;]*);"#;

pub const MULTI_LINE_COMMENTS_RE: &'static str = r"\/\*[^*]*\*+(?:[^/*][^*]*\*+)*\/";

/// The patterns above. Each is well-formed and far below the size limit of the regex engine.
pub open spec fn is_known_pattern(pattern: Seq<char>) -> bool {
    ||| pattern == RE_UMD@
    ||| pattern == RE_IIFE@
    ||| pattern == AT_IMPORT_RE@
    ||| pattern == AT_CHARSET_RE@
    ||| pattern == MULTI_LINE_COMMENTS_RE@
}

/// The byte ranges of the successive matches that `Regex::find_iter` yields.
pub uninterp spec fn pattern_matches(pattern: Seq<char>, haystack: Seq<char>) -> Seq<(nat, nat)>;

pub open spec fn ranges_model(ranges: Seq<(usize, usize)>) -> Seq<(nat, nat)> {
    ranges.map_values(|range: (usize, usize)| (range.0 as nat, range.1 as nat))
}

/// Whether ranges lie within `len` bytes, in order and side by side.
pub open spec fn ranges_in_order(ranges: Seq<(usize, usize)>, len: nat) -> bool {
    &&& forall|i: int| 0 <= i < ranges.len() ==> (#[trigger] ranges[i]).0 <= ranges[i].1 <= len
    &&& forall|i: int, j: int|
        0 <= i < j < ranges.len() ==> (#[trigger] ranges[i]).1 <= (#[trigger] ranges[j]).0
}

/// Whether ranges start and end between characters.
pub open spec fn ranges_between_chars(ranges: Seq<(usize, usize)>, bytes: Seq<u8>) -> bool {
    forall|i: int|
        0 <= i < ranges.len() ==> is_char_boundary(bytes, (#[trigger] ranges[i]).0 as int)
            && is_char_boundary(bytes, ranges[i].1 as int)
}

/// The ASCII characters that every match of a pattern for CSS starts and ends with.
pub open spec fn match_edges(pattern: Seq<char>) -> Option<(u8, u8)> {
    if pattern == AT_IMPORT_RE@ || pattern == AT_CHARSET_RE@ {
        Some((0x40, 0x3b))
    } else if pattern == MULTI_LINE_COMMENTS_RE@ {
        Some((0x2f, 0x2f))
    } else {
        None
    }
}

/// Whether every range starts with the first of two bytes and ends with the second.
pub open spec fn ranges_have_edges(
    ranges: Seq<(usize, usize)>,
    bytes: Seq<u8>,
    edges: Option<(u8, u8)>,
) -> bool {
    edges matches Some((first, last)) ==> forall|i: int|
        0 <= i < ranges.len() ==> (#[trigger] ranges[i]).0 < ranges[i].1 && bytes[ranges[i].0 as int]
            == first && bytes[ranges[i].1 - 1] == last
}

/// `regex::Regex::find_iter` for one of the patterns above: the matches depend on the pattern and
/// the text alone, they follow each other without overlap, and they start and end between
/// characters. A match of an at-rule starts with `@` and ends with `;`, and one of a comment starts
/// and ends with `/`, because the patterns do.
#[verifier::external_body]
pub(crate) fn find_ranges(pattern: &str, haystack: &str) -> (ranges: Vec<(usize, usize)>)
    requires
        is_known_pattern(pattern@),
    ensures
        ranges_model(ranges@) == pattern_matches(pattern@, haystack@),
        ranges_in_order(ranges@, encode_utf8(haystack@).len()),
        ranges_between_chars(ranges@, encode_utf8(haystack@)),
        ranges_have_edges(ranges@, encode_utf8(haystack@), match_edges(pattern@)),
{
    let regex = regex::Regex::new(pattern).expect("the pattern is well-formed");
    regex.find_iter(haystack).map(|found| (found.start(), found.end())).collect()
}

/// A match with the ranges of its first two groups, where they took part.
#[derive(Debug, Clone, Copy, PartialEq, Eq)]
pub struct CapturedRange {
    pub start: usize,
    pub end: usize,
    pub first: Option<(usize, usize)>,
    pub second: Option<(usize, usize)>,
}

/// The successive matches that `Regex::captures_iter` yields: start, end and the first two groups.
pub uninterp spec fn pattern_captures(
    pattern: Seq<char>,
    haystack: Seq<char>,
) -> Seq<(usize, usize, Option<(usize, usize)>, Option<(usize, usize)>)>;

pub open spec fn captures_model(captures: Seq<CapturedRange>) -> Seq<
    (usize, usize, Option<(usize, usize)>, Option<(usize, usize)>),
> {
    captures.map_values(
        |found: CapturedRange| (found.start, found.end, found.first, found.second),
    )
}

pub open spec fn range_lies_within(range: Option<(usize, usize)>, len: nat) -> bool {
    range matches Some((start, end)) ==> start <= end <= len
}

/// Whether matches lie within `len` bytes, in order and side by side, and their groups too.
pub open spec fn captures_in_order(captures: Seq<CapturedRange>, len: nat) -> bool {
    &&& forall|i: int|
        0 <= i < captures.len() ==> (#[trigger] captures[i]).start <= captures[i].end <= len
            && range_lies_within(captures[i].first, len) && range_lies_within(
            captures[i].second,
            len,
        )
    &&& forall|i: int, j: int|
        0 <= i < j < captures.len() ==> (#[trigger] captures[i]).end <= (
        #[trigger] captures[j]).start
}

pub open spec fn range_between_chars(range: Option<(usize, usize)>, bytes: Seq<u8>) -> bool {
    range matches Some((start, end)) ==> is_char_boundary(bytes, start as int) && is_char_boundary(
        bytes,
        end as int,
    )
}

/// Whether matches and their groups start and end between characters.
pub open spec fn captures_between_chars(captures: Seq<CapturedRange>, bytes: Seq<u8>) -> bool {
    forall|i: int|
        0 <= i < captures.len() ==> is_char_boundary(bytes, (#[trigger] captures[i]).start as int)
            && is_char_boundary(bytes, captures[i].end as int) && range_between_chars(
            captures[i].first,
            bytes,
        ) && range_between_chars(captures[i].second, bytes)
}

/// `regex::Regex::captures_iter` for a pattern that the engine accepts: the matches and the ranges
/// of their groups depend on the pattern and the text alone, the matches follow each other without
/// overlap, and they and their groups start and end between characters. Nothing is said of which
/// patterns are accepted: that depends on how much memory the compiled pattern takes on the machine
/// at hand.
#[verifier::external_body]
pub(crate) fn find_captures(pattern: &str, haystack: &str) -> (captures: Option<
    Vec<CapturedRange>,
>)
    ensures
        captures matches Some(found) ==> captures_model(found@) == pattern_captures(pattern@, haystack@),
        captures matches Some(found) ==> captures_in_order(found@, encode_utf8(haystack@).len()),
        captures matches Some(found) ==> captures_between_chars(found@, encode_utf8(haystack@)),
{
    let regex = regex::Regex::new(pattern).ok()?;
    let range = |found: regex::Match<'_>| (found.start(), found.end());
    let found = regex.captures_iter(haystack).map(|groups| CapturedRange {
        start: groups.get_match().start(),
        end: groups.get_match().end(),
        first: groups.get(1).map(range),
        second: groups.get(2).map(range),
    });
    Some(found.collect())
}

/// The characters that mean something in a pattern.
pub open spec fn is_meta_character(c: char) -> bool {
    seq![
        '\\', '.', '+', '*', '?', '(', ')', '|', '[', ']', '{', '}', '^', '$', '#', '&', '-', '~',
    ].contains(c)
}

/// The pattern that stands for the text itself: each such character behind a backslash.
pub open spec fn escaped_pattern(text: Seq<char>) -> Seq<char>
    decreases text.len(),
{
    if text.len() == 0 {
        Seq::empty()
    } else if is_meta_character(text.last()) {
        escaped_pattern(text.drop_last()).push('\\').push(text.last())
    } else {
        escaped_pattern(text.drop_last()).push(text.last())
    }
}

/// `regex::escape`: a backslash before each character that means something in a pattern.
#[verifier::external_body]
pub(crate) fn escape_pattern(text: &str) -> (pattern: String)
    ensures
        pattern@ == escaped_pattern(text@),
{
    regex::escape(text)
}

} // verus!

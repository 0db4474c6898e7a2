//! What is done to the text of CSS, and to the code around it.

use vstd::prelude::*;
use vstd::utf8::*;
use crate::pattern;
use crate::pattern::{find_ranges, AT_CHARSET_RE, AT_IMPORT_RE, MULTI_LINE_COMMENTS_RE};
use crate::text;
use crate::text::{utf8_str, utf8_text};
use crate::text_edit;
use crate::text_edit::{contains_bytes, find_from};

verus! {

pub const VITE_HASH_UPDATE_MARKER: &'static str = "/*$vite$:1*/";

// ---------------------------------------------------------------------------------------------
// The index of an inline module

/// How many ASCII digits the bytes start with.
pub open spec fn leading_digits(bytes: Seq<u8>) -> nat
    decreases bytes.len(),
{
    if bytes.len() > 0 && 0x30 <= bytes[0] <= 0x39 {
        1 + leading_digits(bytes.skip(1))
    } else {
        0
    }
}

/// The digits behind the first `&index=`.
pub open spec fn index_digits(id: Seq<char>) -> Option<Seq<u8>> {
    let bytes = encode_utf8(id);
    match text_edit::first_from(bytes, encode_utf8("&index="@), 0) {
        None => None,
        Some(at) => {
            let rest = bytes.skip((at + encode_utf8("&index="@).len()) as int);
            if leading_digits(rest) > 0 {
                Some(rest.take(leading_digits(rest) as int))
            } else {
                None
            }
        },
    }
}

/// ASCII bytes are text.
proof fn lemma_ascii_is_text(bytes: Seq<u8>)
    requires
        forall|i: int| 0 <= i < bytes.len() ==> #[trigger] bytes[i] < 0x80,
    ensures
        valid_utf8(bytes),
{
    let chars = bytes.map_values(|byte: u8| byte as char);
    assert forall|i: int| 0 <= i < chars.len() implies '\0' <= #[trigger] chars[i] <= '\u{7f}' by {
        assert(bytes[i] < 0x80);
    }
    assert(is_ascii_chars(chars));
    is_ascii_chars_encode_utf8(chars);
    assert forall|i: int| 0 <= i < bytes.len() implies #[trigger] encode_utf8(chars)[i]
        == bytes[i] by {
        assert(bytes[i] < 0x80);
        assert(chars[i] as u8 == encode_utf8(chars)[i]);
    }
    assert(encode_utf8(chars) =~= bytes);
    encode_utf8_valid_utf8(chars);
}

pub fn extract_index<'a>(id: &'a str) -> (r: Option<&'a str>)
    ensures
        r is Some == (index_digits(id@) is Some),
        r matches Some(digits) ==> index_digits(id@) == Some(encode_utf8(digits@)),
        r matches Some(digits) ==> is_index_of(encode_utf8(id@), encode_utf8(digits@)),
{
    proof {
        lemma_index_digits(id@);
    }
    let bytes: &'a [u8] = id.as_bytes();
    let total: usize = bytes.len();
    let marker: &[u8] = "&index=".as_bytes();
    let at: usize = find_from(bytes, marker, 0)?;
    proof {
        text_edit::lemma_first_from(bytes@, marker@, 0);
        assert(text_edit::occurs_at(bytes@, marker@, at as int));
    }
    let start: usize = at + marker.len();
    let ghost rest = bytes@.skip(start as int);
    let mut end: usize = start;
    assert(rest.skip(0) =~= rest);
    while end < total && 0x30 <= bytes[end] && bytes[end] <= 0x39
        invariant
            start <= end <= total == bytes@.len(),
            rest == bytes@.skip(start as int),
            leading_digits(rest) == end - start + leading_digits(rest.skip(end - start)),
            forall|i: int| start <= i < end ==> 0x30 <= #[trigger] bytes@[i] <= 0x39,
        decreases total - end,
    {
        assert(rest.skip(end - start)[0] == bytes@[end as int]);
        assert(rest.skip(end - start).skip(1) =~= rest.skip(end + 1 - start));
        end = end + 1;
    }
    proof {
        if end < total {
            assert(rest.skip(end - start)[0] == bytes@[end as int]);
        }
    }
    if end == start {
        return None;
    }
    let digits: &'a [u8] = &bytes[start..end];
    proof {
        assert(digits@ =~= rest.take(end - start));
        assert forall|i: int| 0 <= i < digits@.len() implies #[trigger] digits@[i] < 0x80 by {
            assert(0x30 <= bytes@[start + i] <= 0x39);
        }
        lemma_ascii_is_text(digits@);
        decode_utf8_encode_utf8(digits@);
    }
    utf8_str(digits)
}

// ---------------------------------------------------------------------------------------------
// At-rules

pub open spec fn covers(ranges: Seq<(nat, nat)>, at: int) -> bool {
    exists|k: int| 0 <= k < ranges.len() && (#[trigger] ranges[k]).0 <= at < ranges[k].1
}

/// The bytes with a space in every place that a range covers.
pub open spec fn blanked(bytes: Seq<u8>, ranges: Seq<(nat, nat)>) -> Seq<u8> {
    Seq::new(
        bytes.len(),
        |i: int|
            if covers(ranges, i) {
                0x20u8
            } else {
                bytes[i]
            },
    )
}

/// The bytes that no range covers.
pub open spec fn uncovered(
    bytes: Seq<u8>,
    first: Seq<(nat, nat)>,
    second: Seq<(nat, nat)>,
) -> Seq<u8>
    decreases bytes.len(),
{
    if bytes.len() == 0 {
        Seq::empty()
    } else {
        let before = uncovered(bytes.drop_last(), first, second);
        let at = bytes.len() - 1;
        if covers(first, at) || covers(second, at) {
            before
        } else {
            before.push(bytes.last())
        }
    }
}

/// The covered bytes, range by range.
pub open spec fn ranges_joined(bytes: Seq<u8>, ranges: Seq<(nat, nat)>) -> Seq<u8>
    decreases ranges.len(),
{
    if ranges.len() == 0 {
        Seq::empty()
    } else {
        ranges_joined(bytes, ranges.drop_last()) + bytes.subrange(
            ranges.last().0 as int,
            ranges.last().1 as int,
        )
    }
}

/// The first charset rule, every import rule, and what is left without any such rule. The rules
/// are as they stand in `plain`, the text without comments.
pub open spec fn rules_first(
    css: Seq<u8>,
    plain: Seq<u8>,
    imports: Seq<(nat, nat)>,
    charsets: Seq<(nat, nat)>,
) -> Seq<u8> {
    let charset = if charsets.len() > 0 {
        ranges_joined(plain, charsets.take(1))
    } else {
        Seq::empty()
    };
    charset + ranges_joined(plain, imports) + uncovered(css, imports, charsets)
}

/// The text without comments: spaces stand in their place.
pub open spec fn without_css_comments(css: Seq<char>) -> Seq<u8> {
    blanked(encode_utf8(css), pattern::pattern_matches(MULTI_LINE_COMMENTS_RE@, css))
}

/// The CSS with its charset and import rules moved to the front.
pub open spec fn hoisted(css: Seq<char>) -> Seq<char> {
    let plain = without_css_comments(css);
    decode_utf8(
        rules_first(
            encode_utf8(css),
            plain,
            pattern::pattern_matches(AT_IMPORT_RE@, decode_utf8(plain)),
            pattern::pattern_matches(AT_CHARSET_RE@, decode_utf8(plain)),
        ),
    )
}

/// Whether every range starts and ends with an ASCII character.
spec fn edges_are_ascii(ranges: Seq<(nat, nat)>, bytes: Seq<u8>) -> bool {
    forall|k: int|
        0 <= k < ranges.len() ==> (#[trigger] ranges[k]).0 < ranges[k].1 <= bytes.len()
            && bytes[ranges[k].0 as int] < 0x80 && bytes[ranges[k].1 - 1] < 0x80
}

/// The encoding of a character is one ASCII byte, or no byte of it is ASCII.
proof fn lemma_encoded_char(c: char)
    ensures
        encode_utf8(seq![c]).len() > 0,
        valid_utf8(encode_utf8(seq![c])),
        encode_utf8(seq![c]).len() > 1 ==> forall|i: int|
            0 <= i < encode_utf8(seq![c]).len() ==> #[trigger] encode_utf8(seq![c])[i] >= 0x80,
{
    let bytes = encode_utf8(seq![c]);
    encode_utf8_first_scalar(seq![c]);
    encode_utf8_valid_utf8(seq![c]);
    let rest = seq![c].drop_first();
    assert(rest.len() == 0 && encode_utf8(rest).len() == 0);
    assert(bytes == encode_scalar(seq![c][0] as u32) + encode_utf8(rest));
    assert(bytes =~= encode_scalar(c as u32));
}

/// Ranges with ASCII edges cover a character whole or not at all.
proof fn lemma_covers_whole_chars(
    bytes: Seq<u8>,
    ranges: Seq<(nat, nat)>,
    start: int,
    end: int,
    left: int,
    right: int,
)
    requires
        edges_are_ascii(ranges, bytes),
        0 <= start <= left < end <= bytes.len(),
        start <= right < end,
        start + 1 < end ==> forall|i: int| start <= i < end ==> #[trigger] bytes[i] >= 0x80,
    ensures
        covers(ranges, left) == covers(ranges, right),
{
    if start + 1 < end {
        if covers(ranges, left) {
            let k = choose|k: int|
                0 <= k < ranges.len() && (#[trigger] ranges[k]).0 <= left < ranges[k].1;
            assert(bytes[ranges[k].0 as int] < 0x80 && bytes[ranges[k].1 - 1] < 0x80);
            assert(ranges[k].0 <= right < ranges[k].1);
        }
        if covers(ranges, right) {
            let k = choose|k: int|
                0 <= k < ranges.len() && (#[trigger] ranges[k]).0 <= right < ranges[k].1;
            assert(bytes[ranges[k].0 as int] < 0x80 && bytes[ranges[k].1 - 1] < 0x80);
            assert(ranges[k].0 <= left < ranges[k].1);
        }
    }
}

/// A text of which ranges with ASCII edges are blanked is still a text.
proof fn lemma_blanked_is_text(css: Seq<char>, ranges: Seq<(nat, nat)>, count: int)
    requires
        edges_are_ascii(ranges, encode_utf8(css)),
        0 <= count <= css.len(),
    ensures
        encode_utf8(css.take(count)).len() <= encode_utf8(css).len(),
        valid_utf8(
            blanked(encode_utf8(css), ranges).take(encode_utf8(css.take(count)).len() as int),
        ),
    decreases count,
{
    let bytes = encode_utf8(css);
    let output = blanked(bytes, ranges);
    text::lemma_encode_concat(css.take(count), css.skip(count));
    assert(css.take(count) + css.skip(count) =~= css);
    if count == 0 {
        assert(output.take(0) =~= Seq::<u8>::empty());
    } else {
        let c = css[count - 1];
        let unit = encode_utf8(seq![c]);
        let start = encode_utf8(css.take(count - 1)).len() as int;
        let end = encode_utf8(css.take(count)).len() as int;
        lemma_blanked_is_text(css, ranges, count - 1);
        lemma_encoded_char(c);
        text::lemma_encode_concat(css.take(count - 1), seq![c]);
        assert(css.take(count - 1) + seq![c] =~= css.take(count));
        assert forall|i: int| start <= i < end implies #[trigger] bytes[i] == unit[i - start] by {
            assert(bytes[i] == encode_utf8(css.take(count))[i]);
        }
        let piece = output.subrange(start, end);
        if covers(ranges, start) {
            assert forall|i: int| 0 <= i < piece.len() implies #[trigger] piece[i] < 0x80 by {
                lemma_covers_whole_chars(bytes, ranges, start, end, start, start + i);
            }
            lemma_ascii_is_text(piece);
        } else {
            assert forall|i: int| 0 <= i < piece.len() implies #[trigger] piece[i] == unit[i] by {
                lemma_covers_whole_chars(bytes, ranges, start, end, start, start + i);
                assert(bytes[start + i] == unit[i]);
            }
            assert(piece =~= unit);
        }
        valid_utf8_concat(output.take(start), piece);
        assert(output.take(end) =~= output.take(start) + piece);
    }
}

/// Bytes behind others are left, or go, together.
proof fn lemma_uncovered_tail(
    bytes: Seq<u8>,
    first: Seq<(nat, nat)>,
    second: Seq<(nat, nat)>,
    start: int,
    end: int,
)
    requires
        0 <= start <= end <= bytes.len(),
        forall|i: int|
            start <= i < end ==> #[trigger] covers(first, i) == covers(first, start),
        forall|i: int|
            start <= i < end ==> #[trigger] covers(second, i) == covers(second, start),
    ensures
        uncovered(bytes.take(end), first, second) == uncovered(bytes.take(start), first, second) + (
        if covers(first, start) || covers(second, start) {
            Seq::empty()
        } else {
            bytes.subrange(start, end)
        }),
    decreases end - start,
{
    if start == end {
        assert(bytes.subrange(start, end) =~= Seq::<u8>::empty());
    } else {
        lemma_uncovered_tail(bytes, first, second, start, end - 1);
        assert(bytes.take(end).drop_last() =~= bytes.take(end - 1));
        assert(covers(first, end - 1) == covers(first, start));
        assert(covers(second, end - 1) == covers(second, start));
        assert(bytes.subrange(start, end) =~= bytes.subrange(start, end - 1).push(bytes[end - 1]));
    }
}

/// What is left of a text without ranges that have ASCII edges is a text.
proof fn lemma_uncovered_is_text(
    css: Seq<char>,
    first: Seq<(nat, nat)>,
    second: Seq<(nat, nat)>,
    count: int,
)
    requires
        edges_are_ascii(first, encode_utf8(css)),
        edges_are_ascii(second, encode_utf8(css)),
        0 <= count <= css.len(),
    ensures
        encode_utf8(css.take(count)).len() <= encode_utf8(css).len(),
        valid_utf8(
            uncovered(
                encode_utf8(css).take(encode_utf8(css.take(count)).len() as int),
                first,
                second,
            ),
        ),
    decreases count,
{
    let bytes = encode_utf8(css);
    text::lemma_encode_concat(css.take(count), css.skip(count));
    assert(css.take(count) + css.skip(count) =~= css);
    if count > 0 {
        let c = css[count - 1];
        let unit = encode_utf8(seq![c]);
        let start = encode_utf8(css.take(count - 1)).len() as int;
        let end = encode_utf8(css.take(count)).len() as int;
        lemma_uncovered_is_text(css, first, second, count - 1);
        lemma_encoded_char(c);
        text::lemma_encode_concat(css.take(count - 1), seq![c]);
        assert(css.take(count - 1) + seq![c] =~= css.take(count));
        assert forall|i: int| start <= i < end implies #[trigger] bytes[i] == unit[i - start] by {
            assert(bytes[i] == encode_utf8(css.take(count))[i]);
        }
        assert forall|i: int| start <= i < end implies #[trigger] covers(first, i) == covers(
            first,
            start,
        ) by {
            lemma_covers_whole_chars(bytes, first, start, end, i, start);
        }
        assert forall|i: int| start <= i < end implies #[trigger] covers(second, i) == covers(
            second,
            start,
        ) by {
            lemma_covers_whole_chars(bytes, second, start, end, i, start);
        }
        lemma_uncovered_tail(bytes, first, second, start, end);
        let before = uncovered(bytes.take(start), first, second);
        assert(bytes.subrange(start, end) =~= unit);
        assert(before + Seq::<u8>::empty() =~= before);
        valid_utf8_concat(before, unit);
    } else {
        assert(bytes.take(0) =~= Seq::<u8>::empty());
    }
}

/// Ranges between characters, put together, are a text.
proof fn lemma_joined_is_text(bytes: Seq<u8>, ranges: Seq<(nat, nat)>)
    requires
        valid_utf8(bytes),
        forall|k: int|
            0 <= k < ranges.len() ==> (#[trigger] ranges[k]).0 <= ranges[k].1 <= bytes.len()
                && is_char_boundary(bytes, ranges[k].0 as int) && is_char_boundary(
                bytes,
                ranges[k].1 as int,
            ),
    ensures
        valid_utf8(ranges_joined(bytes, ranges)),
    decreases ranges.len(),
{
    if ranges.len() > 0 {
        let start = ranges.last().0 as int;
        let end = ranges.last().1 as int;
        assert(ranges.last() == ranges[ranges.len() - 1]);
        assert forall|k: int| 0 <= k < ranges.drop_last().len() implies (
        #[trigger] ranges.drop_last()[k]).0 <= ranges.drop_last()[k].1 <= bytes.len()
            && is_char_boundary(bytes, ranges.drop_last()[k].0 as int) && is_char_boundary(
            bytes,
            ranges.drop_last()[k].1 as int,
        ) by {
            assert(ranges.drop_last()[k] == ranges[k]);
        }
        lemma_joined_is_text(bytes, ranges.drop_last());
        text_edit::lemma_middle_is_text(bytes, start, end);
        valid_utf8_concat(
            ranges_joined(bytes, ranges.drop_last()),
            bytes.subrange(start, end),
        );
    }
}

/// Rules that were found in the text without comments have their edges in the text itself.
proof fn lemma_rule_edges(
    css: Seq<u8>,
    plain: Seq<u8>,
    comments: Seq<(nat, nat)>,
    ranges: Seq<(usize, usize)>,
)
    requires
        plain == blanked(css, comments),
        pattern::ranges_in_order(ranges, plain.len()),
        pattern::ranges_have_edges(ranges, plain, Some((0x40u8, 0x3bu8))),
    ensures
        edges_are_ascii(pattern::ranges_model(ranges), css),
{
    let model = pattern::ranges_model(ranges);
    assert forall|k: int| 0 <= k < model.len() implies (#[trigger] model[k]).0 < model[k].1
        <= css.len() && css[model[k].0 as int] < 0x80 && css[model[k].1 - 1] < 0x80 by {
        assert(model[k] == (ranges[k].0 as nat, ranges[k].1 as nat));
        assert(plain[ranges[k].0 as int] == 0x40);
        assert(plain[ranges[k].1 - 1] == 0x3b);
    }
}

/// Marks every place that a range covers.
fn mark_ranges(marks: &mut Vec<bool>, ranges: &Vec<(usize, usize)>)
    requires
        pattern::ranges_in_order(ranges@, old(marks)@.len()),
    ensures
        final(marks)@.len() == old(marks)@.len(),
        forall|i: int|
            0 <= i < old(marks)@.len() ==> #[trigger] final(marks)@[i] == (old(marks)@[i] || covers(
                pattern::ranges_model(ranges@),
                i,
            )),
{
    let ghost model = pattern::ranges_model(ranges@);
    let total: usize = marks.len();
    let mut k: usize = 0;
    while k < ranges.len()
        invariant
            k <= ranges.len(),
            model == pattern::ranges_model(ranges@),
            total == marks@.len() == old(marks)@.len(),
            pattern::ranges_in_order(ranges@, total as nat),
            forall|i: int|
                0 <= i < total ==> #[trigger] marks@[i] == (old(marks)@[i] || covers(
                    model.take(k as int),
                    i,
                )),
        decreases ranges.len() - k,
    {
        let start: usize = ranges[k].0;
        let end: usize = ranges[k].1;
        let ghost before = marks@;
        let mut at: usize = start;
        while at < end
            invariant
                start <= at <= end <= total == marks@.len() == before.len(),
                forall|i: int|
                    0 <= i < total ==> #[trigger] marks@[i] == (before[i] || start <= i < at),
            decreases end - at,
        {
            marks.set(at, true);
            at = at + 1;
        }
        proof {
            let now = model.take(k + 1);
            let then = model.take(k as int);
            assert(now[k as int] == (start as nat, end as nat));
            assert forall|i: int| 0 <= i < total implies #[trigger] marks@[i] == (old(marks)@[i]
                || covers(now, i)) by {
                if covers(then, i) {
                    let w = choose|w: int|
                        0 <= w < then.len() && (#[trigger] then[w]).0 <= i < then[w].1;
                    assert(now[w] == then[w]);
                }
                if covers(now, i) {
                    let w = choose|w: int|
                        0 <= w < now.len() && (#[trigger] now[w]).0 <= i < now[w].1;
                    if w < k {
                        assert(then[w] == now[w]);
                    }
                }
            }
        }
        k = k + 1;
    }
    assert(model.take(k as int) =~= model);
}

fn unmarked(len: usize) -> (marks: Vec<bool>)
    ensures
        marks@.len() == len,
        forall|i: int| 0 <= i < len ==> !#[trigger] marks@[i],
{
    let mut marks: Vec<bool> = Vec::new();
    while marks.len() < len
        invariant
            marks@.len() <= len,
            forall|i: int| 0 <= i < marks@.len() ==> !#[trigger] marks@[i],
        decreases len - marks@.len(),
    {
        marks.push(false);
    }
    marks
}

/// Puts spaces in the place of the ranges.
pub fn blank_ranges(bytes: &[u8], ranges: &Vec<(usize, usize)>) -> (output: Vec<u8>)
    requires
        pattern::ranges_in_order(ranges@, bytes@.len()),
    ensures
        output@ == blanked(bytes@, pattern::ranges_model(ranges@)),
        is_blanked(bytes@, pattern::ranges_model(ranges@), output@),
{
    let mut marks: Vec<bool> = unmarked(bytes.len());
    mark_ranges(&mut marks, ranges);
    let ghost model = pattern::ranges_model(ranges@);
    let mut output: Vec<u8> = Vec::with_capacity(bytes.len());
    let mut i: usize = 0;
    while i < bytes.len()
        invariant
            i <= bytes@.len() == marks@.len(),
            output@.len() == i,
            forall|j: int| 0 <= j < marks@.len() ==> #[trigger] marks@[j] == covers(model, j),
            forall|j: int| 0 <= j < i ==> #[trigger] output@[j] == blanked(bytes@, model)[j],
        decreases bytes@.len() - i,
    {
        if marks[i] {
            output.push(0x20);
        } else {
            output.push(bytes[i]);
        }
        i = i + 1;
    }
    assert(output@ =~= blanked(bytes@, model));
    output
}

fn push_ranges(output: &mut Vec<u8>, bytes: &[u8], ranges: &Vec<(usize, usize)>, count: usize)
    requires
        pattern::ranges_in_order(ranges@, bytes@.len()),
        count <= ranges@.len(),
    ensures
        final(output)@ == old(output)@ + ranges_joined(
            bytes@,
            pattern::ranges_model(ranges@).take(count as int),
        ),
{
    let ghost model = pattern::ranges_model(ranges@);
    let mut k: usize = 0;
    assert(model.take(0) =~= Seq::empty());
    assert(output@ =~= output@ + Seq::<u8>::empty());
    while k < count
        invariant
            k <= count <= ranges@.len(),
            model == pattern::ranges_model(ranges@),
            pattern::ranges_in_order(ranges@, bytes@.len()),
            output@ == old(output)@ + ranges_joined(bytes@, model.take(k as int)),
        decreases count - k,
    {
        let start: usize = ranges[k].0;
        let end: usize = ranges[k].1;
        let ghost before = output@;
        let piece: &[u8] = &bytes[start..end];
        crate::codec::write_bytes(output, piece);
        proof {
            assert(piece@ =~= bytes@.subrange(start as int, end as int));
            assert(model.take(k + 1).drop_last() =~= model.take(k as int));
            assert(model.take(k + 1).last() == (start as nat, end as nat));
            assert(output@ =~= old(output)@ + ranges_joined(bytes@, model.take(k + 1)));
        }
        k = k + 1;
    }
}

/// Puts the rules that were found first.
pub fn move_rules_first(
    css: &[u8],
    plain: &[u8],
    imports: &Vec<(usize, usize)>,
    charsets: &Vec<(usize, usize)>,
) -> (output: Vec<u8>)
    requires
        css@.len() == plain@.len(),
        pattern::ranges_in_order(imports@, css@.len()),
        pattern::ranges_in_order(charsets@, css@.len()),
    ensures
        output@ == rules_first(
            css@,
            plain@,
            pattern::ranges_model(imports@),
            pattern::ranges_model(charsets@),
        ),
        has_rules_first(
            css@,
            plain@,
            pattern::ranges_model(imports@),
            pattern::ranges_model(charsets@),
            output@,
        ),
{
    proof {
        lemma_rules_first(
            css@,
            plain@,
            pattern::ranges_model(imports@),
            pattern::ranges_model(charsets@),
        );
    }
    let ghost first = pattern::ranges_model(imports@);
    let ghost second = pattern::ranges_model(charsets@);
    let mut marks: Vec<bool> = unmarked(css.len());
    mark_ranges(&mut marks, imports);
    mark_ranges(&mut marks, charsets);
    let mut output: Vec<u8> = Vec::with_capacity(css.len());
    if charsets.len() > 0 {
        push_ranges(&mut output, plain, charsets, 1);
    }
    push_ranges(&mut output, plain, imports, imports.len());
    let ghost front = output@;
    let mut i: usize = 0;
    proof {
        assert(first.take(imports@.len() as int) =~= first);
        assert(css@.take(0) =~= Seq::empty());
    }
    while i < css.len()
        invariant
            i <= css@.len() == marks@.len(),
            forall|j: int|
                0 <= j < marks@.len() ==> #[trigger] marks@[j] == (covers(first, j) || covers(
                    second,
                    j,
                )),
            output@ == front + uncovered(css@.take(i as int), first, second),
        decreases css@.len() - i,
    {
        proof {
            assert(css@.take(i + 1).drop_last() =~= css@.take(i as int));
        }
        if !marks[i] {
            output.push(css[i]);
        }
        proof {
            assert(output@ =~= front + uncovered(css@.take(i + 1), first, second));
        }
        i = i + 1;
    }
    proof {
        assert(css@.take(i as int) =~= css@);
        assert(output@ =~= rules_first(css@, plain@, first, second));
    }
    output
}

/// Moves charset and import rules to the front.
pub fn hoist_at_rules(css: &str) -> (r: String)
    ensures
        r@ == hoisted(css@),
        is_hoisted(css@, r@),
{
    let bytes: &[u8] = css.as_bytes();
    let comments: Vec<(usize, usize)> = find_ranges(MULTI_LINE_COMMENTS_RE, css);
    let plain_bytes: Vec<u8> = blank_ranges(bytes, &comments);
    let ghost model = pattern::ranges_model(comments@);
    proof {
        lemma_patterns_differ();
        assert forall|k: int| 0 <= k < model.len() implies (#[trigger] model[k]).0 < model[k].1
            <= bytes@.len() && bytes@[model[k].0 as int] < 0x80 && bytes@[model[k].1 - 1] < 0x80 by {
            assert(model[k] == (comments@[k].0 as nat, comments@[k].1 as nat));
            assert(bytes@[comments@[k].0 as int] == 0x2f);
            assert(bytes@[comments@[k].1 - 1] == 0x2f);
        }
        lemma_blanked_is_text(css@, model, css@.len() as int);
        assert(css@.take(css@.len() as int) =~= css@);
        assert(plain_bytes@.take(bytes@.len() as int) =~= plain_bytes@);
        decode_utf8_encode_utf8(plain_bytes@);
    }
    let plain: &str = match utf8_str(plain_bytes.as_slice()) {
        Some(plain) => plain,
        None => {
            assert(false);
            css
        },
    };
    let imports: Vec<(usize, usize)> = find_ranges(AT_IMPORT_RE, plain);
    let charsets: Vec<(usize, usize)> = find_ranges(AT_CHARSET_RE, plain);
    let output: Vec<u8> = move_rules_first(bytes, plain_bytes.as_slice(), &imports, &charsets);
    proof {
        lemma_rule_edges(bytes@, plain_bytes@, model, imports@);
        lemma_rule_edges(bytes@, plain_bytes@, model, charsets@);
        lemma_rules_first_is_text(css@, plain_bytes@, imports@, charsets@);
        assert(is_blanked(bytes@, model, plain_bytes@));
        decode_utf8_encode_utf8(output@);
    }
    match utf8_text(output.as_slice()) {
        Some(hoisted) => hoisted,
        None => {
            assert(false);
            css.to_string()
        },
    }
}

/// The pattern for comments is none of those for at-rules.
proof fn lemma_patterns_differ()
    ensures
        MULTI_LINE_COMMENTS_RE@ != AT_IMPORT_RE@,
        MULTI_LINE_COMMENTS_RE@ != AT_CHARSET_RE@,
{
    reveal_strlit(r"\/\*[^*]*\*+(?:[^/*][^*]*\*+)*\/");
    reveal_strlit(
        r#"@import(?:\s*(?:url\([^)]*\)|"(?:[^"\\]|\\.)*"|'(?:[^'\\]|\\.)*')[^;]*|[^;]*);"#,
    );
    reveal_strlit(r#"@charset(?:\s*(?:"(?:[^"\\]|\\.)*"|'(?:[^'\\]|\\.)*').*?|[^;]*);"#);
    assert(MULTI_LINE_COMMENTS_RE@[0] == '\\');
    assert(AT_IMPORT_RE@[0] == '@');
    assert(AT_CHARSET_RE@[0] == '@');
}

proof fn lemma_rules_first_is_text(
    css: Seq<char>,
    plain: Seq<u8>,
    imports: Seq<(usize, usize)>,
    charsets: Seq<(usize, usize)>,
)
    requires
        valid_utf8(plain),
        plain.len() == encode_utf8(css).len(),
        pattern::ranges_in_order(imports, plain.len()),
        pattern::ranges_in_order(charsets, plain.len()),
        pattern::ranges_between_chars(imports, plain),
        pattern::ranges_between_chars(charsets, plain),
        edges_are_ascii(pattern::ranges_model(imports), encode_utf8(css)),
        edges_are_ascii(pattern::ranges_model(charsets), encode_utf8(css)),
    ensures
        valid_utf8(
            rules_first(
                encode_utf8(css),
                plain,
                pattern::ranges_model(imports),
                pattern::ranges_model(charsets),
            ),
        ),
{
    let first = pattern::ranges_model(imports);
    let second = pattern::ranges_model(charsets);
    let bytes = encode_utf8(css);
    assert forall|k: int| 0 <= k < first.len() implies (#[trigger] first[k]).0 <= first[k].1
        <= plain.len() && is_char_boundary(plain, first[k].0 as int) && is_char_boundary(
        plain,
        first[k].1 as int,
    ) by {
        assert(first[k] == (imports[k].0 as nat, imports[k].1 as nat));
    }
    lemma_joined_is_text(plain, first);
    let charset = if second.len() > 0 {
        ranges_joined(plain, second.take(1))
    } else {
        Seq::empty()
    };
    if second.len() > 0 {
        let one = second.take(1);
        assert forall|k: int| 0 <= k < one.len() implies (#[trigger] one[k]).0 <= one[k].1
            <= plain.len() && is_char_boundary(plain, one[k].0 as int) && is_char_boundary(
            plain,
            one[k].1 as int,
        ) by {
            assert(one[k] == (charsets[k].0 as nat, charsets[k].1 as nat));
        }
        lemma_joined_is_text(plain, one);
    }
    lemma_uncovered_is_text(css, first, second, css.len() as int);
    assert(css.take(css.len() as int) =~= css);
    assert(bytes.take(bytes.len() as int) =~= bytes);
    valid_utf8_concat(charset, ranges_joined(plain, first));
    valid_utf8_concat(charset + ranges_joined(plain, first), uncovered(bytes, first, second));
}

proof fn lemma_nothing_covered(bytes: Seq<u8>)
    ensures
        uncovered(bytes, Seq::empty(), Seq::empty()) == bytes,
    decreases bytes.len(),
{
    if bytes.len() > 0 {
        lemma_nothing_covered(bytes.drop_last());
        assert(uncovered(bytes, Seq::empty(), Seq::empty()) =~= bytes);
    }
}

/// CSS without charset and import rules stays as it is.
pub proof fn lemma_hoisting_without_rules(css: Seq<char>)
    requires
        ({
            let plain = decode_utf8(without_css_comments(css));
            &&& pattern::pattern_matches(AT_IMPORT_RE@, plain).len() == 0
            &&& pattern::pattern_matches(AT_CHARSET_RE@, plain).len() == 0
        }),
    ensures
        hoisted(css) == css,
{
    let plain = without_css_comments(css);
    let imports = pattern::pattern_matches(AT_IMPORT_RE@, decode_utf8(plain));
    let charsets = pattern::pattern_matches(AT_CHARSET_RE@, decode_utf8(plain));
    assert(imports =~= Seq::empty());
    assert(charsets =~= Seq::empty());
    lemma_nothing_covered(encode_utf8(css));
    assert(rules_first(encode_utf8(css), plain, imports, charsets) =~= encode_utf8(css));
    encode_utf8_decode_utf8(css);
    encode_utf8_valid_utf8(css);
}

pub open spec fn names_at_rule(css: Seq<char>) -> bool {
    text_edit::first_from(encode_utf8(css), encode_utf8("@import"@), 0) is Some
        || text_edit::first_from(encode_utf8(css), encode_utf8("@charset"@), 0) is Some
}

/// The CSS as it goes to the minifier, where there is one.
pub open spec fn prepared_css(css: Seq<char>) -> Seq<char> {
    if names_at_rule(css) {
        hoisted(css)
    } else {
        css
    }
}

pub fn prepare_css(content: String) -> (r: String)
    ensures
        r@ == prepared_css(content@),
        (forall|at: int|
            !(#[trigger] text_edit::occurs_at(
                encode_utf8(content@),
                encode_utf8("@import"@),
                at,
            ))) && (forall|at: int|
            !(#[trigger] text_edit::occurs_at(
                encode_utf8(content@),
                encode_utf8("@charset"@),
                at,
            ))) ==> r@ == content@,
        (exists|at: int| #[trigger]
            text_edit::occurs_at(encode_utf8(content@), encode_utf8("@import"@), at)) || (exists|
            at: int,
        | #[trigger]
            text_edit::occurs_at(encode_utf8(content@), encode_utf8("@charset"@), at))
            ==> is_hoisted(content@, r@),
{
    proof {
        text_edit::lemma_first_from(encode_utf8(content@), encode_utf8("@import"@), 0);
        text_edit::lemma_first_from(encode_utf8(content@), encode_utf8("@charset"@), 0);
    }
    let bytes: &[u8] = content.as_str().as_bytes();
    if contains_bytes(bytes, "@import".as_bytes()) || contains_bytes(bytes, "@charset".as_bytes()) {
        hoist_at_rules(content.as_str())
    } else {
        content
    }
}

/// The CSS that is emitted: the marker makes its hash differ from that of the bare content.
pub fn mark_css(content: String) -> (r: String)
    ensures
        r@ == content@ + VITE_HASH_UPDATE_MARKER@,
{
    let mut output: String = content;
    output.push_str(VITE_HASH_UPDATE_MARKER);
    output
}

/// The CSS that is emitted where no minifier is set.
pub fn finalize_css(content: String) -> (r: String)
    ensures
        r@ == prepared_css(content@) + VITE_HASH_UPDATE_MARKER@,
{
    mark_css(prepare_css(content))
}

// ---------------------------------------------------------------------------------------------
// What the at-rules come to

/// Whether these are the digits behind the first `&index=` of an identifier, all of them.
pub open spec fn is_index_of(id: Seq<u8>, digits: Seq<u8>) -> bool {
    exists|at: int|
        {
            let start = at + encode_utf8("&index="@).len();
            &&& #[trigger] text_edit::occurs_at(id, encode_utf8("&index="@), at)
            &&& forall|i: int|
                0 <= i < at ==> !(#[trigger] text_edit::occurs_at(id, encode_utf8("&index="@), i))
            &&& digits.len() > 0
            &&& text_edit::occurs_at(id, digits, start)
            &&& forall|i: int| 0 <= i < digits.len() ==> 0x30 <= #[trigger] digits[i] <= 0x39
            &&& start + digits.len() < id.len() ==> !(0x30 <= id[start + digits.len()] <= 0x39)
        }
}

proof fn lemma_leading_digits(bytes: Seq<u8>)
    ensures
        leading_digits(bytes) <= bytes.len(),
        forall|i: int| 0 <= i < leading_digits(bytes) ==> 0x30 <= #[trigger] bytes[i] <= 0x39,
        leading_digits(bytes) < bytes.len() ==> !(0x30 <= bytes[leading_digits(bytes) as int]
            <= 0x39),
    decreases bytes.len(),
{
    if bytes.len() > 0 && 0x30 <= bytes[0] <= 0x39 {
        lemma_leading_digits(bytes.skip(1));
        assert forall|i: int| 0 <= i < leading_digits(bytes) implies 0x30 <= #[trigger] bytes[i]
            <= 0x39 by {
            if i > 0 {
                assert(bytes.skip(1)[i - 1] == bytes[i]);
            }
        }
    }
}

/// The index of an identifier is the run of digits behind the first `&index=`.
pub proof fn lemma_index_digits(id: Seq<char>)
    ensures
        index_digits(id) matches Some(digits) ==> is_index_of(encode_utf8(id), digits),
{
    let bytes = encode_utf8(id);
    let marker = encode_utf8("&index="@);
    text_edit::lemma_first_from(bytes, marker, 0);
    if let Some(at) = text_edit::first_from(bytes, marker, 0) {
        let start = at + marker.len();
        let rest = bytes.skip(start as int);
        lemma_leading_digits(rest);
        if let Some(digits) = index_digits(id) {
            assert(bytes.subrange(start as int, (start + digits.len()) as int) =~= digits);
            assert(text_edit::occurs_at(bytes, marker, at as int));
        }
    }
}

/// Whether `blank` has a space in every place that a range covers, and in the others what `bytes` has.
pub open spec fn is_blanked(bytes: Seq<u8>, ranges: Seq<(nat, nat)>, blank: Seq<u8>) -> bool {
    &&& blank.len() == bytes.len()
    &&& forall|i: int|
        0 <= i < bytes.len() ==> #[trigger] blank[i] == if covers(ranges, i) {
            0x20
        } else {
            bytes[i]
        }
}

/// The places that no range of either list covers, in order.
pub open spec fn are_uncovered(
    len: nat,
    first: Seq<(nat, nat)>,
    second: Seq<(nat, nat)>,
    places: Seq<int>,
) -> bool {
    &&& forall|k: int|
        0 <= k < places.len() ==> 0 <= #[trigger] places[k] < len && !covers(first, places[k])
            && !covers(second, places[k])
    &&& forall|j: int, k: int|
        0 <= j < k < places.len() ==> #[trigger] places[j] < #[trigger] places[k]
    &&& forall|i: int|
        0 <= i < len && !covers(first, i) && !covers(second, i) ==> #[trigger] places.contains(i)
}

/// The first charset rule, then the import rules in their order, then what no rule covers, in its
/// order. Rules are taken from the code without comments, the rest from the code itself.
pub open spec fn has_rules_first(
    css: Seq<u8>,
    plain: Seq<u8>,
    imports: Seq<(nat, nat)>,
    charsets: Seq<(nat, nat)>,
    output: Seq<u8>,
) -> bool {
    exists|places: Seq<int>| #[trigger]
        are_uncovered(css.len(), imports, charsets, places) && output == (if charsets.len() > 0 {
            plain.subrange(charsets[0].0 as int, charsets[0].1 as int)
        } else {
            Seq::empty()
        }) + imports.map_values(
            |range: (nat, nat)| plain.subrange(range.0 as int, range.1 as int),
        ).flatten() + places.map_values(|i: int| css[i])
}

proof fn lemma_uncovered(css: Seq<u8>, first: Seq<(nat, nat)>, second: Seq<(nat, nat)>) -> (places: Seq<
    int,
>)
    ensures
        are_uncovered(css.len(), first, second, places),
        uncovered(css, first, second) == places.map_values(|i: int| css[i]),
    decreases css.len(),
{
    if css.len() == 0 {
        let places = Seq::<int>::empty();
        assert(places.map_values(|i: int| css[i]) =~= Seq::<u8>::empty());
        places
    } else {
        let front = css.drop_last();
        let before = lemma_uncovered(front, first, second);
        let at = css.len() - 1;
        assert(before.map_values(|i: int| front[i]) =~= before.map_values(|i: int| css[i]));
        if covers(first, at) || covers(second, at) {
            assert forall|i: int| 0 <= i < css.len() && !covers(first, i) && !covers(
                second,
                i,
            ) implies #[trigger] before.contains(i) by {}
            before
        } else {
            let places = before.push(at);
            assert forall|i: int| 0 <= i < css.len() && !covers(first, i) && !covers(
                second,
                i,
            ) implies #[trigger] places.contains(i) by {
                if i < at {
                    assert(before.contains(i));
                    let k = choose|k: int| 0 <= k < before.len() && before[k] == i;
                    assert(places[k] == i);
                } else {
                    assert(places[before.len() as int] == i);
                }
            }
            assert(places.map_values(|i: int| css[i]) =~= before.map_values(|i: int| css[i]).push(
                css.last(),
            ));
            places
        }
    }
}

proof fn lemma_ranges_joined(bytes: Seq<u8>, ranges: Seq<(nat, nat)>)
    ensures
        ranges_joined(bytes, ranges) == ranges.map_values(
            |range: (nat, nat)| bytes.subrange(range.0 as int, range.1 as int),
        ).flatten(),
    decreases ranges.len(),
{
    let take = |range: (nat, nat)| bytes.subrange(range.0 as int, range.1 as int);
    let parts = ranges.map_values(take);
    parts.lemma_flatten_and_flatten_alt_are_equivalent();
    if ranges.len() > 0 {
        lemma_ranges_joined(bytes, ranges.drop_last());
        let front = ranges.drop_last().map_values(take);
        front.lemma_flatten_and_flatten_alt_are_equivalent();
        assert(parts.drop_last() =~= front);
        assert(parts.last() == take(ranges.last()));
    }
}

/// Rules that were moved stand first, and nothing else is lost or moved.
pub proof fn lemma_rules_first(
    css: Seq<u8>,
    plain: Seq<u8>,
    imports: Seq<(nat, nat)>,
    charsets: Seq<(nat, nat)>,
)
    ensures
        has_rules_first(css, plain, imports, charsets, rules_first(css, plain, imports, charsets)),
{
    let places = lemma_uncovered(css, imports, charsets);
    lemma_ranges_joined(plain, imports);
    if charsets.len() > 0 {
        let one = charsets.take(1);
        assert(one.drop_last() =~= Seq::empty());
        assert(one.last() == charsets[0]);
        assert(ranges_joined(plain, one.drop_last()) =~= Seq::<u8>::empty());
        assert(ranges_joined(plain, one) =~= plain.subrange(
            charsets[0].0 as int,
            charsets[0].1 as int,
        ));
    }
}

/// Whether `result` is the CSS with its at-rules first, where rules are looked for outside comments.
pub open spec fn is_hoisted(css: Seq<char>, result: Seq<char>) -> bool {
    exists|plain: Seq<u8>| #[trigger]
        is_blanked(
            encode_utf8(css),
            pattern::pattern_matches(MULTI_LINE_COMMENTS_RE@, css),
            plain,
        ) && has_rules_first(
            encode_utf8(css),
            plain,
            pattern::pattern_matches(AT_IMPORT_RE@, decode_utf8(plain)),
            pattern::pattern_matches(AT_CHARSET_RE@, decode_utf8(plain)),
            encode_utf8(result),
        )
}

} // verus!

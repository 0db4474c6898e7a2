//! JSON string escapes as the cache metadata uses them.

use vstd::prelude::*;
use vstd::utf8::*;
use crate::digest;
use crate::digest::lower_hex_char;
use crate::text;
use crate::text::{byte_len, chars_of, text_with_room};

verus! {

/// The escape of one character: the five short escapes, `\u00XX` for the other controls.
pub open spec fn escaped_char(c: char) -> Seq<char> {
    if c == '"' {
        seq!['\\', '"']
    } else if c == '\\' {
        seq!['\\', '\\']
    } else if c == '\n' {
        seq!['\\', 'n']
    } else if c == '\r' {
        seq!['\\', 'r']
    } else if c == '\t' {
        seq!['\\', 't']
    } else if (c as u32) < 32 {
        seq![
            '\\',
            'u',
            '0',
            '0',
            digest::hex_digit(((c as u32) / 16) as nat),
            digest::hex_digit(((c as u32) % 16) as nat),
        ]
    } else {
        seq![c]
    }
}

pub open spec fn json_escaped(value: Seq<char>) -> Seq<char>
    decreases value.len(),
{
    if value.len() == 0 {
        Seq::empty()
    } else {
        escaped_char(value[0]) + json_escaped(value.drop_first())
    }
}

pub proof fn lemma_json_escaped_push(value: Seq<char>, c: char)
    ensures
        json_escaped(value.push(c)) == json_escaped(value) + escaped_char(c),
    decreases value.len(),
{
    if value.len() == 0 {
        assert(value.push(c).drop_first() =~= value);
        assert(value.push(c)[0] == c);
        assert(json_escaped(value) =~= Seq::empty());
        assert(json_escaped(value.push(c)) =~= escaped_char(c) + json_escaped(value));
        assert(escaped_char(c) + json_escaped(value) =~= escaped_char(c));
        assert(json_escaped(value) + escaped_char(c) =~= escaped_char(c));
    } else {
        lemma_json_escaped_push(value.drop_first(), c);
        assert(value.push(c).drop_first() =~= value.drop_first().push(c));
        assert(json_escaped(value.push(c)) =~= json_escaped(value) + escaped_char(c));
    }
}

/// The bytes that escaping `c` adds.
pub open spec fn escape_extra(c: char) -> nat {
    if c == '"' || c == '\\' || c == '\n' || c == '\r' || c == '\t' {
        1
    } else if (c as u32) < 32 {
        5
    } else {
        0
    }
}

pub open spec fn escape_extra_total(value: Seq<char>) -> nat
    decreases value.len(),
{
    if value.len() == 0 {
        0
    } else {
        escape_extra_total(value.drop_last()) + escape_extra(value.last())
    }
}

proof fn lemma_escaped_char_bytes(c: char)
    ensures
        encode_utf8(escaped_char(c)).len() == encode_utf8(seq![c]).len() + escape_extra(c),
{
    if escape_extra(c) > 0 {
        assert(is_ascii_chars(seq![c]));
        text::lemma_encode_ascii_len(seq![c]);
        assert(is_ascii_chars(escaped_char(c)));
        text::lemma_encode_ascii_len(escaped_char(c));
    }
}

/// Escaping adds exactly the extra bytes of each character.
pub proof fn lemma_escaped_bytes(value: Seq<char>)
    ensures
        encode_utf8(json_escaped(value)).len() == encode_utf8(value).len() + escape_extra_total(
            value,
        ),
    decreases value.len(),
{
    if value.len() > 0 {
        let before = value.drop_last();
        lemma_escaped_bytes(before);
        assert(value =~= before.push(value.last()));
        lemma_json_escaped_push(before, value.last());
        text::lemma_encode_concat(json_escaped(before), escaped_char(value.last()));
        assert(value =~= before + seq![value.last()]);
        text::lemma_encode_concat(before, seq![value.last()]);
        lemma_escaped_char_bytes(value.last());
    }
}

pub fn json_escape_extra_len_for_char(c: char) -> (len: usize)
    ensures
        len == escape_extra(c),
{
    if c == '"' || c == '\\' || c == '\n' || c == '\r' || c == '\t' {
        1
    } else if (c as u32) < 32 {
        5
    } else {
        0
    }
}

pub fn json_escape_extra_len(value: &str) -> (len: usize)
    ensures
        len == text::capped(escape_extra_total(value@)),
{
    let chars: Vec<char> = chars_of(value);
    let mut len: usize = 0;
    let mut i: usize = 0;
    while i < chars.len()
        invariant
            chars@ == value@,
            i <= chars.len(),
            len == text::capped(escape_extra_total(value@.take(i as int))),
        decreases chars.len() - i,
    {
        assert(value@.take(i + 1).drop_last() =~= value@.take(i as int));
        len = len.saturating_add(json_escape_extra_len_for_char(chars[i]));
        i = i + 1;
    }
    assert(value@.take(i as int) =~= value@);
    len
}

/// The number of bytes in the escaped form of `value`.
pub fn json_escaped_len(value: &str) -> (len: usize)
    ensures
        len == text::capped(encode_utf8(json_escaped(value@)).len()),
{
    proof {
        lemma_escaped_bytes(value@);
    }
    byte_len(value).saturating_add(json_escape_extra_len(value))
}

/// Appends `c`, escaped where JSON asks for it.
pub fn push_json_escaped_char(output: &mut String, c: char)
    ensures
        final(output)@ == old(output)@ + escaped_char(c),
{
    let ghost before = output@;
    if c == '"' {
        output.push('\\');
        output.push('"');
    } else if c == '\\' {
        output.push('\\');
        output.push('\\');
    } else if c == '\n' {
        output.push('\\');
        output.push('n');
    } else if c == '\r' {
        output.push('\\');
        output.push('r');
    } else if c == '\t' {
        output.push('\\');
        output.push('t');
    } else if (c as u32) < 32 {
        output.push('\\');
        output.push('u');
        output.push('0');
        output.push('0');
        output.push(lower_hex_char(c as u8 / 16));
        output.push(lower_hex_char(c as u8 % 16));
    } else {
        output.push(c);
    }
    assert(output@ =~= before + escaped_char(c));
}

pub fn push_json_escape(output: &mut String, value: &str)
    ensures
        final(output)@ == old(output)@ + json_escaped(value@),
{
    let chars: Vec<char> = chars_of(value);
    let mut i: usize = 0;
    assert(output@ =~= old(output)@ + json_escaped(value@.take(0)));
    while i < chars.len()
        invariant
            chars@ == value@,
            i <= chars.len(),
            output@ == old(output)@ + json_escaped(value@.take(i as int)),
        decreases chars.len() - i,
    {
        proof {
            lemma_json_escaped_push(value@.take(i as int), value@[i as int]);
            assert(value@.take(i + 1) =~= value@.take(i as int).push(value@[i as int]));
        }
        push_json_escaped_char(output, chars[i]);
        assert(output@ =~= old(output)@ + json_escaped(value@.take(i + 1)));
        i = i + 1;
    }
    assert(value@.take(i as int) =~= value@);
}

pub fn json_escape(value: &str) -> (escaped: String)
    ensures
        escaped@ == json_escaped(value@),
{
    let mut output: String = text_with_room(json_escaped_len(value));
    push_json_escape(&mut output, value);
    assert(output@ =~= json_escaped(value@));
    output
}

/// What one escape after its backslash denotes, and the text behind it.
pub open spec fn unescape(rest: Seq<char>) -> Option<(char, Seq<char>)> {
    if rest.len() == 0 {
        None
    } else if rest[0] == '"' || rest[0] == '\\' {
        Some((rest[0], rest.skip(1)))
    } else if rest[0] == 'n' {
        Some(('\n', rest.skip(1)))
    } else if rest[0] == 'r' {
        Some(('\r', rest.skip(1)))
    } else if rest[0] == 't' {
        Some(('\t', rest.skip(1)))
    } else if rest[0] == 'u' && rest.len() >= 5 && rest[1] == '0' && rest[2] == '0'
        && digest::is_lower_hex(rest[3]) && digest::is_lower_hex(rest[4]) {
        Some((((16 * hex_value(rest[3]) + hex_value(rest[4])) as u32) as char, rest.skip(5)))
    } else {
        None
    }
}

pub open spec fn hex_value(c: char) -> nat {
    if c <= '9' {
        (c as nat - 48) as nat
    } else {
        (c as nat - 87) as nat
    }
}

/// The string content up to the closing quote, unescaped, and the text from that quote on.
pub open spec fn string_content(rest: Seq<char>) -> Option<(Seq<char>, Seq<char>)>
    decreases rest.len(),
{
    if rest.len() == 0 {
        None
    } else if rest[0] == '"' {
        Some((Seq::empty(), rest))
    } else if rest[0] == '\\' {
        match unescape(rest.skip(1)) {
            None => None,
            Some((c, after)) => if after.len() < rest.len() {
                with_first(c, string_content(after))
            } else {
                None
            },
        }
    } else if (rest[0] as u32) < 32 {
        None
    } else {
        with_first(rest[0], string_content(rest.skip(1)))
    }
}

pub open spec fn with_first(c: char, parsed: Option<(Seq<char>, Seq<char>)>) -> Option<
    (Seq<char>, Seq<char>),
> {
    match parsed {
        None => None,
        Some((content, after)) => Some((seq![c] + content, after)),
    }
}

/// Unescaping gives back what was escaped, and stops at the quote behind it.
pub proof fn lemma_escape_round_trip(value: Seq<char>, after: Seq<char>)
    requires
        after.len() > 0,
        after[0] == '"',
    ensures
        string_content(json_escaped(value) + after) == Some((value, after)),
    decreases value.len(),
{
    let whole = json_escaped(value) + after;
    if value.len() == 0 {
        assert(whole =~= after);
        assert(value =~= Seq::empty());
    } else {
        let c = value[0];
        let tail = json_escaped(value.drop_first()) + after;
        lemma_escape_round_trip(value.drop_first(), after);
        assert(whole =~= escaped_char(c) + tail);
        assert(seq![c] + value.drop_first() =~= value);
        if escape_extra(c) == 0 {
            assert(whole.skip(1) =~= tail);
        } else if escape_extra(c) == 1 {
            assert(whole.skip(1).skip(1) =~= tail);
        } else {
            let escape = whole.skip(1);
            assert(escape.skip(5) =~= tail);
            let high = ((c as u32) / 16) as nat;
            let low = ((c as u32) % 16) as nat;
            assert(escape[3] == digest::hex_digit(high));
            assert(escape[4] == digest::hex_digit(low));
            assert(hex_value(digest::hex_digit(high)) == high);
            assert(hex_value(digest::hex_digit(low)) == low);
            assert(16 * high + low == c as u32);
            char_u32_cast(c, (16 * high + low) as u32);
        }
    }
}

} // verus!

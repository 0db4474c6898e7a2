//! Text and byte helpers shared by the cache formats.
//!
//! Text is modelled by its sequence of characters, a file by its sequence of bytes. The two meet
//! in `encode_utf8` and `decode_utf8` of the standard library's string model.

use vstd::prelude::*;
use vstd::utf8::*;

verus! {

/// `String::push` appends one character.
pub assume_specification[ std::string::String::push ](s: &mut std::string::String, c: char)
    ensures
        final(s)@ == old(s)@.push(c),
;

/// `String::push_str` appends a string slice.
pub assume_specification[ std::string::String::push_str ](
    s: &mut std::string::String,
    tail: &str,
)
    ensures
        final(s)@ == old(s)@ + tail@,
;

/// `str::from_utf8`: a byte slice is text exactly when it is well-formed UTF-8, and then the text
/// is what the bytes encode.
#[verifier::external_body]
pub(crate) fn utf8_str<'a>(bytes: &'a [u8]) -> (text: Option<&'a str>)
    ensures
        text is Some == valid_utf8(bytes@),
        text matches Some(value) ==> value@ == decode_utf8(bytes@),
{
    std::str::from_utf8(bytes).ok()
}

/// The text that a byte slice encodes, where it encodes one.
pub fn utf8_text(bytes: &[u8]) -> (text: Option<String>)
    ensures
        text is Some == valid_utf8(bytes@),
        text matches Some(value) ==> value@ == decode_utf8(bytes@),
{
    match utf8_str(bytes) {
        Some(value) => Some(value.to_string()),
        None => None,
    }
}

/// `String::with_capacity` makes an empty string. Capacities above `isize::MAX` are left out: the
/// allocation would abort.
pub assume_specification[ std::string::String::with_capacity ](capacity: usize) -> (s:
    std::string::String)
    requires
        capacity <= isize::MAX,
    ensures
        s@ == Seq::<char>::empty(),
;

/// An empty string with room for `len` bytes, where that much can be reserved at all.
pub fn text_with_room(len: usize) -> (text: String)
    ensures
        text@ == Seq::<char>::empty(),
{
    if len <= isize::MAX as usize {
        String::with_capacity(len)
    } else {
        String::new()
    }
}

/// `value` where it fits a `usize`, the largest `usize` otherwise.
pub open spec fn capped(value: nat) -> usize {
    if value <= usize::MAX {
        value as usize
    } else {
        usize::MAX
    }
}

/// The characters of `text`, in order.
pub fn chars_of(text: &str) -> (chars: Vec<char>)
    ensures
        chars@ == text@,
{
    let mut chars: Vec<char> = Vec::new();
    for c in it: text.chars()
        invariant
            chars@ == text@.take(it.index() as int),
            it.seq() == text@,
    {
        chars.push(c);
    }
    assert(text@.take(text@.len() as int) == text@);
    chars
}

/// The ASCII lower-case form of a character; every other character stands for itself.
pub open spec fn lower(c: char) -> char {
    if 'A' <= c && c <= 'Z' {
        ((c as u8) + 32) as char
    } else {
        c
    }
}

pub fn ascii_lower(c: char) -> (r: char)
    ensures
        'A' <= c && c <= 'Z' ==> r as u32 == c as u32 + 32,
        !('A' <= c && c <= 'Z') ==> r == c,
        r == lower(c),
{
    if 'A' <= c && c <= 'Z' {
        (c as u8 + 32) as char
    } else {
        c
    }
}

pub open spec fn upper(c: char) -> char {
    if 'a' <= c && c <= 'z' {
        ((c as u8) - 32) as char
    } else {
        c
    }
}

pub fn ascii_upper(c: char) -> (r: char)
    ensures
        'a' <= c && c <= 'z' ==> r as u32 == c as u32 - 32,
        !('a' <= c && c <= 'z') ==> r == c,
        r == upper(c),
{
    if 'a' <= c && c <= 'z' {
        (c as u8 - 32) as char
    } else {
        c
    }
}

/// Whether two strings hold the same characters.
pub fn same_text(left: &str, right: &str) -> (r: bool)
    ensures
        r == (left@ == right@),
{
    let left_chars: Vec<char> = chars_of(left);
    let right_chars: Vec<char> = chars_of(right);
    same_chars(&left_chars, &right_chars)
}

pub fn same_chars(left: &Vec<char>, right: &Vec<char>) -> (r: bool)
    ensures
        r == (left@ == right@),
{
    if left.len() != right.len() {
        return false;
    }
    let mut i: usize = 0;
    while i < left.len()
        invariant
            left.len() == right.len(),
            i <= left.len(),
            forall|j: int| 0 <= j < i ==> left@[j] == right@[j],
        decreases left.len() - i,
    {
        if left[i] != right[i] {
            return false;
        }
        i = i + 1;
    }
    assert(left@ =~= right@);
    true
}

/// The number of bytes in the encoding of `value`.
pub fn byte_len(value: &str) -> (len: usize)
    ensures
        len == encode_utf8(value@).len(),
{
    value.as_bytes().len()
}

/// One more part lengthens a joined text by the separator and the part.
pub proof fn lemma_joined_push(parts: Seq<Seq<char>>, part: Seq<char>, separator: char)
    ensures
        parts.len() == 0 ==> joined(parts.push(part), separator) == part,
        parts.len() > 0 ==> joined(parts.push(part), separator) == joined(parts, separator).push(
            separator,
        ) + part,
{
    assert(parts.push(part).drop_last() =~= parts);
}

/// Writes the parts with `separator` between each two neighbours.
pub fn join_parts(parts: &Vec<String>, separator: char) -> (output: String)
    ensures
        output@ == joined(texts(parts@), separator),
{
    let mut room: usize = parts.len().saturating_sub(1);
    let mut i: usize = 0;
    while i < parts.len()
        invariant
            i <= parts.len(),
        decreases parts.len() - i,
    {
        room = room.saturating_add(byte_len(parts[i].as_str()));
        i = i + 1;
    }
    let mut output: String = text_with_room(room);
    i = 0;
    assert(texts(parts@).take(0) =~= Seq::empty());
    while i < parts.len()
        invariant
            i <= parts.len(),
            output@ == joined(texts(parts@).take(i as int), separator),
        decreases parts.len() - i,
    {
        proof {
            let done = texts(parts@).take(i as int);
            lemma_joined_push(done, parts@[i as int]@, separator);
            assert(done.push(parts@[i as int]@) =~= texts(parts@).take(i + 1));
        }
        if i > 0 {
            output.push(separator);
        }
        output.push_str(parts[i].as_str());
        proof {
            if i == 0 {
                assert(output@ =~= parts@[0]@);
            }
        }
        i = i + 1;
    }
    assert(texts(parts@).take(i as int) =~= texts(parts@));
    output
}

/// Where one text continues another as bytes, the first ends between characters.
pub proof fn lemma_text_ends_between_chars(front: Seq<u8>, tail: Seq<u8>)
    requires
        valid_utf8(front),
        valid_utf8(front + tail),
    ensures
        is_char_boundary(front + tail, front.len() as int),
    decreases front.len(),
{
    let whole = front + tail;
    if front.len() > 0 {
        let rest = pop_first_scalar(front);
        assert(pop_first_scalar(whole) =~= rest + tail);
        lemma_text_ends_between_chars(rest, tail);
        assert(length_of_first_scalar(whole) == length_of_first_scalar(front));
    }
}

/// UTF-8 encodes a concatenation as the concatenation of the encodings.
pub proof fn lemma_encode_concat(left: Seq<char>, right: Seq<char>)
    ensures
        encode_utf8(left + right) == encode_utf8(left) + encode_utf8(right),
    decreases left.len(),
{
    if left.len() == 0 {
        assert(left + right =~= right);
        assert(encode_utf8(left) + encode_utf8(right) =~= encode_utf8(right));
    } else {
        lemma_encode_concat(left.drop_first(), right);
        assert((left + right).drop_first() =~= left.drop_first() + right);
        assert(encode_utf8(left + right) =~= encode_utf8(left) + encode_utf8(right));
    }
}

/// An ASCII character takes one byte.
pub proof fn lemma_encode_ascii_len(chars: Seq<char>)
    requires
        is_ascii_chars(chars),
    ensures
        encode_utf8(chars).len() == chars.len(),
{
    is_ascii_chars_encode_utf8(chars);
}

/// Two texts with the same encoding are the same text.
pub proof fn lemma_encode_injective(left: Seq<char>, right: Seq<char>)
    requires
        encode_utf8(left) == encode_utf8(right),
    ensures
        left == right,
{
    encode_utf8_decode_utf8(left);
    encode_utf8_decode_utf8(right);
}

/// The texts of a list of strings.
pub open spec fn texts(values: Seq<String>) -> Seq<Seq<char>> {
    values.map_values(|value: String| value@)
}

/// The parts, with `separator` between each two neighbours.
pub open spec fn joined(parts: Seq<Seq<char>>, separator: char) -> Seq<char>
    decreases parts.len(),
{
    if parts.len() == 0 {
        Seq::empty()
    } else if parts.len() == 1 {
        parts[0]
    } else {
        joined(parts.drop_last(), separator).push(separator) + parts.last()
    }
}

} // verus!

//! The building blocks of the binary payloads: little-endian numbers and length-prefixed text.
//!
//! A reader is modelled by what it makes of the bytes that are still to be read: the value and
//! the bytes behind it, or nothing.

use vstd::prelude::*;
use vstd::utf8::*;
use crate::text;
use crate::text::{byte_len, utf8_text};

verus! {

/// The length that stands for an absent value.
pub const NONE_LEN: u32 = 4_294_967_295;

pub open spec fn le32(value: nat) -> Seq<u8> {
    seq![
        (value % 256) as u8,
        ((value / 256) % 256) as u8,
        ((value / 65536) % 256) as u8,
        ((value / 16777216) % 256) as u8,
    ]
}

pub open spec fn le32_value(bytes: Seq<u8>) -> nat {
    (bytes[0] + 256 * bytes[1] + 65536 * bytes[2] + 16777216 * bytes[3]) as nat
}

pub proof fn lemma_le32(value: nat)
    requires
        value <= u32::MAX,
    ensures
        le32_value(le32(value)) == value,
{
    let a = value % 256;
    let b = value / 256;
    let c = value / 65536;
    let d = value / 16777216;
    assert(b / 256 == c);
    assert(c / 256 == d);
    assert(d < 256);
}

/// A 32-bit number and the bytes behind it.
pub open spec fn u32_at(rest: Seq<u8>) -> Option<(nat, Seq<u8>)> {
    if rest.len() < 4 {
        None
    } else {
        Some((le32_value(rest), rest.skip(4)))
    }
}

pub proof fn lemma_u32_round_trip(value: nat, after: Seq<u8>)
    requires
        value <= u32::MAX,
    ensures
        u32_at(le32(value) + after) == Some((value, after)),
{
    lemma_le32(value);
    let whole = le32(value) + after;
    assert(whole.skip(4) =~= after);
    assert(le32_value(whole) == le32_value(le32(value)));
}

/// `len` bytes of well-formed text and the bytes behind them.
pub open spec fn text_of_len_at(rest: Seq<u8>, len: nat) -> Option<(Seq<char>, Seq<u8>)> {
    if len <= rest.len() && valid_utf8(rest.take(len as int)) {
        Some((decode_utf8(rest.take(len as int)), rest.skip(len as int)))
    } else {
        None
    }
}

/// A length-prefixed text. The length that stands for absence is no length.
pub open spec fn text_at(rest: Seq<u8>) -> Option<(Seq<char>, Seq<u8>)> {
    match u32_at(rest) {
        None => None,
        Some((len, after)) => if len == NONE_LEN {
            None
        } else {
            text_of_len_at(after, len)
        },
    }
}

/// A length-prefixed text that may be absent.
pub open spec fn optional_text_at(rest: Seq<u8>) -> Option<(Option<Seq<char>>, Seq<u8>)> {
    match u32_at(rest) {
        None => None,
        Some((len, after)) => if len == NONE_LEN {
            Some((None, after))
        } else {
            match text_of_len_at(after, len) {
                None => None,
                Some((value, end)) => Some((Some(value), end)),
            }
        },
    }
}

/// `count` texts, one after the other.
pub open spec fn texts_at(rest: Seq<u8>, count: nat) -> Option<(Seq<Seq<char>>, Seq<u8>)>
    decreases count,
{
    if count == 0 {
        Some((Seq::empty(), rest))
    } else {
        match text_at(rest) {
            None => None,
            Some((first, after)) => match texts_at(after, (count - 1) as nat) {
                None => None,
                Some((others, end)) => Some((seq![first] + others, end)),
            },
        }
    }
}

/// Whether a text is short enough for its length prefix.
pub open spec fn is_encodable(value: Seq<char>) -> bool {
    encode_utf8(value).len() < NONE_LEN
}

pub open spec fn encoded_text(value: Seq<char>) -> Seq<u8> {
    le32(encode_utf8(value).len()) + encode_utf8(value)
}

pub open spec fn encoded_optional_text(value: Option<Seq<char>>) -> Seq<u8> {
    match value {
        Some(present) => encoded_text(present),
        None => le32(NONE_LEN as nat),
    }
}

pub open spec fn encoded_texts(values: Seq<Seq<char>>) -> Seq<u8>
    decreases values.len(),
{
    if values.len() == 0 {
        Seq::empty()
    } else {
        encoded_texts(values.drop_last()) + encoded_text(values.last())
    }
}

pub open spec fn all_encodable(values: Seq<Seq<char>>) -> bool {
    forall|i: int| 0 <= i < values.len() ==> is_encodable(#[trigger] values[i])
}

pub proof fn lemma_text_round_trip(value: Seq<char>, after: Seq<u8>)
    requires
        is_encodable(value),
    ensures
        text_at(encoded_text(value) + after) == Some((value, after)),
{
    let body = encode_utf8(value);
    lemma_u32_round_trip(body.len(), body + after);
    assert(encoded_text(value) + after =~= le32(body.len()) + (body + after));
    assert((body + after).take(body.len() as int) =~= body);
    assert((body + after).skip(body.len() as int) =~= after);
    encode_utf8_valid_utf8(value);
    encode_utf8_decode_utf8(value);
}

pub proof fn lemma_optional_text_round_trip(value: Option<Seq<char>>, after: Seq<u8>)
    requires
        value matches Some(present) ==> is_encodable(present),
    ensures
        optional_text_at(encoded_optional_text(value) + after) == Some((value, after)),
{
    match value {
        Some(present) => {
            lemma_text_round_trip(present, after);
        },
        None => {
            lemma_u32_round_trip(NONE_LEN as nat, after);
        },
    }
}

proof fn lemma_encoded_texts_first(values: Seq<Seq<char>>)
    requires
        values.len() > 0,
    ensures
        encoded_texts(values) == encoded_text(values[0]) + encoded_texts(values.skip(1)),
    decreases values.len(),
{
    let tail = values.skip(1);
    if values.len() == 1 {
        assert(values.drop_last() =~= Seq::empty());
        assert(encoded_texts(values.drop_last()) =~= Seq::empty());
        assert(tail =~= Seq::empty());
        assert(encoded_texts(tail) =~= Seq::empty());
        assert(encoded_texts(values) =~= encoded_text(values[0]) + encoded_texts(tail));
    } else {
        lemma_encoded_texts_first(values.drop_last());
        assert(values.drop_last().skip(1) =~= tail.drop_last());
        assert(encoded_texts(values) =~= encoded_text(values[0]) + encoded_texts(tail));
    }
}

/// Reading gives back what was written, and leaves what follows.
pub proof fn lemma_texts_round_trip(values: Seq<Seq<char>>, after: Seq<u8>)
    requires
        all_encodable(values),
    ensures
        texts_at(encoded_texts(values) + after, values.len()) == Some((values, after)),
    decreases values.len(),
{
    if values.len() == 0 {
        assert(encoded_texts(values) + after =~= after);
        assert(values =~= Seq::empty());
    } else {
        let tail = values.skip(1);
        assert forall|i: int| 0 <= i < tail.len() implies is_encodable(#[trigger] tail[i]) by {
            assert(tail[i] == values[i + 1]);
        }
        lemma_texts_round_trip(tail, after);
        lemma_encoded_texts_first(values);
        assert(encoded_texts(values) + after =~= encoded_text(values[0]) + (encoded_texts(tail)
            + after));
        lemma_text_round_trip(values[0], encoded_texts(tail) + after);
        assert(seq![values[0]] + tail =~= values);
    }
}

/// A number that is read stands there as it is written.
pub proof fn lemma_u32_read_is_written(rest: Seq<u8>)
    requires
        u32_at(rest) is Some,
    ensures
        ({
            let (value, after) = u32_at(rest)->0;
            value <= u32::MAX && rest == le32(value) + after
        }),
{
    let value = le32_value(rest);
    let a = rest[0] as int;
    let b = rest[1] as int;
    let c = rest[2] as int;
    let d = rest[3] as int;
    assert(value == a + 256 * (b + 256 * (c + 256 * d)));
    assert(value % 256 == a && value / 256 == b + 256 * (c + 256 * d));
    assert((value / 256) % 256 == b);
    assert(value / 65536 == c + 256 * d);
    assert((value / 65536) % 256 == c);
    assert(value / 16777216 == d);
    assert(rest =~= le32(value) + rest.skip(4));
}

proof fn lemma_text_body_read_is_written(rest: Seq<u8>, len: nat)
    requires
        text_of_len_at(rest, len) is Some,
    ensures
        ({
            let (value, after) = text_of_len_at(rest, len)->0;
            encode_utf8(value).len() == len && rest == encode_utf8(value) + after
        }),
{
    decode_utf8_encode_utf8(rest.take(len as int));
    assert(rest =~= rest.take(len as int) + rest.skip(len as int));
}

/// A text that is read stands there as it is written.
pub proof fn lemma_text_read_is_written(rest: Seq<u8>)
    requires
        text_at(rest) is Some,
    ensures
        ({
            let (value, after) = text_at(rest)->0;
            is_encodable(value) && rest == encoded_text(value) + after
        }),
{
    lemma_u32_read_is_written(rest);
    let (len, body) = u32_at(rest)->0;
    lemma_text_body_read_is_written(body, len);
    let (value, after) = text_at(rest)->0;
    assert(encoded_text(value) + after =~= le32(len) + (encode_utf8(value) + after));
}

/// An optional text that is read stands there as it is written.
pub proof fn lemma_optional_text_read_is_written(rest: Seq<u8>)
    requires
        optional_text_at(rest) is Some,
    ensures
        ({
            let (value, after) = optional_text_at(rest)->0;
            (value matches Some(present) ==> is_encodable(present)) && rest
                == encoded_optional_text(value) + after
        }),
{
    lemma_u32_read_is_written(rest);
    if (u32_at(rest)->0).0 != NONE_LEN {
        lemma_text_read_is_written(rest);
    }
}

/// Texts that are read stand there as they are written.
pub proof fn lemma_texts_read_is_written(rest: Seq<u8>, count: nat)
    requires
        texts_at(rest, count) is Some,
    ensures
        ({
            let (values, after) = texts_at(rest, count)->0;
            values.len() == count && all_encodable(values) && rest == encoded_texts(values) + after
        }),
    decreases count,
{
    let (values, after) = texts_at(rest, count)->0;
    if count == 0 {
        assert(encoded_texts(values) + after =~= after);
    } else {
        lemma_text_read_is_written(rest);
        let (first, others_at) = text_at(rest)->0;
        lemma_texts_read_is_written(others_at, (count - 1) as nat);
        let others = (texts_at(others_at, (count - 1) as nat)->0).0;
        assert(values.skip(1) =~= others);
        lemma_encoded_texts_first(values);
        assert(encoded_texts(values) + after =~= encoded_text(first) + (encoded_texts(others)
            + after));
    }
}

/// Each text takes at least its length prefix.
pub proof fn lemma_texts_take_four_bytes_each(rest: Seq<u8>, count: nat)
    requires
        texts_at(rest, count) is Some,
    ensures
        4 * count <= rest.len(),
    decreases count,
{
    if count > 0 {
        let after = (text_at(rest)->0).1;
        lemma_texts_take_four_bytes_each(after, (count - 1) as nat);
    }
}

// ---------------------------------------------------------------------------------------------
// Readers

/// The bytes from `cursor` on.
pub open spec fn unread(bytes: Seq<u8>, cursor: usize) -> Seq<u8> {
    bytes.skip(cursor as int)
}

pub open spec fn opt_text(value: Option<String>) -> Option<Seq<char>> {
    match value {
        Some(present) => Some(present@),
        None => None,
    }
}

pub open spec fn opt_texts(value: Option<Vec<String>>) -> Option<Seq<Seq<char>>> {
    match value {
        Some(present) => Some(text::texts(present@)),
        None => None,
    }
}

pub fn read_u32(bytes: &[u8], cursor: &mut usize) -> (r: Option<u32>)
    requires
        *old(cursor) <= bytes@.len(),
    ensures
        *final(cursor) <= bytes@.len(),
        r is Some == (u32_at(unread(bytes@, *old(cursor))) is Some),
        r matches Some(value) ==> u32_at(unread(bytes@, *old(cursor))) == Some(
            (value as nat, unread(bytes@, *final(cursor))),
        ),
        r is Some == (*old(cursor) + 4 <= bytes@.len()),
        r matches Some(value) ==> {
            let at = *old(cursor) as int;
            &&& *final(cursor) == at + 4
            &&& value == bytes@[at] + 256 * bytes@[at + 1] + 65536 * bytes@[at + 2] + 16777216
                * bytes@[at + 3]
        },
{
    let at: usize = *cursor;
    if bytes.len() - at < 4 {
        return None;
    }
    let value: u32 = bytes[at] as u32 + 256 * (bytes[at + 1] as u32) + 65536 * (bytes[at
        + 2] as u32) + 16777216 * (bytes[at + 3] as u32);
    *cursor = at + 4;
    assert(bytes@.skip(at as int).skip(4) =~= bytes@.skip(at + 4));
    Some(value)
}

/// A copy of `bytes[start..end]`.
pub fn copy_range(bytes: &[u8], start: usize, end: usize) -> (copy: Vec<u8>)
    requires
        start <= end <= bytes@.len(),
    ensures
        copy@ == bytes@.subrange(start as int, end as int),
{
    let mut copy: Vec<u8> = Vec::with_capacity(end - start);
    let mut i: usize = start;
    while i < end
        invariant
            start <= i <= end <= bytes@.len(),
            copy@ == bytes@.subrange(start as int, i as int),
        decreases end - i,
    {
        copy.push(bytes[i]);
        assert(bytes@.subrange(start as int, i + 1) =~= bytes@.subrange(
            start as int,
            i as int,
        ).push(bytes@[i as int]));
        i = i + 1;
    }
    copy
}

pub fn read_string_with_len(bytes: &[u8], cursor: &mut usize, len: u32) -> (r: Option<String>)
    requires
        *old(cursor) <= bytes@.len(),
    ensures
        *final(cursor) <= bytes@.len(),
        r is Some == (text_of_len_at(unread(bytes@, *old(cursor)), len as nat) is Some),
        r matches Some(value) ==> text_of_len_at(unread(bytes@, *old(cursor)), len as nat) == Some(
            (value@, unread(bytes@, *final(cursor))),
        ),
{
    let at: usize = *cursor;
    if len as u64 > (bytes.len() - at) as u64 {
        return None;
    }
    let end: usize = at + len as usize;
    let piece: &[u8] = &bytes[at..end];
    proof {
        assert(piece@ =~= bytes@.skip(at as int).take(len as int));
        assert(bytes@.skip(at as int).skip(len as int) =~= bytes@.skip(end as int));
    }
    let value: String = utf8_text(piece)?;
    *cursor = end;
    Some(value)
}

pub fn skip_string_with_len(bytes: &[u8], cursor: &mut usize, len: u32) -> (r: Option<()>)
    requires
        *old(cursor) <= bytes@.len(),
    ensures
        *final(cursor) <= bytes@.len(),
        r is Some == (text_of_len_at(unread(bytes@, *old(cursor)), len as nat) is Some),
        r is Some ==> (text_of_len_at(unread(bytes@, *old(cursor)), len as nat)->0).1 == unread(
            bytes@,
            *final(cursor),
        ),
{
    let value: String = read_string_with_len(bytes, cursor, len)?;
    Some(())
}

pub fn read_string(bytes: &[u8], cursor: &mut usize) -> (r: Option<String>)
    requires
        *old(cursor) <= bytes@.len(),
    ensures
        *final(cursor) <= bytes@.len(),
        r is Some == (text_at(unread(bytes@, *old(cursor))) is Some),
        r matches Some(value) ==> text_at(unread(bytes@, *old(cursor))) == Some(
            (value@, unread(bytes@, *final(cursor))),
        ),
{
    let len: u32 = read_u32(bytes, cursor)?;
    if len == NONE_LEN {
        return None;
    }
    read_string_with_len(bytes, cursor, len)
}

pub fn skip_string(bytes: &[u8], cursor: &mut usize) -> (r: Option<()>)
    requires
        *old(cursor) <= bytes@.len(),
    ensures
        *final(cursor) <= bytes@.len(),
        r is Some == (text_at(unread(bytes@, *old(cursor))) is Some),
        r is Some ==> (text_at(unread(bytes@, *old(cursor)))->0).1 == unread(
            bytes@,
            *final(cursor),
        ),
{
    let len: u32 = read_u32(bytes, cursor)?;
    if len == NONE_LEN {
        return None;
    }
    skip_string_with_len(bytes, cursor, len)
}

pub fn read_optional_string(bytes: &[u8], cursor: &mut usize) -> (r: Option<Option<String>>)
    requires
        *old(cursor) <= bytes@.len(),
    ensures
        *final(cursor) <= bytes@.len(),
        r is Some == (optional_text_at(unread(bytes@, *old(cursor))) is Some),
        r matches Some(value) ==> optional_text_at(unread(bytes@, *old(cursor))) == Some(
            (opt_text(value), unread(bytes@, *final(cursor))),
        ),
{
    let len: u32 = read_u32(bytes, cursor)?;
    if len == NONE_LEN {
        return Some(None);
    }
    let value: String = read_string_with_len(bytes, cursor, len)?;
    Some(Some(value))
}

pub fn skip_optional_string(bytes: &[u8], cursor: &mut usize) -> (r: Option<()>)
    requires
        *old(cursor) <= bytes@.len(),
    ensures
        *final(cursor) <= bytes@.len(),
        r is Some == (optional_text_at(unread(bytes@, *old(cursor))) is Some),
        r is Some ==> (optional_text_at(unread(bytes@, *old(cursor)))->0).1 == unread(
            bytes@,
            *final(cursor),
        ),
{
    let len: u32 = read_u32(bytes, cursor)?;
    if len == NONE_LEN {
        return Some(());
    }
    skip_string_with_len(bytes, cursor, len)
}

/// Whether as many texts as declared can still follow.
pub fn declared_string_count_fits_remaining(bytes: &[u8], cursor: usize, count: usize) -> (r: bool)
    ensures
        r == (4 * count <= if cursor <= bytes@.len() {
            bytes@.len() - cursor
        } else {
            0
        }),
{
    count <= bytes.len().saturating_sub(cursor) / 4
}

spec fn prepended_texts(
    front: Seq<Seq<char>>,
    parsed: Option<(Seq<Seq<char>>, Seq<u8>)>,
) -> Option<(Seq<Seq<char>>, Seq<u8>)> {
    match parsed {
        None => None,
        Some((values, after)) => Some((front + values, after)),
    }
}

pub fn read_counted_strings(bytes: &[u8], cursor: &mut usize, count: usize) -> (r: Option<
    Vec<String>,
>)
    requires
        *old(cursor) <= bytes@.len(),
    ensures
        *final(cursor) <= bytes@.len(),
        r is Some == (texts_at(unread(bytes@, *old(cursor)), count as nat) is Some),
        r matches Some(values) ==> texts_at(unread(bytes@, *old(cursor)), count as nat) == Some(
            (text::texts(values@), unread(bytes@, *final(cursor))),
        ),
{
    if !declared_string_count_fits_remaining(bytes, *cursor, count) {
        proof {
            if texts_at(unread(bytes@, *cursor), count as nat) is Some {
                lemma_texts_take_four_bytes_each(unread(bytes@, *cursor), count as nat);
            }
        }
        return None;
    }
    let mut values: Vec<String> = Vec::with_capacity(count);
    let mut i: usize = 0;
    let ghost whole = texts_at(unread(bytes@, *cursor), count as nat);
    proof {
        if whole is Some {
            assert(text::texts(values@) + (whole->0).0 =~= (whole->0).0);
        }
    }
    while i < count
        invariant
            i <= count,
            *cursor <= bytes@.len(),
            whole == texts_at(unread(bytes@, *old(cursor)), count as nat),
            whole == prepended_texts(
                text::texts(values@),
                texts_at(unread(bytes@, *cursor), (count - i) as nat),
            ),
        decreases count - i,
    {
        let ghost before = values@;
        let ghost rest = unread(bytes@, *cursor);
        let value: String = read_string(bytes, cursor)?;
        values.push(value);
        proof {
            assert(text::texts(values@) =~= text::texts(before).push(value@));
            let tail = texts_at(unread(bytes@, *cursor), (count - i - 1) as nat);
            if tail is Some {
                assert(text::texts(before) + (seq![value@] + (tail->0).0) =~= text::texts(values@)
                    + (tail->0).0);
            }
        }
        i = i + 1;
    }
    proof {
        assert(text::texts(values@) + Seq::<Seq<char>>::empty() =~= text::texts(values@));
    }
    Some(values)
}

/// Where `count` texts that start at `cursor` end, if they are all there and well-formed.
pub fn validated_counted_strings_end(bytes: &[u8], cursor: usize, count: usize) -> (r: Option<
    usize,
>)
    requires
        cursor <= bytes@.len(),
    ensures
        r is Some == (texts_at(unread(bytes@, cursor), count as nat) is Some),
        r matches Some(end) ==> end <= bytes@.len() && (texts_at(
            unread(bytes@, cursor),
            count as nat,
        )->0).1 == unread(bytes@, end),
{
    if !declared_string_count_fits_remaining(bytes, cursor, count) {
        proof {
            if texts_at(unread(bytes@, cursor), count as nat) is Some {
                lemma_texts_take_four_bytes_each(unread(bytes@, cursor), count as nat);
            }
        }
        return None;
    }
    let mut at: usize = cursor;
    let mut i: usize = 0;
    while i < count
        invariant
            i <= count,
            at <= bytes@.len(),
            (texts_at(unread(bytes@, cursor), count as nat) is Some) == (texts_at(
                unread(bytes@, at),
                (count - i) as nat,
            ) is Some),
            texts_at(unread(bytes@, cursor), count as nat) is Some ==> (texts_at(
                unread(bytes@, cursor),
                count as nat,
            )->0).1 == (texts_at(unread(bytes@, at), (count - i) as nat)->0).1,
        decreases count - i,
    {
        skip_string(bytes, &mut at)?;
        i = i + 1;
    }
    Some(at)
}

// ---------------------------------------------------------------------------------------------
// Writers

pub fn write_u32(output: &mut Vec<u8>, value: u32)
    ensures
        final(output)@ == old(output)@ + le32(value as nat),
        final(output)@.len() == old(output)@.len() + 4,
        ({
            let at = old(output)@.len() as int;
            value == final(output)@[at] + 256 * final(output)@[at + 1] + 65536 * final(output)@[at
                + 2] + 16777216 * final(output)@[at + 3]
        }),
{
    proof {
        lemma_le32(value as nat);
    }
    output.push((value % 256) as u8);
    output.push(((value / 256) % 256) as u8);
    output.push(((value / 65536) % 256) as u8);
    output.push(((value / 16777216) % 256) as u8);
    assert(output@ =~= old(output)@ + le32(value as nat));
}

pub fn write_bytes(output: &mut Vec<u8>, bytes: &[u8])
    ensures
        final(output)@ == old(output)@ + bytes@,
{
    let mut i: usize = 0;
    assert(output@ =~= old(output)@ + bytes@.take(0));
    while i < bytes.len()
        invariant
            i <= bytes@.len(),
            output@ == old(output)@ + bytes@.take(i as int),
        decreases bytes@.len() - i,
    {
        output.push(bytes[i]);
        assert(output@ =~= old(output)@ + bytes@.take(i + 1));
        i = i + 1;
    }
    assert(bytes@.take(i as int) =~= bytes@);
}

/// The size of a length-prefixed text, where it can have one.
pub fn encoded_string_len(value: &str) -> (r: Option<usize>)
    ensures
        r is Some == (is_encodable(value@) && encoded_text(value@).len() <= usize::MAX),
        r matches Some(len) ==> len == encoded_text(value@).len(),
{
    let len: usize = byte_len(value);
    if len as u64 >= NONE_LEN as u64 {
        return None;
    }
    len.checked_add(4)
}

pub fn encoded_optional_string_len(value: &Option<String>) -> (r: Option<usize>)
    ensures
        r is Some == ((opt_text(*value) matches Some(present) ==> is_encodable(present))
            && encoded_optional_text(opt_text(*value)).len() <= usize::MAX),
        r matches Some(len) ==> len == encoded_optional_text(opt_text(*value)).len(),
{
    match value {
        Some(present) => encoded_string_len(present.as_str()),
        None => Some(4),
    }
}

pub fn write_string(output: &mut Vec<u8>, value: &str)
    requires
        is_encodable(value@),
    ensures
        final(output)@ == old(output)@ + encoded_text(value@),
{
    let body: &[u8] = value.as_bytes();
    write_u32(output, body.len() as u32);
    write_bytes(output, body);
    assert(output@ =~= old(output)@ + encoded_text(value@));
}

pub fn write_optional_string(output: &mut Vec<u8>, value: &Option<String>)
    requires
        opt_text(*value) matches Some(present) ==> is_encodable(present),
    ensures
        final(output)@ == old(output)@ + encoded_optional_text(opt_text(*value)),
{
    match value {
        Some(present) => write_string(output, present.as_str()),
        None => write_u32(output, NONE_LEN),
    }
}

pub fn write_strings(output: &mut Vec<u8>, values: &Vec<String>)
    requires
        all_encodable(text::texts(values@)),
    ensures
        final(output)@ == old(output)@ + encoded_texts(text::texts(values@)),
{
    let ghost all = text::texts(values@);
    let mut i: usize = 0;
    assert(output@ =~= old(output)@ + encoded_texts(all.take(0)));
    while i < values.len()
        invariant
            i <= values.len(),
            all == text::texts(values@),
            all_encodable(all),
            output@ == old(output)@ + encoded_texts(all.take(i as int)),
        decreases values.len() - i,
    {
        proof {
            assert(is_encodable(all[i as int]));
            assert(all[i as int] == values@[i as int]@);
            assert(all.take(i + 1).drop_last() =~= all.take(i as int));
        }
        write_string(output, values[i].as_str());
        assert(output@ =~= old(output)@ + encoded_texts(all.take(i + 1)));
        i = i + 1;
    }
    assert(all.take(i as int) =~= all);
}

/// The size of a run of length-prefixed texts, where each can have one.
pub fn encoded_strings_len(values: &Vec<String>) -> (r: Option<usize>)
    ensures
        r is Some == (all_encodable(text::texts(values@)) && encoded_texts(
            text::texts(values@),
        ).len() <= usize::MAX),
        r matches Some(len) ==> len == encoded_texts(text::texts(values@)).len(),
{
    let ghost all = text::texts(values@);
    let mut len: usize = 0;
    let mut i: usize = 0;
    while i < values.len()
        invariant
            i <= values.len(),
            all == text::texts(values@),
            forall|j: int| 0 <= j < i ==> is_encodable(#[trigger] all[j]),
            len == encoded_texts(all.take(i as int)).len(),
        decreases values.len() - i,
    {
        proof {
            assert(all[i as int] == values@[i as int]@);
            assert(all.take(i + 1).drop_last() =~= all.take(i as int));
            lemma_encoded_texts_len_grows(all, i + 1);
        }
        let item: usize = encoded_string_len(values[i].as_str())?;
        len = len.checked_add(item)?;
        i = i + 1;
    }
    assert(all.take(i as int) =~= all);
    Some(len)
}

proof fn lemma_encoded_texts_len_grows(values: Seq<Seq<char>>, count: int)
    requires
        0 <= count <= values.len(),
    ensures
        encoded_texts(values.take(count)).len() <= encoded_texts(values).len(),
    decreases values.len() - count,
{
    if count == values.len() {
        assert(values.take(count) =~= values);
    } else {
        lemma_encoded_texts_len_grows(values, count + 1);
        assert(values.take(count + 1).drop_last() =~= values.take(count));
    }
}

/// Whether `bytes` starts with `expected`.
pub fn starts_with_bytes(bytes: &[u8], expected: &[u8]) -> (r: bool)
    ensures
        r == expected@.is_prefix_of(bytes@),
{
    if expected.len() > bytes.len() {
        return false;
    }
    let mut i: usize = 0;
    while i < expected.len()
        invariant
            i <= expected@.len() <= bytes@.len(),
            forall|j: int| 0 <= j < i ==> #[trigger] expected@[j] == bytes@[j],
        decreases expected@.len() - i,
    {
        if expected[i] != bytes[i] {
            assert(bytes@.subrange(0, expected@.len() as int)[i as int] == bytes@[i as int]);
            return false;
        }
        i = i + 1;
    }
    assert(expected@ =~= bytes@.subrange(0, expected@.len() as int));
    true
}

} // verus!

//! JSON modules as machine payloads.
//!
//! A JSON value is kept as a tree whose numbers are the texts that stand for them. The body of a
//! payload is a tagged pre-order walk of the tree; its header names the source and the body by
//! their digests.

use vstd::prelude::*;
use vstd::utf8::*;
use crate::codec;
use crate::decimal;
use crate::json_module;
use crate::codec::{copy_range, starts_with_bytes, write_bytes, write_u32};
use crate::digest;
use crate::digest::blake3_hash;
use crate::machine_cache;
use crate::machine_cache::{DxMachineCacheConfig, DxMachineCacheHit, DxMachineCachePaths,
    DxMachineCacheStatus, MachineCacheFiles};
use crate::machine_write;
use crate::machine_write::MachineArtifactWrite;
use crate::path_text::PathStyle;
use crate::text::utf8_text;

verus! {

pub const CORE_JSON_MACHINE_HEADER_LEN: usize = 72;

pub const CORE_JSON_MACHINE_MAX_BYTES: u64 = 536_870_912;

pub const CORE_JSON_MACHINE_MAX_STRING_LEN: usize = 268_435_456;

pub const CORE_JSON_MACHINE_MAX_NUMBER_LEN: usize = 128;

pub const CORE_JSON_MACHINE_MAX_DEPTH: u16 = 512;

pub const CORE_JSON_MACHINE_MIN_SOURCE_BYTES: usize = 131_072;

pub const CORE_JSON_MACHINE_NAMESPACE: &'static str = "core_json_module_v2";

pub const CORE_JSON_TAG_NULL: u8 = 0;

pub const CORE_JSON_TAG_FALSE: u8 = 1;

pub const CORE_JSON_TAG_TRUE: u8 = 2;

pub const CORE_JSON_TAG_NUMBER: u8 = 3;

pub const CORE_JSON_TAG_STRING: u8 = 4;

pub const CORE_JSON_TAG_ARRAY: u8 = 5;

pub const CORE_JSON_TAG_OBJECT: u8 = 6;

/// A JSON value. A number is kept as its text, an object as its entries in order.
#[derive(Debug, PartialEq, Eq)]
pub enum JsonValue {
    Null,
    Bool(bool),
    Number(String),
    Text(String),
    Array(Vec<JsonValue>),
    Object(Vec<(String, JsonValue)>),
}

pub ghost enum JsonModel {
    Null,
    Bool(bool),
    Number(Seq<char>),
    Text(Seq<char>),
    Array(Seq<JsonModel>),
    Object(Seq<(Seq<char>, JsonModel)>),
}

pub open spec fn json_model(value: JsonValue) -> JsonModel
    decreases value, 0nat,
{
    match value {
        JsonValue::Null => JsonModel::Null,
        JsonValue::Bool(flag) => JsonModel::Bool(flag),
        JsonValue::Number(number) => JsonModel::Number(number@),
        JsonValue::Text(content) => JsonModel::Text(content@),
        JsonValue::Array(items) => JsonModel::Array(json_models(items@, items@.len())),
        JsonValue::Object(entries) => JsonModel::Object(entry_models(entries@, entries@.len())),
    }
}

/// The first `count` items.
pub open spec fn json_models(items: Seq<JsonValue>, count: nat) -> Seq<JsonModel>
    decreases items, count,
{
    if count == 0 || count > items.len() {
        Seq::empty()
    } else {
        json_models(items, (count - 1) as nat).push(json_model(items[count - 1]))
    }
}

/// The first `count` entries.
pub open spec fn entry_models(entries: Seq<(String, JsonValue)>, count: nat) -> Seq<
    (Seq<char>, JsonModel),
>
    decreases entries, count,
{
    if count == 0 || count > entries.len() {
        Seq::empty()
    } else {
        entry_models(entries, (count - 1) as nat).push(
            (entries[count - 1].0@, json_model(entries[count - 1].1)),
        )
    }
}

impl View for JsonValue {
    type V = JsonModel;

    open spec fn view(&self) -> JsonModel {
        json_model(*self)
    }
}

proof fn lemma_json_models(items: Seq<JsonValue>, count: nat)
    requires
        count <= items.len(),
    ensures
        json_models(items, count).len() == count,
        forall|i: int| 0 <= i < count ==> #[trigger] json_models(items, count)[i] == json_model(
            items[i],
        ),
    decreases count,
{
    if count > 0 {
        lemma_json_models(items, (count - 1) as nat);
    }
}

proof fn lemma_entry_models(entries: Seq<(String, JsonValue)>, count: nat)
    requires
        count <= entries.len(),
    ensures
        entry_models(entries, count).len() == count,
        forall|i: int| 0 <= i < count ==> #[trigger] entry_models(entries, count)[i] == (
            entries[i].0@,
            json_model(entries[i].1),
        ),
    decreases count,
{
    if count > 0 {
        lemma_entry_models(entries, (count - 1) as nat);
    }
}

// ---------------------------------------------------------------------------------------------
// The body: the model

pub open spec fn encoded_bytes(content: Seq<char>) -> Seq<u8> {
    codec::le32(encode_utf8(content).len()) + encode_utf8(content)
}

pub open spec fn encoded_value(value: JsonModel) -> Seq<u8>
    decreases value, 0nat,
{
    match value {
        JsonModel::Null => seq![CORE_JSON_TAG_NULL],
        JsonModel::Bool(flag) => if flag {
            seq![CORE_JSON_TAG_TRUE]
        } else {
            seq![CORE_JSON_TAG_FALSE]
        },
        JsonModel::Number(number) => seq![CORE_JSON_TAG_NUMBER] + encoded_bytes(number),
        JsonModel::Text(content) => seq![CORE_JSON_TAG_STRING] + encoded_bytes(content),
        JsonModel::Array(items) => seq![CORE_JSON_TAG_ARRAY] + (codec::le32(items.len())
            + encoded_values(items, items.len())),
        JsonModel::Object(entries) => seq![CORE_JSON_TAG_OBJECT] + (codec::le32(entries.len())
            + encoded_entries(entries, entries.len())),
    }
}

pub open spec fn encoded_values(items: Seq<JsonModel>, count: nat) -> Seq<u8>
    decreases items, count,
{
    if count == 0 || count > items.len() {
        Seq::empty()
    } else {
        encoded_values(items, (count - 1) as nat) + encoded_value(items[count - 1])
    }
}

pub open spec fn encoded_entries(entries: Seq<(Seq<char>, JsonModel)>, count: nat) -> Seq<u8>
    decreases entries, count,
{
    if count == 0 || count > entries.len() {
        Seq::empty()
    } else {
        encoded_entries(entries, (count - 1) as nat) + (encoded_bytes(entries[count - 1].0)
            + encoded_value(entries[count - 1].1))
    }
}

pub open spec fn number_fits(number: Seq<char>) -> bool {
    encode_utf8(number).len() <= CORE_JSON_MACHINE_MAX_NUMBER_LEN
}

pub open spec fn string_fits(content: Seq<char>) -> bool {
    encode_utf8(content).len() <= CORE_JSON_MACHINE_MAX_STRING_LEN
}

/// Whether a value at `depth` is within the limits of the format.
pub open spec fn value_fits(value: JsonModel, depth: nat) -> bool
    decreases value, 0nat,
{
    depth <= CORE_JSON_MACHINE_MAX_DEPTH && match value {
        JsonModel::Null => true,
        JsonModel::Bool(_) => true,
        JsonModel::Number(number) => number_fits(number),
        JsonModel::Text(content) => string_fits(content),
        JsonModel::Array(items) => items.len() <= u32::MAX && values_fit(
            items,
            items.len(),
            depth + 1,
        ),
        JsonModel::Object(entries) => entries.len() <= u32::MAX && entries_fit(
            entries,
            entries.len(),
            depth + 1,
        ),
    }
}

pub open spec fn values_fit(items: Seq<JsonModel>, count: nat, depth: nat) -> bool
    decreases items, count,
{
    if count == 0 || count > items.len() {
        true
    } else {
        values_fit(items, (count - 1) as nat, depth) && value_fits(items[count - 1], depth)
    }
}

pub open spec fn entries_fit(
    entries: Seq<(Seq<char>, JsonModel)>,
    count: nat,
    depth: nat,
) -> bool
    decreases entries, count,
{
    if count == 0 || count > entries.len() {
        true
    } else {
        entries_fit(entries, (count - 1) as nat, depth) && string_fits(entries[count - 1].0)
            && value_fits(entries[count - 1].1, depth)
    }
}

// ---------------------------------------------------------------------------------------------
// Numbers

/// Whether `serde_json` reads these bytes as a number.
pub uninterp spec fn serde_number(bytes: Seq<u8>) -> bool;

/// `serde_json::from_slice` into a `serde_json::Number`: it depends on the bytes alone. A number
/// that is too large for the type is refused.
#[verifier::external_body]
fn is_serde_number(bytes: &[u8]) -> (r: bool)
    ensures
        r == serde_number(bytes@),
{
    serde_json::from_slice::<serde_json::Number>(bytes).is_ok()
}

pub open spec fn is_digit(byte: u8) -> bool {
    0x30 <= byte <= 0x39
}

fn byte_is_digit(byte: u8) -> (r: bool)
    ensures
        r == is_digit(byte),
{
    0x30 <= byte && byte <= 0x39
}

pub open spec fn all_digits(bytes: Seq<u8>) -> bool {
    forall|i: int| 0 <= i < bytes.len() ==> is_digit(#[trigger] bytes[i])
}

pub open spec fn digits_value(digits: Seq<u8>) -> nat
    decreases digits.len(),
{
    if digits.len() == 0 {
        0
    } else {
        digits_value(digits.drop_last()) * 10 + (digits.last() - 0x30) as nat
    }
}

pub open spec fn without_sign(bytes: Seq<u8>) -> Seq<u8> {
    if bytes.len() > 0 && bytes[0] == 0x2d {
        bytes.skip(1)
    } else {
        bytes
    }
}

/// A whole number without leading zeros whose magnitude fits 64 bits: whether it has a minus sign,
/// and its magnitude.
pub open spec fn plain_integer(bytes: Seq<u8>) -> Option<(bool, nat)> {
    let digits = without_sign(bytes);
    if digits.len() > 0 && all_digits(digits) && (digits.len() > 1 ==> digits[0] != 0x30)
        && digits_value(digits) <= u64::MAX {
        Some((digits != bytes, digits_value(digits)))
    } else {
        None
    }
}

proof fn lemma_digits_value_grows(digits: Seq<u8>, count: int)
    requires
        0 <= count <= digits.len(),
        all_digits(digits),
    ensures
        digits_value(digits.take(count)) <= digits_value(digits),
    decreases digits.len() - count,
{
    if count == digits.len() {
        assert(digits.take(count) =~= digits);
    } else {
        let next = digits.take(count + 1);
        assert(next.drop_last() =~= digits.take(count));
        assert(is_digit(digits[count]));
        lemma_digits_value_grows(digits, count + 1);
    }
}

proof fn lemma_ascii_text(digits: Seq<u8>, content: Seq<char>)
    requires
        digits.len() == content.len(),
        forall|i: int|
            0 <= i < digits.len() ==> #[trigger] content[i] as u32 == digits[i] as u32 && digits[i]
                < 0x80,
    ensures
        encode_utf8(content) == digits,
    decreases digits.len(),
{
    if digits.len() > 0 {
        let c = content[0];
        let scalar = c as u32;
        lemma_one_byte(scalar);
        assert forall|i: int| 0 <= i < digits.skip(1).len() implies #[trigger] content.skip(
            1,
        )[i] as u32 == digits.skip(1)[i] as u32 && digits.skip(1)[i] < 0x80 by {
            assert(content[i + 1] as u32 == digits[i + 1] as u32);
        }
        lemma_ascii_text(digits.skip(1), content.skip(1));
        assert(content.drop_first() =~= content.skip(1));
        assert(encode_scalar(scalar) =~= seq![digits[0]]);
        assert(encode_utf8(content) =~= seq![digits[0]] + digits.skip(1));
        assert(seq![digits[0]] + digits.skip(1) =~= digits);
    } else {
        assert(encode_utf8(content) =~= digits);
    }
}

proof fn lemma_one_byte(scalar: u32)
    by (bit_vector)
    requires
        scalar < 0x80,
    ensures
        (scalar & 0x7f) as u8 == scalar as u8,
        scalar & 0x7f == scalar,
{
}

proof fn lemma_decimal_digits(digits: Seq<u8>)
    requires
        digits.len() > 0,
        all_digits(digits),
        digits.len() > 1 ==> digits[0] != 0x30,
    ensures
        decimal::decimal_text(digits_value(digits)).len() == digits.len(),
        forall|i: int|
            0 <= i < digits.len() ==> #[trigger] decimal::decimal_text(
                digits_value(digits),
            )[i] as u32 == digits[i] as u32,
        digits.len() > 1 ==> digits_value(digits) >= 10,
    decreases digits.len(),
{
    let value = digits_value(digits);
    let last = digits.last();
    assert(is_digit(digits[digits.len() - 1]));
    let front = digits.drop_last();
    assert(value == digits_value(front) * 10 + (last - 0x30) as nat);
    if digits.len() == 1 {
        assert(front =~= Seq::empty());
        assert(digits_value(front) == 0);
        assert(value < 10);
    } else {
        assert(all_digits(front)) by {
            assert forall|i: int| 0 <= i < front.len() implies is_digit(#[trigger] front[i]) by {
                assert(is_digit(digits[i]));
            }
        }
        assert(front[0] == digits[0]);
        lemma_decimal_digits(front);
        assert(digits_value(front) >= 1) by {
            if front.len() == 1 {
                assert(front.drop_last() =~= Seq::empty());
                assert(is_digit(digits[0]));
            }
        }
        assert(value / 10 == digits_value(front) && value % 10 == (last - 0x30) as nat);
        let all = decimal::decimal_text(value);
        let before = decimal::decimal_text(digits_value(front));
        assert(all == before.push(decimal::decimal_digit(value % 10)));
        assert forall|i: int| 0 <= i < digits.len() implies #[trigger] all[i] as u32
            == digits[i] as u32 by {
            if i < front.len() {
                assert(all[i] == before[i]);
            }
        }
    }
}

/// A plain whole number is the decimal text of its magnitude, behind a minus sign where it has one.
pub proof fn lemma_plain_integer_is_decimal(bytes: Seq<u8>)
    ensures
        plain_integer(bytes) matches Some((negative, magnitude)) ==> bytes == encode_utf8(
            if negative {
                seq!['-'] + decimal::decimal_text(magnitude)
            } else {
                decimal::decimal_text(magnitude)
            },
        ),
{
    if let Some((negative, magnitude)) = plain_integer(bytes) {
        let digits = without_sign(bytes);
        lemma_decimal_digits(digits);
        let text = decimal::decimal_text(magnitude);
        if bytes.len() > 0 && bytes[0] == 0x2d {
            assert(digits.len() != bytes.len());
            let signed = seq!['-'] + text;
            assert forall|i: int| 0 <= i < bytes.len() implies #[trigger] signed[i] as u32
                == bytes[i] as u32 && bytes[i] < 0x80 by {
                if i > 0 {
                    assert(signed[i] == text[i - 1]);
                    assert(digits[i - 1] == bytes[i]);
                    assert(is_digit(digits[i - 1]));
                }
            }
            lemma_ascii_text(bytes, signed);
        } else {
            assert forall|i: int| 0 <= i < bytes.len() implies #[trigger] text[i] as u32
                == bytes[i] as u32 && bytes[i] < 0x80 by {
                assert(is_digit(digits[i]));
            }
            lemma_ascii_text(bytes, text);
        }
    }
}

/// The sign and the magnitude of a plain whole number.
pub fn parse_core_json_machine_plain_integer(bytes: &[u8]) -> (r: Option<(bool, u64)>)
    ensures
        r is Some == (plain_integer(bytes@) is Some),
        r matches Some((negative, magnitude)) ==> plain_integer(bytes@) == Some(
            (negative, magnitude as nat),
        ),
        r matches Some((negative, magnitude)) ==> bytes@ == encode_utf8(
            if negative {
                seq!['-'] + decimal::decimal_text(magnitude as nat)
            } else {
                decimal::decimal_text(magnitude as nat)
            },
        ),
{
    proof {
        lemma_plain_integer_is_decimal(bytes@);
    }
    let negative: bool = bytes.len() > 0 && bytes[0] == 0x2d;
    let start: usize = if negative {
        1
    } else {
        0
    };
    let ghost digits = without_sign(bytes@);
    proof {
        assert(bytes@.skip(0) =~= bytes@);
        assert(digits =~= bytes@.skip(start as int));
        if negative {
            assert(digits.len() != bytes@.len());
        }
    }
    if start == bytes.len() {
        return None;
    }
    if bytes.len() - start > 1 && bytes[start] == 0x30 {
        return None;
    }
    let mut value: u64 = 0;
    let mut i: usize = start;
    assert(digits.take(0) =~= Seq::empty());
    while i < bytes.len()
        invariant
            start <= i <= bytes@.len(),
            digits == bytes@.skip(start as int),
            digits == without_sign(bytes@),
            forall|j: int| 0 <= j < i - start ==> is_digit(#[trigger] digits[j]),
            value == digits_value(digits.take(i - start)),
        decreases bytes@.len() - i,
    {
        assert(digits[i - start] == bytes@[i as int]);
        if !byte_is_digit(bytes[i]) {
            assert(!all_digits(digits));
            return None;
        }
        proof {
            let next = digits.take(i - start + 1);
            assert(next.drop_last() =~= digits.take(i - start));
            assert(next.last() == bytes@[i as int]);
            if all_digits(digits) {
                lemma_digits_value_grows(digits, i - start + 1);
            }
        }
        value = value.checked_mul(10)?.checked_add((bytes[i] - 0x30) as u64)?;
        i = i + 1;
    }
    assert(digits.take(i - start) =~= digits);
    Some((negative, value))
}

/// The bytes behind a run of digits.
pub open spec fn after_digits(rest: Seq<u8>) -> Seq<u8>
    decreases rest.len(),
{
    if rest.len() > 0 && is_digit(rest[0]) {
        after_digits(rest.skip(1))
    } else {
        rest
    }
}

/// The bytes behind at least one digit.
pub open spec fn after_some_digits(rest: Seq<u8>) -> Option<Seq<u8>> {
    if rest.len() > 0 && is_digit(rest[0]) {
        Some(after_digits(rest.skip(1)))
    } else {
        None
    }
}

/// The bytes behind a whole part: a zero, or digits that do not start with one.
pub open spec fn after_whole_part(rest: Seq<u8>) -> Option<Seq<u8>> {
    if rest.len() > 0 && rest[0] == 0x30 {
        Some(rest.skip(1))
    } else {
        after_some_digits(rest)
    }
}

/// The bytes behind a fraction, where there is a point, and whether there is one.
pub open spec fn after_fraction(rest: Seq<u8>) -> Option<(bool, Seq<u8>)> {
    if rest.len() > 0 && rest[0] == 0x2e {
        match after_some_digits(rest.skip(1)) {
            Some(after) => Some((true, after)),
            None => None,
        }
    } else {
        Some((false, rest))
    }
}

/// The bytes behind an exponent, where there is one, and whether there is one.
pub open spec fn after_exponent(rest: Seq<u8>) -> Option<(bool, Seq<u8>)> {
    if rest.len() > 0 && (rest[0] == 0x65 || rest[0] == 0x45) {
        let signed = rest.skip(1);
        let digits = if signed.len() > 0 && (signed[0] == 0x2b || signed[0] == 0x2d) {
            signed.skip(1)
        } else {
            signed
        };
        match after_some_digits(digits) {
            Some(after) => Some((true, after)),
            None => None,
        }
    } else {
        Some((false, rest))
    }
}

/// A JSON number with a fraction or an exponent.
pub open spec fn is_decimal_or_exponent(bytes: Seq<u8>) -> bool {
    match after_whole_part(without_sign(bytes)) {
        None => false,
        Some(at_fraction) => match after_fraction(at_fraction) {
            None => false,
            Some((has_fraction, at_exponent)) => match after_exponent(at_exponent) {
                None => false,
                Some((has_exponent, after)) => (has_fraction || has_exponent) && after.len() == 0,
            },
        },
    }
}

fn skip_digits(bytes: &[u8], start: usize) -> (end: usize)
    requires
        start <= bytes@.len(),
    ensures
        start <= end <= bytes@.len(),
        bytes@.skip(end as int) == after_digits(bytes@.skip(start as int)),
        end == start <==> !(start < bytes@.len() && is_digit(bytes@[start as int])),
{
    let mut cursor: usize = start;
    while cursor < bytes.len() && byte_is_digit(bytes[cursor])
        invariant
            start <= cursor <= bytes@.len(),
            after_digits(bytes@.skip(cursor as int)) == after_digits(bytes@.skip(start as int)),
            cursor > start ==> start < bytes@.len() && is_digit(bytes@[start as int]),
        decreases bytes@.len() - cursor,
    {
        assert(bytes@.skip(cursor as int).skip(1) =~= bytes@.skip(cursor + 1));
        cursor = cursor + 1;
    }
    cursor
}

fn skip_some_digits(bytes: &[u8], start: usize) -> (r: Option<usize>)
    requires
        start <= bytes@.len(),
    ensures
        r is Some == (after_some_digits(bytes@.skip(start as int)) is Some),
        r matches Some(end) ==> end <= bytes@.len() && after_some_digits(bytes@.skip(start as int))
            == Some(bytes@.skip(end as int)),
{
    if start == bytes.len() || !byte_is_digit(bytes[start]) {
        return None;
    }
    assert(bytes@.skip(start as int).skip(1) =~= bytes@.skip(start + 1));
    Some(skip_digits(bytes, start + 1))
}

fn skip_whole_part(bytes: &[u8], start: usize) -> (r: Option<usize>)
    requires
        start <= bytes@.len(),
    ensures
        r is Some == (after_whole_part(bytes@.skip(start as int)) is Some),
        r matches Some(end) ==> end <= bytes@.len() && after_whole_part(bytes@.skip(start as int))
            == Some(bytes@.skip(end as int)),
{
    if start < bytes.len() && bytes[start] == 0x30 {
        assert(bytes@.skip(start as int).skip(1) =~= bytes@.skip(start + 1));
        return Some(start + 1);
    }
    skip_some_digits(bytes, start)
}

fn skip_fraction(bytes: &[u8], start: usize) -> (r: Option<(bool, usize)>)
    requires
        start <= bytes@.len(),
    ensures
        r is Some == (after_fraction(bytes@.skip(start as int)) is Some),
        r matches Some((found, end)) ==> end <= bytes@.len() && after_fraction(
            bytes@.skip(start as int),
        ) == Some((found, bytes@.skip(end as int))),
{
    if start < bytes.len() && bytes[start] == 0x2e {
        assert(bytes@.skip(start as int).skip(1) =~= bytes@.skip(start + 1));
        let end: usize = skip_some_digits(bytes, start + 1)?;
        return Some((true, end));
    }
    Some((false, start))
}

fn skip_exponent(bytes: &[u8], start: usize) -> (r: Option<(bool, usize)>)
    requires
        start <= bytes@.len(),
    ensures
        r is Some == (after_exponent(bytes@.skip(start as int)) is Some),
        r matches Some((found, end)) ==> end <= bytes@.len() && after_exponent(
            bytes@.skip(start as int),
        ) == Some((found, bytes@.skip(end as int))),
{
    if start < bytes.len() && (bytes[start] == 0x65 || bytes[start] == 0x45) {
        assert(bytes@.skip(start as int).skip(1) =~= bytes@.skip(start + 1));
        let mut cursor: usize = start + 1;
        if cursor < bytes.len() && (bytes[cursor] == 0x2b || bytes[cursor] == 0x2d) {
            assert(bytes@.skip(cursor as int).skip(1) =~= bytes@.skip(cursor + 1));
            cursor = cursor + 1;
        }
        let end: usize = skip_some_digits(bytes, cursor)?;
        return Some((true, end));
    }
    Some((false, start))
}

pub fn core_json_machine_decimal_or_exponent_number_is_valid(bytes: &[u8]) -> (r: bool)
    ensures
        r == is_decimal_or_exponent(bytes@),
{
    let start: usize = if bytes.len() > 0 && bytes[0] == 0x2d {
        1
    } else {
        0
    };
    assert(without_sign(bytes@) =~= bytes@.skip(start as int));
    let at_fraction: usize = match skip_whole_part(bytes, start) {
        Some(end) => end,
        None => {
            return false;
        },
    };
    let (has_fraction, at_exponent): (bool, usize) = match skip_fraction(bytes, at_fraction) {
        Some(found) => found,
        None => {
            return false;
        },
    };
    match skip_exponent(bytes, at_exponent) {
        Some((has_exponent, end)) => (has_fraction || has_exponent) && end == bytes.len(),
        None => false,
    }
}

/// What counts as a number in a payload.
pub open spec fn is_machine_number(bytes: Seq<u8>) -> bool {
    plain_integer(bytes) is Some || serde_number(bytes)
}

pub fn core_json_machine_number_is_valid(bytes: &[u8]) -> (r: bool)
    ensures
        r == is_machine_number(bytes@),
        r == (plain_integer(bytes@) is Some || serde_number(bytes@)),
{
    parse_core_json_machine_plain_integer(bytes).is_some() || is_serde_number(bytes)
}

// ---------------------------------------------------------------------------------------------
// The body: reading, the model

/// Length-prefixed bytes, at most `max` of them.
pub open spec fn bytes_at(rest: Seq<u8>, max: nat) -> Option<(Seq<u8>, Seq<u8>)> {
    match codec::u32_at(rest) {
        None => None,
        Some((len, after)) => if len > max || len > after.len() {
            None
        } else {
            Some((after.take(len as int), after.skip(len as int)))
        },
    }
}

#[verifier::opaque]
pub open spec fn string_at(rest: Seq<u8>) -> Option<(Seq<char>, Seq<u8>)> {
    match bytes_at(rest, CORE_JSON_MACHINE_MAX_STRING_LEN as nat) {
        None => None,
        Some((content, after)) => if valid_utf8(content) {
            Some((decode_utf8(content), after))
        } else {
            None
        },
    }
}

pub open spec fn number_at(rest: Seq<u8>) -> Option<(Seq<char>, Seq<u8>)> {
    match bytes_at(rest, CORE_JSON_MACHINE_MAX_NUMBER_LEN as nat) {
        None => None,
        Some((content, after)) => if is_machine_number(content) && valid_utf8(content) {
            Some((decode_utf8(content), after))
        } else {
            None
        },
    }
}

pub open spec fn levels_below(depth: nat) -> nat {
    if depth <= 513 {
        (514 - depth) as nat
    } else {
        0
    }
}

/// The value at the front of `rest`, and what is behind it.
pub open spec fn value_at(rest: Seq<u8>, depth: nat) -> Option<(JsonModel, Seq<u8>)>
    decreases levels_below(depth), 0nat,
{
    if depth > CORE_JSON_MACHINE_MAX_DEPTH || rest.len() == 0 {
        None
    } else {
        let tag = rest[0];
        let after_tag = rest.skip(1);
        if tag == CORE_JSON_TAG_NULL {
            Some((JsonModel::Null, after_tag))
        } else if tag == CORE_JSON_TAG_FALSE {
            Some((JsonModel::Bool(false), after_tag))
        } else if tag == CORE_JSON_TAG_TRUE {
            Some((JsonModel::Bool(true), after_tag))
        } else if tag == CORE_JSON_TAG_NUMBER {
            match number_at(after_tag) {
                None => None,
                Some((number, after)) => Some((JsonModel::Number(number), after)),
            }
        } else if tag == CORE_JSON_TAG_STRING {
            match string_at(after_tag) {
                None => None,
                Some((content, after)) => Some((JsonModel::Text(content), after)),
            }
        } else if tag == CORE_JSON_TAG_ARRAY {
            match codec::u32_at(after_tag) {
                None => None,
                Some((count, at_items)) => match values_at(at_items, count, depth + 1) {
                    None => None,
                    Some((items, after)) => Some((JsonModel::Array(items), after)),
                },
            }
        } else if tag == CORE_JSON_TAG_OBJECT {
            match codec::u32_at(after_tag) {
                None => None,
                Some((count, at_entries)) => match entries_at(at_entries, count, depth + 1) {
                    None => None,
                    Some((entries, after)) => Some((JsonModel::Object(entries), after)),
                },
            }
        } else {
            None
        }
    }
}

pub open spec fn values_at(rest: Seq<u8>, count: nat, depth: nat) -> Option<
    (Seq<JsonModel>, Seq<u8>),
>
    decreases levels_below(depth), count + 1,
{
    if count == 0 {
        Some((Seq::empty(), rest))
    } else {
        match value_at(rest, depth) {
            None => None,
            Some((first, after)) => match values_at(after, (count - 1) as nat, depth) {
                None => None,
                Some((others, end)) => Some((seq![first] + others, end)),
            },
        }
    }
}

pub open spec fn entries_at(rest: Seq<u8>, count: nat, depth: nat) -> Option<
    (Seq<(Seq<char>, JsonModel)>, Seq<u8>),
>
    decreases levels_below(depth), count + 1,
{
    if count == 0 {
        Some((Seq::empty(), rest))
    } else {
        match string_at(rest) {
            None => None,
            Some((key, at_value)) => match value_at(at_value, depth) {
                None => None,
                Some((value, after)) => match entries_at(after, (count - 1) as nat, depth) {
                    None => None,
                    Some((others, end)) => Some((seq![(key, value)] + others, end)),
                },
            },
        }
    }
}

/// The value that a whole body stands for.
pub open spec fn decoded_body(body: Seq<u8>) -> Option<JsonModel> {
    match value_at(body, 0) {
        None => None,
        Some((value, after)) => if after.len() == 0 {
            Some(value)
        } else {
            None
        },
    }
}

proof fn lemma_value_takes_a_byte(rest: Seq<u8>, depth: nat)
    requires
        value_at(rest, depth) is Some,
    ensures
        (value_at(rest, depth)->0).1.len() < rest.len(),
    decreases levels_below(depth), 0nat,
{
    reveal(string_at);
    let tag = rest[0];
    let after_tag = rest.skip(1);
    if tag == CORE_JSON_TAG_ARRAY {
        let (count, at_items) = codec::u32_at(after_tag)->0;
        lemma_values_take_a_byte_each(at_items, count, depth + 1);
    } else if tag == CORE_JSON_TAG_OBJECT {
        let (count, at_entries) = codec::u32_at(after_tag)->0;
        lemma_entries_take_five_bytes_each(at_entries, count, depth + 1);
    }
}

proof fn lemma_values_take_a_byte_each(rest: Seq<u8>, count: nat, depth: nat)
    requires
        values_at(rest, count, depth) is Some,
    ensures
        (values_at(rest, count, depth)->0).1.len() + count <= rest.len(),
    decreases levels_below(depth), count + 1,
{
    if count > 0 {
        lemma_value_takes_a_byte(rest, depth);
        let after = (value_at(rest, depth)->0).1;
        lemma_values_take_a_byte_each(after, (count - 1) as nat, depth);
    }
}

proof fn lemma_entries_take_five_bytes_each(rest: Seq<u8>, count: nat, depth: nat)
    requires
        entries_at(rest, count, depth) is Some,
    ensures
        (entries_at(rest, count, depth)->0).1.len() + 5 * count <= rest.len(),
    decreases levels_below(depth), count + 1,
{
    if count > 0 {
        reveal(string_at);
        let at_value = (string_at(rest)->0).1;
        lemma_value_takes_a_byte(at_value, depth);
        let after = (value_at(at_value, depth)->0).1;
        lemma_entries_take_five_bytes_each(after, (count - 1) as nat, depth);
    }
}

// ---------------------------------------------------------------------------------------------
// The body: reading gives back what was written

/// Whether every number of a value is one that a reader accepts.
pub open spec fn numbers_hold(value: JsonModel) -> bool
    decreases value, 0nat,
{
    match value {
        JsonModel::Number(number) => is_machine_number(encode_utf8(number)),
        JsonModel::Array(items) => items_numbers_hold(items, items.len()),
        JsonModel::Object(entries) => entries_numbers_hold(entries, entries.len()),
        _ => true,
    }
}

pub open spec fn items_numbers_hold(items: Seq<JsonModel>, count: nat) -> bool
    decreases items, count,
{
    if count == 0 || count > items.len() {
        true
    } else {
        items_numbers_hold(items, (count - 1) as nat) && numbers_hold(items[count - 1])
    }
}

pub open spec fn entries_numbers_hold(entries: Seq<(Seq<char>, JsonModel)>, count: nat) -> bool
    decreases entries, count,
{
    if count == 0 || count > entries.len() {
        true
    } else {
        entries_numbers_hold(entries, (count - 1) as nat) && numbers_hold(entries[count - 1].1)
    }
}

/// The encoding of the items from `from` on.
spec fn encoded_items_from(items: Seq<JsonModel>, from: nat) -> Seq<u8>
    decreases items.len() - from,
{
    if from >= items.len() {
        Seq::empty()
    } else {
        encoded_value(items[from as int]) + encoded_items_from(items, from + 1)
    }
}

spec fn encoded_entries_from(entries: Seq<(Seq<char>, JsonModel)>, from: nat) -> Seq<u8>
    decreases entries.len() - from,
{
    if from >= entries.len() {
        Seq::empty()
    } else {
        encoded_bytes(entries[from as int].0) + encoded_value(entries[from as int].1)
            + encoded_entries_from(entries, from + 1)
    }
}

proof fn lemma_encoded_items_from(items: Seq<JsonModel>, from: nat)
    requires
        from <= items.len(),
    ensures
        encoded_values(items, from) + encoded_items_from(items, from) == encoded_values(
            items,
            items.len(),
        ),
    decreases items.len() - from,
{
    if from == items.len() {
        assert(encoded_values(items, from) + encoded_items_from(items, from) =~= encoded_values(
            items,
            from,
        ));
    } else {
        lemma_encoded_items_from(items, from + 1);
        assert(encoded_values(items, from) + encoded_items_from(items, from) =~= encoded_values(
            items,
            from + 1,
        ) + encoded_items_from(items, from + 1));
    }
}

proof fn lemma_encoded_entries_from(entries: Seq<(Seq<char>, JsonModel)>, from: nat)
    requires
        from <= entries.len(),
    ensures
        encoded_entries(entries, from) + encoded_entries_from(entries, from) == encoded_entries(
            entries,
            entries.len(),
        ),
    decreases entries.len() - from,
{
    if from == entries.len() {
        assert(encoded_entries(entries, from) + encoded_entries_from(entries, from)
            =~= encoded_entries(entries, from));
    } else {
        lemma_encoded_entries_from(entries, from + 1);
        assert(encoded_entries(entries, from) + encoded_entries_from(entries, from)
            =~= encoded_entries(entries, from + 1) + encoded_entries_from(entries, from + 1));
    }
}

proof fn lemma_item_fits(items: Seq<JsonModel>, count: nat, depth: nat, i: int)
    requires
        0 <= i < count <= items.len(),
        values_fit(items, count, depth),
        items_numbers_hold(items, count),
    ensures
        value_fits(items[i], depth),
        numbers_hold(items[i]),
    decreases count,
{
    if i < count - 1 {
        lemma_item_fits(items, (count - 1) as nat, depth, i);
    }
}

proof fn lemma_entry_fits(
    entries: Seq<(Seq<char>, JsonModel)>,
    count: nat,
    depth: nat,
    i: int,
)
    requires
        0 <= i < count <= entries.len(),
        entries_fit(entries, count, depth),
        entries_numbers_hold(entries, count),
    ensures
        string_fits(entries[i].0),
        value_fits(entries[i].1, depth),
        numbers_hold(entries[i].1),
    decreases count,
{
    if i < count - 1 {
        lemma_entry_fits(entries, (count - 1) as nat, depth, i);
    }
}

proof fn lemma_bytes_round_trip(content: Seq<char>, max: nat, after: Seq<u8>)
    requires
        encode_utf8(content).len() <= max <= u32::MAX,
    ensures
        bytes_at(encoded_bytes(content) + after, max) == Some((encode_utf8(content), after)),
        valid_utf8(encode_utf8(content)),
        decode_utf8(encode_utf8(content)) == content,
{
    let body = encode_utf8(content);
    codec::lemma_u32_round_trip(body.len(), body + after);
    assert(encoded_bytes(content) + after =~= codec::le32(body.len()) + (body + after));
    assert((body + after).take(body.len() as int) =~= body);
    assert((body + after).skip(body.len() as int) =~= after);
    encode_utf8_valid_utf8(content);
    encode_utf8_decode_utf8(content);
}

proof fn lemma_string_round_trip(content: Seq<char>, after: Seq<u8>)
    requires
        string_fits(content),
    ensures
        string_at(encoded_bytes(content) + after) == Some((content, after)),
{
    reveal(string_at);
    lemma_bytes_round_trip(content, CORE_JSON_MACHINE_MAX_STRING_LEN as nat, after);
}

/// Reading a value gives back the value that was written, and leaves what follows.
#[verifier::spinoff_prover]
#[verifier::rlimit(40)]
pub proof fn lemma_value_round_trip(value: JsonModel, depth: nat, after: Seq<u8>)
    requires
        value_fits(value, depth),
        numbers_hold(value),
    ensures
        value_at(encoded_value(value) + after, depth) == Some((value, after)),
    decreases value, 0nat,
{
    let whole = encoded_value(value) + after;
    match value {
        JsonModel::Null => {
            assert(whole.skip(1) =~= after);
        },
        JsonModel::Bool(flag) => {
            assert(whole.skip(1) =~= after);
        },
        JsonModel::Number(number) => {
            assert(whole.skip(1) =~= encoded_bytes(number) + after);
            lemma_bytes_round_trip(number, CORE_JSON_MACHINE_MAX_NUMBER_LEN as nat, after);
        },
        JsonModel::Text(content) => {
            assert(whole.skip(1) =~= encoded_bytes(content) + after);
            lemma_string_round_trip(content, after);
        },
        JsonModel::Array(items) => {
            let tail = encoded_items_from(items, 0);
            lemma_encoded_items_from(items, 0);
            assert(encoded_values(items, 0) + tail =~= tail);
            assert(whole.skip(1) =~= codec::le32(items.len()) + (tail + after));
            codec::lemma_u32_round_trip(items.len(), tail + after);
            lemma_items_round_trip(items, 0, depth + 1, after);
            assert(items.skip(0) =~= items);
        },
        JsonModel::Object(entries) => {
            let tail = encoded_entries_from(entries, 0);
            lemma_encoded_entries_from(entries, 0);
            assert(encoded_entries(entries, 0) + tail =~= tail);
            assert(whole.skip(1) =~= codec::le32(entries.len()) + (tail + after));
            codec::lemma_u32_round_trip(entries.len(), tail + after);
            lemma_entries_round_trip(entries, 0, depth + 1, after);
            assert(entries.skip(0) =~= entries);
        },
    }
}

proof fn lemma_items_round_trip(items: Seq<JsonModel>, from: nat, depth: nat, after: Seq<u8>)
    requires
        from <= items.len(),
        values_fit(items, items.len(), depth),
        items_numbers_hold(items, items.len()),
    ensures
        values_at(
            encoded_items_from(items, from) + after,
            (items.len() - from) as nat,
            depth,
        ) == Some((items.skip(from as int), after)),
    decreases items, items.len() - from,
{
    if from == items.len() {
        assert(encoded_items_from(items, from) + after =~= after);
        assert(items.skip(from as int) =~= Seq::empty());
    } else {
        let rest = encoded_items_from(items, from + 1);
        assert(encoded_items_from(items, from) + after =~= encoded_value(items[from as int]) + (rest
            + after));
        lemma_item_fits(items, items.len(), depth, from as int);
        lemma_value_round_trip(items[from as int], depth, rest + after);
        lemma_items_round_trip(items, from + 1, depth, after);
        assert(seq![items[from as int]] + items.skip(from as int + 1) =~= items.skip(from as int));
    }
}

proof fn lemma_entries_round_trip(
    entries: Seq<(Seq<char>, JsonModel)>,
    from: nat,
    depth: nat,
    after: Seq<u8>,
)
    requires
        from <= entries.len(),
        entries_fit(entries, entries.len(), depth),
        entries_numbers_hold(entries, entries.len()),
    ensures
        entries_at(
            encoded_entries_from(entries, from) + after,
            (entries.len() - from) as nat,
            depth,
        ) == Some((entries.skip(from as int), after)),
    decreases entries, entries.len() - from,
{
    if from == entries.len() {
        assert(encoded_entries_from(entries, from) + after =~= after);
        assert(entries.skip(from as int) =~= Seq::empty());
    } else {
        let rest = encoded_entries_from(entries, from + 1);
        let key = entries[from as int].0;
        let value = entries[from as int].1;
        assert(encoded_entries_from(entries, from) + after =~= encoded_bytes(key) + (encoded_value(
            value,
        ) + (rest + after)));
        lemma_entry_fits(entries, entries.len(), depth, from as int);
        lemma_string_round_trip(key, encoded_value(value) + (rest + after));
        lemma_value_round_trip(value, depth, rest + after);
        lemma_entries_round_trip(entries, from + 1, depth, after);
        assert(seq![(key, value)] + entries.skip(from as int + 1) =~= entries.skip(from as int));
    }
}

// ---------------------------------------------------------------------------------------------
// The body: writing

fn push_core_json_count(output: &mut Vec<u8>, len: usize) -> (r: Option<()>)
    ensures
        r is Some == (len <= u32::MAX),
        r is Some ==> final(output)@ == old(output)@ + codec::le32(len as nat),
{
    if len as u64 > u32::MAX as u64 {
        return None;
    }
    write_u32(output, len as u32);
    Some(())
}

/// Appends a text behind its length, unless it is longer than `max_len` bytes or its length takes
/// more than 32 bits.
pub fn push_core_json_len_prefixed_bytes_bounded(output: &mut Vec<u8>, content: &str, max_len: usize) -> (r:
    Option<()>)
    ensures
        r is Some == (encode_utf8(content@).len() <= max_len && encode_utf8(content@).len()
            <= u32::MAX),
        r is Some ==> final(output)@ == old(output)@ + encoded_bytes(content@),
        r is None ==> final(output)@ == old(output)@,
{
    let bytes: &[u8] = content.as_bytes();
    if bytes.len() > max_len || bytes.len() as u64 > u32::MAX as u64 {
        return None;
    }
    write_u32(output, bytes.len() as u32);
    write_bytes(output, bytes);
    assert(output@ =~= old(output)@ + encoded_bytes(content@));
    Some(())
}

proof fn lemma_first_items(items: Seq<JsonModel>, count: nat, depth: nat)
    requires
        count <= items.len(),
    ensures
        values_fit(items, items.len(), depth) ==> values_fit(items, count, depth),
    decreases items.len() - count,
{
    if count < items.len() {
        lemma_first_items(items, count + 1, depth);
    }
}

proof fn lemma_first_entries(entries: Seq<(Seq<char>, JsonModel)>, count: nat, depth: nat)
    requires
        count <= entries.len(),
    ensures
        entries_fit(entries, entries.len(), depth) ==> entries_fit(entries, count, depth),
    decreases entries.len() - count,
{
    if count < entries.len() {
        lemma_first_entries(entries, count + 1, depth);
    }
}

fn encode_core_json_items(items: &Vec<JsonValue>, output: &mut Vec<u8>, depth: u16) -> (r: Option<
    (),
>)
    requires
        depth <= CORE_JSON_MACHINE_MAX_DEPTH + 1,
    ensures
        ({
            let models = json_models(items@, items@.len());
            &&& r is Some == values_fit(models, models.len(), depth as nat)
            &&& r is Some ==> final(output)@ == old(output)@ + encoded_values(
                models,
                models.len(),
            )
        }),
    decreases items, 1nat,
{
    let ghost models = json_models(items@, items@.len());
    let mut i: usize = 0;
    proof {
        lemma_json_models(items@, items@.len());
        assert(output@ =~= old(output)@ + encoded_values(models, 0));
    }
    while i < items.len()
        invariant
            i <= items.len(),
            depth <= CORE_JSON_MACHINE_MAX_DEPTH + 1,
            models == json_models(items@, items@.len()),
            models.len() == items.len(),
            forall|j: int| 0 <= j < items.len() ==> #[trigger] models[j] == json_model(items@[j]),
            values_fit(models, i as nat, depth as nat),
            output@ == old(output)@ + encoded_values(models, i as nat),
        decreases items.len() - i,
    {
        let ghost before = output@;
        proof {
            lemma_first_items(models, (i + 1) as nat, depth as nat);
            assert(models[i as int] == json_model(items@[i as int]));
        }
        encode_core_json_value_at_depth(&items[i], output, depth)?;
        assert(output@ =~= old(output)@ + encoded_values(models, (i + 1) as nat));
        i = i + 1;
    }
    Some(())
}

fn encode_core_json_entries(
    entries: &Vec<(String, JsonValue)>,
    output: &mut Vec<u8>,
    depth: u16,
) -> (r: Option<()>)
    requires
        depth <= CORE_JSON_MACHINE_MAX_DEPTH + 1,
    ensures
        ({
            let models = entry_models(entries@, entries@.len());
            &&& r is Some == entries_fit(models, models.len(), depth as nat)
            &&& r is Some ==> final(output)@ == old(output)@ + encoded_entries(
                models,
                models.len(),
            )
        }),
    decreases entries, 1nat,
{
    let ghost models = entry_models(entries@, entries@.len());
    let mut i: usize = 0;
    proof {
        lemma_entry_models(entries@, entries@.len());
        assert(output@ =~= old(output)@ + encoded_entries(models, 0));
    }
    while i < entries.len()
        invariant
            i <= entries.len(),
            depth <= CORE_JSON_MACHINE_MAX_DEPTH + 1,
            models == entry_models(entries@, entries@.len()),
            models.len() == entries.len(),
            forall|j: int|
                0 <= j < entries.len() ==> #[trigger] models[j] == (
                    entries@[j].0@,
                    json_model(entries@[j].1),
                ),
            entries_fit(models, i as nat, depth as nat),
            output@ == old(output)@ + encoded_entries(models, i as nat),
        decreases entries.len() - i,
    {
        proof {
            lemma_first_entries(models, (i + 1) as nat, depth as nat);
            assert(models[i as int] == (
                entries@[i as int].0@,
                json_model(entries@[i as int].1),
            ));
        }
        push_core_json_len_prefixed_bytes_bounded(
            output,
            entries[i].0.as_str(),
            CORE_JSON_MACHINE_MAX_STRING_LEN,
        )?;
        encode_core_json_value_at_depth(&entries[i].1, output, depth)?;
        assert(output@ =~= old(output)@ + encoded_entries(models, (i + 1) as nat));
        i = i + 1;
    }
    Some(())
}

pub fn encode_core_json_value_at_depth(value: &JsonValue, output: &mut Vec<u8>, depth: u16) -> (r:
    Option<()>)
    ensures
        r is Some == value_fits(value@, depth as nat),
        r is Some ==> final(output)@ == old(output)@ + encoded_value(value@),
    decreases value, 0nat,
{
    if depth > CORE_JSON_MACHINE_MAX_DEPTH {
        return None;
    }
    match value {
        JsonValue::Null => {
            output.push(CORE_JSON_TAG_NULL);
        },
        JsonValue::Bool(flag) => {
            output.push(
                if *flag {
                    CORE_JSON_TAG_TRUE
                } else {
                    CORE_JSON_TAG_FALSE
                },
            );
        },
        JsonValue::Number(number) => {
            output.push(CORE_JSON_TAG_NUMBER);
            push_core_json_len_prefixed_bytes_bounded(
                output,
                number.as_str(),
                CORE_JSON_MACHINE_MAX_NUMBER_LEN,
            )?;
        },
        JsonValue::Text(content) => {
            output.push(CORE_JSON_TAG_STRING);
            push_core_json_len_prefixed_bytes_bounded(
                output,
                content.as_str(),
                CORE_JSON_MACHINE_MAX_STRING_LEN,
            )?;
        },
        JsonValue::Array(items) => {
            proof {
                lemma_json_models(items@, items@.len());
            }
            output.push(CORE_JSON_TAG_ARRAY);
            push_core_json_count(output, items.len())?;
            encode_core_json_items(items, output, depth + 1)?;
        },
        JsonValue::Object(entries) => {
            proof {
                lemma_entry_models(entries@, entries@.len());
            }
            output.push(CORE_JSON_TAG_OBJECT);
            push_core_json_count(output, entries.len())?;
            encode_core_json_entries(entries, output, depth + 1)?;
        },
    }
    assert(output@ =~= old(output)@ + encoded_value(value@));
    Some(())
}

/// Appends the body of a value.
pub fn encode_core_json_value(value: &JsonValue, output: &mut Vec<u8>) -> (r: Option<()>)
    ensures
        r is Some == value_fits(value@, 0),
        r is Some ==> final(output)@ == old(output)@ + encoded_value(value@),
{
    encode_core_json_value_at_depth(value, output, 0)
}

/// The room that a text takes behind its length, where it is not longer than `max_len` bytes.
fn core_json_len_prefixed_capacity(content: &str, max_len: usize) -> (r: Option<usize>)
    requires
        max_len <= CORE_JSON_MACHINE_MAX_STRING_LEN,
    ensures
        r is Some == (encode_utf8(content@).len() <= max_len),
        r matches Some(len) ==> len == encoded_bytes(content@).len(),
{
    let len: usize = content.as_bytes().len();
    if len > max_len {
        None
    } else {
        Some(len + 4)
    }
}

proof fn lemma_first_values_are_no_longer(items: Seq<JsonModel>, count: nat)
    requires
        count <= items.len(),
    ensures
        encoded_values(items, count).len() <= encoded_values(items, items.len()).len(),
    decreases items.len() - count,
{
    if count < items.len() {
        lemma_first_values_are_no_longer(items, count + 1);
    }
}

proof fn lemma_first_entries_are_no_longer(entries: Seq<(Seq<char>, JsonModel)>, count: nat)
    requires
        count <= entries.len(),
    ensures
        encoded_entries(entries, count).len() <= encoded_entries(entries, entries.len()).len(),
    decreases entries.len() - count,
{
    if count < entries.len() {
        lemma_first_entries_are_no_longer(entries, count + 1);
    }
}

fn core_json_items_capacity(items: &Vec<JsonValue>, depth: u16) -> (r: Option<usize>)
    requires
        depth <= CORE_JSON_MACHINE_MAX_DEPTH + 1,
    ensures
        ({
            let models = json_models(items@, items@.len());
            &&& r is Some == (values_fit(models, models.len(), depth as nat) && encoded_values(
                models,
                models.len(),
            ).len() + 5 <= usize::MAX)
            &&& r matches Some(len) ==> len == encoded_values(models, models.len()).len() + 5
        }),
    decreases items, 1nat,
{
    let ghost models = json_models(items@, items@.len());
    let mut len: usize = 5;
    let mut i: usize = 0;
    proof {
        lemma_json_models(items@, items@.len());
    }
    while i < items.len()
        invariant
            i <= items.len(),
            depth <= CORE_JSON_MACHINE_MAX_DEPTH + 1,
            models == json_models(items@, items@.len()),
            models.len() == items.len(),
            forall|j: int| 0 <= j < items.len() ==> #[trigger] models[j] == json_model(items@[j]),
            values_fit(models, i as nat, depth as nat),
            len == encoded_values(models, i as nat).len() + 5,
        decreases items.len() - i,
    {
        proof {
            lemma_first_items(models, (i + 1) as nat, depth as nat);
            lemma_first_values_are_no_longer(models, (i + 1) as nat);
            assert(models[i as int] == json_model(items@[i as int]));
        }
        let own: usize = core_json_machine_payload_body_capacity_at_depth(&items[i], depth)?;
        len = len.checked_add(own)?;
        i = i + 1;
    }
    Some(len)
}

fn core_json_entries_capacity(entries: &Vec<(String, JsonValue)>, depth: u16) -> (r: Option<usize>)
    requires
        depth <= CORE_JSON_MACHINE_MAX_DEPTH + 1,
    ensures
        ({
            let models = entry_models(entries@, entries@.len());
            &&& r is Some == (entries_fit(models, models.len(), depth as nat) && encoded_entries(
                models,
                models.len(),
            ).len() + 5 <= usize::MAX)
            &&& r matches Some(len) ==> len == encoded_entries(models, models.len()).len() + 5
        }),
    decreases entries, 1nat,
{
    let ghost models = entry_models(entries@, entries@.len());
    let mut len: usize = 5;
    let mut i: usize = 0;
    proof {
        lemma_entry_models(entries@, entries@.len());
    }
    while i < entries.len()
        invariant
            i <= entries.len(),
            depth <= CORE_JSON_MACHINE_MAX_DEPTH + 1,
            models == entry_models(entries@, entries@.len()),
            models.len() == entries.len(),
            forall|j: int|
                0 <= j < entries.len() ==> #[trigger] models[j] == (
                    entries@[j].0@,
                    json_model(entries@[j].1),
                ),
            entries_fit(models, i as nat, depth as nat),
            len == encoded_entries(models, i as nat).len() + 5,
        decreases entries.len() - i,
    {
        proof {
            lemma_first_entries(models, (i + 1) as nat, depth as nat);
            lemma_first_entries_are_no_longer(models, (i + 1) as nat);
            assert(models[i as int] == (
                entries@[i as int].0@,
                json_model(entries@[i as int].1),
            ));
        }
        let key: usize = core_json_len_prefixed_capacity(
            entries[i].0.as_str(),
            CORE_JSON_MACHINE_MAX_STRING_LEN,
        )?;
        len = len.checked_add(key)?;
        let own: usize = core_json_machine_payload_body_capacity_at_depth(&entries[i].1, depth)?;
        len = len.checked_add(own)?;
        i = i + 1;
    }
    Some(len)
}

/// The room that the body of a value takes, where the value is within the limits of the format.
pub fn core_json_machine_payload_body_capacity_at_depth(value: &JsonValue, depth: u16) -> (r: Option<
    usize,
>)
    ensures
        r is Some == (value_fits(value@, depth as nat) && encoded_value(value@).len() <= usize::MAX),
        r matches Some(len) ==> len == encoded_value(value@).len(),
    decreases value, 0nat,
{
    if depth > CORE_JSON_MACHINE_MAX_DEPTH {
        return None;
    }
    match value {
        JsonValue::Null => Some(1),
        JsonValue::Bool(_) => Some(1),
        JsonValue::Number(number) => {
            let len: usize = core_json_len_prefixed_capacity(
                number.as_str(),
                CORE_JSON_MACHINE_MAX_NUMBER_LEN,
            )?;
            Some(len + 1)
        },
        JsonValue::Text(content) => {
            let len: usize = core_json_len_prefixed_capacity(
                content.as_str(),
                CORE_JSON_MACHINE_MAX_STRING_LEN,
            )?;
            Some(len + 1)
        },
        JsonValue::Array(items) => {
            proof {
                lemma_json_models(items@, items@.len());
            }
            if items.len() as u64 > u32::MAX as u64 {
                return None;
            }
            core_json_items_capacity(items, depth + 1)
        },
        JsonValue::Object(entries) => {
            proof {
                lemma_entry_models(entries@, entries@.len());
            }
            if entries.len() as u64 > u32::MAX as u64 {
                return None;
            }
            core_json_entries_capacity(entries, depth + 1)
        },
    }
}

/// The room that the body of a value takes: as much as the encoder writes, where it writes it.
pub fn core_json_machine_payload_body_capacity(value: &JsonValue) -> (r: Option<usize>)
    ensures
        r is Some == (value_fits(value@, 0) && encoded_value(value@).len() <= usize::MAX),
        r matches Some(len) ==> len == encoded_value(value@).len(),
{
    core_json_machine_payload_body_capacity_at_depth(value, 0)
}

// ---------------------------------------------------------------------------------------------
// The body: reading

/// A reader on its way through a body.
#[derive(Debug)]
pub struct CoreJsonMachineReader<'a> {
    pub bytes: &'a [u8],
    pub offset: usize,
}

impl<'a> CoreJsonMachineReader<'a> {
    pub open spec fn well_formed(&self) -> bool {
        self.offset <= self.bytes@.len()
    }

    /// What is still to be read.
    pub open spec fn rest(&self) -> Seq<u8> {
        self.bytes@.skip(self.offset as int)
    }

    pub fn new(bytes: &'a [u8]) -> (reader: Self)
        ensures
            reader.well_formed(),
            reader.rest() == bytes@,
    {
        assert(bytes@.skip(0) =~= bytes@);
        CoreJsonMachineReader { bytes, offset: 0 }
    }

    pub fn is_finished(&self) -> (r: bool)
        requires
            self.well_formed(),
        ensures
            r == (self.rest().len() == 0),
    {
        self.offset == self.bytes.len()
    }

    pub fn remaining(&self) -> (r: usize)
        requires
            self.well_formed(),
        ensures
            r == self.rest().len(),
    {
        self.bytes.len() - self.offset
    }

    pub fn read_u8(&mut self) -> (r: Option<u8>)
        requires
            old(self).well_formed(),
        ensures
            final(self).well_formed(),
            r is Some == (old(self).rest().len() > 0),
            r matches Some(byte) ==> byte == old(self).rest()[0] && final(self).rest() == old(
                self,
            ).rest().skip(1),
    {
        if self.offset == self.bytes.len() {
            return None;
        }
        let byte: u8 = self.bytes[self.offset];
        self.offset = self.offset + 1;
        assert(self.rest() =~= old(self).rest().skip(1));
        Some(byte)
    }

    pub fn read_count(&mut self) -> (r: Option<usize>)
        requires
            old(self).well_formed(),
        ensures
            final(self).well_formed(),
            r is Some == (codec::u32_at(old(self).rest()) is Some),
            r matches Some(count) ==> codec::u32_at(old(self).rest()) == Some(
                (count as nat, final(self).rest()),
            ),
    {
        let mut cursor: usize = self.offset;
        let count: u32 = codec::read_u32(self.bytes, &mut cursor)?;
        self.offset = cursor;
        Some(count as usize)
    }

    pub fn read_len_prefixed_bytes(&mut self, max_len: usize) -> (r: Option<Vec<u8>>)
        requires
            old(self).well_formed(),
        ensures
            final(self).well_formed(),
            r is Some == (bytes_at(old(self).rest(), max_len as nat) is Some),
            r matches Some(content) ==> bytes_at(old(self).rest(), max_len as nat) == Some(
                (content@, final(self).rest()),
            ),
    {
        let len: usize = self.read_count()?;
        let total: usize = self.bytes.len();
        if len > max_len || len > total - self.offset {
            return None;
        }
        let start: usize = self.offset;
        let end: usize = start + len;
        let ghost before = self.rest();
        let content: Vec<u8> = copy_range(self.bytes, start, end);
        self.offset = end;
        proof {
            assert(content@ =~= before.take(len as int));
            assert(self.rest() =~= before.skip(len as int));
        }
        Some(content)
    }

    pub fn read_len_prefixed_string(&mut self) -> (r: Option<String>)
        requires
            old(self).well_formed(),
        ensures
            final(self).well_formed(),
            r is Some == (string_at(old(self).rest()) is Some),
            r matches Some(content) ==> string_at(old(self).rest()) == Some(
                (content@, final(self).rest()),
            ),
    {
        proof {
            reveal(string_at);
        }
        let bytes: Vec<u8> = self.read_len_prefixed_bytes(CORE_JSON_MACHINE_MAX_STRING_LEN)?;
        utf8_text(bytes.as_slice())
    }

    fn read_number(&mut self) -> (r: Option<String>)
        requires
            old(self).well_formed(),
        ensures
            final(self).well_formed(),
            r is Some == (number_at(old(self).rest()) is Some),
            r matches Some(content) ==> number_at(old(self).rest()) == Some(
                (content@, final(self).rest()),
            ),
    {
        let bytes: Vec<u8> = self.read_len_prefixed_bytes(CORE_JSON_MACHINE_MAX_NUMBER_LEN)?;
        if !core_json_machine_number_is_valid(bytes.as_slice()) {
            return None;
        }
        utf8_text(bytes.as_slice())
    }

    fn read_items(&mut self, count: usize, depth: u16) -> (r: Option<Vec<JsonValue>>)
        requires
            old(self).well_formed(),
            0 < depth <= CORE_JSON_MACHINE_MAX_DEPTH + 1,
        ensures
            final(self).well_formed(),
            r is Some == (values_at(old(self).rest(), count as nat, depth as nat) is Some),
            r matches Some(items) ==> values_at(old(self).rest(), count as nat, depth as nat)
                == Some((json_models(items@, items@.len()), final(self).rest())),
        decreases levels_below(depth as nat), 1nat,
    {
        let ghost start = self.rest();
        if count > self.remaining() {
            proof {
                if values_at(start, count as nat, depth as nat) is Some {
                    lemma_values_take_a_byte_each(start, count as nat, depth as nat);
                }
            }
            return None;
        }
        let mut items: Vec<JsonValue> = Vec::with_capacity(count);
        let mut i: usize = 0;
        let ghost whole = values_at(start, count as nat, depth as nat);
        proof {
            if whole is Some {
                assert(Seq::<JsonModel>::empty() + (whole->0).0 =~= (whole->0).0);
            }
        }
        while i < count
            invariant
                i <= count,
                0 < depth <= CORE_JSON_MACHINE_MAX_DEPTH + 1,
                self.well_formed(),
                items.len() == i,
                start == old(self).rest(),
                whole == values_at(start, count as nat, depth as nat),
                whole is Some == (values_at(
                    self.rest(),
                    (count - i) as nat,
                    depth as nat,
                ) is Some),
                whole is Some ==> {
                    let tail = values_at(self.rest(), (count - i) as nat, depth as nat)->0;
                    whole == Some((json_models(items@, i as nat) + tail.0, tail.1))
                },
            decreases count - i,
        {
            let ghost before = items@;
            let value: JsonValue = self.read_value(depth)?;
            items.push(value);
            proof {
                lemma_json_models(before, i as nat);
                lemma_json_models(items@, (i + 1) as nat);
                assert(json_models(items@, (i + 1) as nat) =~= json_models(before, i as nat).push(
                    value@,
                ));
                let tail = values_at(self.rest(), (count - i - 1) as nat, depth as nat);
                if tail is Some {
                    assert(json_models(before, i as nat) + (seq![value@] + (tail->0).0)
                        =~= json_models(items@, (i + 1) as nat) + (tail->0).0);
                }
            }
            i = i + 1;
        }
        proof {
            assert(json_models(items@, i as nat) + Seq::<JsonModel>::empty() =~= json_models(
                items@,
                i as nat,
            ));
        }
        Some(items)
    }

    fn read_entries(&mut self, count: usize, depth: u16) -> (r: Option<Vec<(String, JsonValue)>>)
        requires
            old(self).well_formed(),
            0 < depth <= CORE_JSON_MACHINE_MAX_DEPTH + 1,
        ensures
            final(self).well_formed(),
            r is Some == (entries_at(old(self).rest(), count as nat, depth as nat) is Some),
            r matches Some(entries) ==> entries_at(old(self).rest(), count as nat, depth as nat)
                == Some((entry_models(entries@, entries@.len()), final(self).rest())),
        decreases levels_below(depth as nat), 1nat,
    {
        let ghost start = self.rest();
        if count > self.remaining() / 5 {
            proof {
                if entries_at(start, count as nat, depth as nat) is Some {
                    lemma_entries_take_five_bytes_each(start, count as nat, depth as nat);
                }
            }
            return None;
        }
        let mut entries: Vec<(String, JsonValue)> = Vec::with_capacity(count);
        let mut i: usize = 0;
        let ghost whole = entries_at(start, count as nat, depth as nat);
        proof {
            if whole is Some {
                assert(Seq::<(Seq<char>, JsonModel)>::empty() + (whole->0).0 =~= (whole->0).0);
            }
        }
        while i < count
            invariant
                i <= count,
                0 < depth <= CORE_JSON_MACHINE_MAX_DEPTH + 1,
                self.well_formed(),
                entries.len() == i,
                start == old(self).rest(),
                whole == entries_at(start, count as nat, depth as nat),
                whole is Some == (entries_at(
                    self.rest(),
                    (count - i) as nat,
                    depth as nat,
                ) is Some),
                whole is Some ==> {
                    let tail = entries_at(self.rest(), (count - i) as nat, depth as nat)->0;
                    whole == Some((entry_models(entries@, i as nat) + tail.0, tail.1))
                },
            decreases count - i,
        {
            let ghost before = entries@;
            let key: String = self.read_len_prefixed_string()?;
            let value: JsonValue = self.read_value(depth)?;
            let ghost entry = (key@, value@);
            entries.push((key, value));
            proof {
                lemma_entry_models(before, i as nat);
                lemma_entry_models(entries@, (i + 1) as nat);
                assert(entry_models(entries@, (i + 1) as nat) =~= entry_models(
                    before,
                    i as nat,
                ).push(entry));
                let tail = entries_at(self.rest(), (count - i - 1) as nat, depth as nat);
                if tail is Some {
                    assert(entry_models(before, i as nat) + (seq![entry] + (tail->0).0)
                        =~= entry_models(entries@, (i + 1) as nat) + (tail->0).0);
                }
            }
            i = i + 1;
        }
        proof {
            assert(entry_models(entries@, i as nat) + Seq::<(Seq<char>, JsonModel)>::empty()
                =~= entry_models(entries@, i as nat));
        }
        Some(entries)
    }

    pub fn read_value(&mut self, depth: u16) -> (r: Option<JsonValue>)
        requires
            old(self).well_formed(),
        ensures
            final(self).well_formed(),
            r is Some == (value_at(old(self).rest(), depth as nat) is Some),
            r matches Some(value) ==> value_at(old(self).rest(), depth as nat) == Some(
                (value@, final(self).rest()),
            ),
        decreases levels_below(depth as nat), 0nat,
    {
        if depth > CORE_JSON_MACHINE_MAX_DEPTH {
            return None;
        }
        let tag: u8 = self.read_u8()?;
        if tag == CORE_JSON_TAG_NULL {
            Some(JsonValue::Null)
        } else if tag == CORE_JSON_TAG_FALSE {
            Some(JsonValue::Bool(false))
        } else if tag == CORE_JSON_TAG_TRUE {
            Some(JsonValue::Bool(true))
        } else if tag == CORE_JSON_TAG_NUMBER {
            let number: String = self.read_number()?;
            Some(JsonValue::Number(number))
        } else if tag == CORE_JSON_TAG_STRING {
            let content: String = self.read_len_prefixed_string()?;
            Some(JsonValue::Text(content))
        } else if tag == CORE_JSON_TAG_ARRAY {
            let count: usize = self.read_count()?;
            let items: Vec<JsonValue> = self.read_items(count, depth + 1)?;
            Some(JsonValue::Array(items))
        } else if tag == CORE_JSON_TAG_OBJECT {
            let count: usize = self.read_count()?;
            let entries: Vec<(String, JsonValue)> = self.read_entries(count, depth + 1)?;
            Some(JsonValue::Object(entries))
        } else {
            None
        }
    }
}

pub open spec fn opt_value(value: Option<JsonValue>) -> Option<JsonModel> {
    match value {
        Some(present) => Some(present@),
        None => None,
    }
}

pub fn decode_core_json_machine_body_to_value(body: &[u8]) -> (r: Option<JsonValue>)
    ensures
        opt_value(r) == decoded_body(body@),
{
    let mut reader = CoreJsonMachineReader::new(body);
    let value: JsonValue = reader.read_value(0)?;
    if reader.is_finished() {
        Some(value)
    } else {
        None
    }
}

// ---------------------------------------------------------------------------------------------
// The payload

/// `RDXCJSN3`.
pub open spec fn core_json_magic() -> Seq<u8> {
    seq![0x52u8, 0x44, 0x58, 0x43, 0x4a, 0x53, 0x4e, 0x33]
}

/// Magic, the digest of the source, the digest of the body, the body.
pub open spec fn encoded_payload(source_hash: Seq<u8>, body: Seq<u8>) -> Seq<u8> {
    core_json_magic() + (source_hash + (digest::blake3_digest(body) + body))
}

/// The payload formats that a reader knows.
#[derive(Debug, Clone, Copy, PartialEq, Eq, Structural)]
pub enum CoreJsonMachineMagic {
    Legacy,
}

impl CoreJsonMachineMagic {
    pub fn header_len(self) -> (len: usize)
        ensures
            len == CORE_JSON_MACHINE_HEADER_LEN,
    {
        match self {
            CoreJsonMachineMagic::Legacy => CORE_JSON_MACHINE_HEADER_LEN,
        }
    }
}

pub fn core_json_machine_magic_bytes() -> (magic: [u8; 8])
    ensures
        magic@ == core_json_magic(),
{
    let magic: [u8; 8] = [0x52, 0x44, 0x58, 0x43, 0x4a, 0x53, 0x4e, 0x33];
    assert(magic@ =~= core_json_magic());
    magic
}

pub fn core_json_machine_magic(machine_bytes: &[u8]) -> (r: Option<CoreJsonMachineMagic>)
    ensures
        r == if core_json_magic().is_prefix_of(machine_bytes@) {
            Some(CoreJsonMachineMagic::Legacy)
        } else {
            None
        },
{
    let magic: [u8; 8] = core_json_machine_magic_bytes();
    if starts_with_bytes(machine_bytes, magic.as_slice()) {
        Some(CoreJsonMachineMagic::Legacy)
    } else {
        None
    }
}

fn range_matches(bytes: &[u8], start: usize, expected: &[u8; 32]) -> (r: bool)
    requires
        start + 32 <= bytes@.len(),
    ensures
        r == (bytes@.subrange(start as int, start + 32) == expected@),
{
    let total: usize = bytes.len();
    let mut i: usize = 0;
    while i < 32
        invariant
            i <= 32,
            start + 32 <= total == bytes@.len(),
            expected@.len() == 32,
            forall|j: int| 0 <= j < i ==> #[trigger] expected@[j] == bytes@[start + j],
        decreases 32 - i,
    {
        if bytes[start + i] != expected[i] {
            assert(bytes@.subrange(start as int, start + 32)[i as int] == bytes@[start + i]);
            return false;
        }
        i = i + 1;
    }
    assert(bytes@.subrange(start as int, start + 32) =~= expected@);
    true
}

pub open spec fn header_names_source(header: Seq<u8>, source_hash: Seq<u8>) -> bool {
    header.len() >= CORE_JSON_MACHINE_HEADER_LEN && header.subrange(8, 40) == source_hash
}

pub fn core_json_machine_header_source_hash_matches(header: &[u8], source_hash: &[u8; 32]) -> (r:
    bool)
    ensures
        r == header_names_source(header@, source_hash@),
        r == (header@.len() >= 72 && header@.subrange(8, 40) == source_hash@),
{
    header.len() >= CORE_JSON_MACHINE_HEADER_LEN && range_matches(header, 8, source_hash)
}

pub fn core_json_machine_header_matches_source_hash(header: &[u8], source_hash: &[u8; 32]) -> (r:
    bool)
    ensures
        r == (core_json_magic().is_prefix_of(header@) && header_names_source(
            header@,
            source_hash@,
        )),
        r == (core_json_magic().is_prefix_of(header@) && header@.len() >= 72 && header@.subrange(
            8,
            40,
        ) == source_hash@),
{
    header.len() >= CORE_JSON_MACHINE_HEADER_LEN && core_json_machine_magic(header).is_some()
        && core_json_machine_header_source_hash_matches(header, source_hash)
}

/// The body of an artifact that was validated as a whole, so that its digest is not checked again.
pub open spec fn hit_body(hit: machine_cache::HitModel) -> Option<Seq<u8>> {
    let bytes = hit.machine_bytes;
    if core_json_magic().is_prefix_of(bytes) && header_names_source(bytes, hit.source_hash)
        && bytes.len() <= CORE_JSON_MACHINE_MAX_BYTES {
        Some(bytes.skip(72))
    } else {
        None
    }
}

pub fn core_json_machine_hit_body_parts(hit: &DxMachineCacheHit) -> (r: Option<Vec<u8>>)
    ensures
        r is Some == (hit_body(hit@) is Some),
        r matches Some(body) ==> hit_body(hit@) == Some(body@),
        r is Some == {
            let bytes = hit.machine_bytes@;
            &&& core_json_magic().is_prefix_of(bytes)
            &&& 72 <= bytes.len() <= CORE_JSON_MACHINE_MAX_BYTES
            &&& bytes.subrange(8, 40) == hit.source_hash@
        },
        r matches Some(body) ==> hit.machine_bytes@ == hit.machine_bytes@.take(72) + body@,
{
    let bytes: &[u8] = hit.machine_bytes.as_slice();
    let magic: CoreJsonMachineMagic = core_json_machine_magic(bytes)?;
    let header_len: usize = magic.header_len();
    if bytes.len() < header_len {
        return None;
    }
    if !core_json_machine_header_source_hash_matches(bytes, &hit.source_hash) {
        return None;
    }
    if (bytes.len() - header_len) as u64 > CORE_JSON_MACHINE_MAX_BYTES - header_len as u64 {
        return None;
    }
    let body: Vec<u8> = copy_range(bytes, header_len, bytes.len());
    assert(body@ =~= hit@.machine_bytes.skip(72));
    Some(body)
}

/// The value of a validated artifact.
pub open spec fn hit_value(hit: machine_cache::HitModel) -> Option<JsonModel> {
    match hit_body(hit) {
        Some(body) => decoded_body(body),
        None => None,
    }
}

pub fn decode_core_json_machine_hit(hit: &DxMachineCacheHit) -> (r: Option<JsonValue>)
    ensures
        opt_value(r) == hit_value(hit@),
{
    let body: Vec<u8> = core_json_machine_hit_body_parts(hit)?;
    decode_core_json_machine_body_to_value(body.as_slice())
}

/// The body of a payload whose digest is checked.
pub open spec fn payload_body(bytes: Seq<u8>, source_hash: Seq<u8>) -> Option<Seq<u8>> {
    if core_json_magic().is_prefix_of(bytes) && header_names_source(bytes, source_hash)
        && bytes.subrange(40, 72) == digest::blake3_digest(bytes.skip(72)) {
        Some(bytes.skip(72))
    } else {
        None
    }
}

pub fn core_json_machine_payload_body_with_source_hash(
    machine_bytes: &[u8],
    source_hash: &[u8; 32],
) -> (r: Option<Vec<u8>>)
    ensures
        r is Some == (payload_body(machine_bytes@, source_hash@) is Some),
        r matches Some(body) ==> payload_body(machine_bytes@, source_hash@) == Some(body@),
        r matches Some(body) ==> {
            &&& core_json_magic().is_prefix_of(machine_bytes@)
            &&& machine_bytes@ == machine_bytes@.take(8) + source_hash@ + digest::blake3_digest(
                body@,
            ) + body@
        },
{
    if !core_json_machine_header_matches_source_hash(machine_bytes, source_hash) {
        return None;
    }
    let body: Vec<u8> = copy_range(
        machine_bytes,
        CORE_JSON_MACHINE_HEADER_LEN,
        machine_bytes.len(),
    );
    assert(body@ =~= machine_bytes@.skip(72));
    let body_hash: [u8; 32] = blake3_hash(body.as_slice());
    if !range_matches(machine_bytes, 40, &body_hash) {
        return None;
    }
    proof {
        let bytes = machine_bytes@;
        assert(bytes =~= bytes.take(8) + bytes.subrange(8, 40) + bytes.subrange(40, 72)
            + bytes.skip(72));
    }
    Some(body)
}

pub open spec fn decoded_payload(bytes: Seq<u8>, source_hash: Seq<u8>) -> Option<JsonModel> {
    match payload_body(bytes, source_hash) {
        Some(body) => decoded_body(body),
        None => None,
    }
}

pub fn decode_core_json_machine_payload_with_source_hash(
    machine_bytes: &[u8],
    source_hash: &[u8; 32],
) -> (r: Option<JsonValue>)
    ensures
        opt_value(r) == decoded_payload(machine_bytes@, source_hash@),
{
    let body: Vec<u8> = core_json_machine_payload_body_with_source_hash(
        machine_bytes,
        source_hash,
    )?;
    decode_core_json_machine_body_to_value(body.as_slice())
}

pub fn decode_core_json_machine_payload(machine_bytes: &[u8], source_bytes: &[u8]) -> (r: Option<
    JsonValue,
>)
    ensures
        opt_value(r) == decoded_payload(machine_bytes@, digest::blake3_digest(source_bytes@)),
{
    let source_hash: [u8; 32] = blake3_hash(source_bytes);
    decode_core_json_machine_payload_with_source_hash(machine_bytes, &source_hash)
}

pub fn encode_core_json_legacy_machine_payload(source_hash: &[u8; 32], body: &[u8]) -> (r: Option<
    Vec<u8>,
>)
    ensures
        r is Some == (body@.len() + CORE_JSON_MACHINE_HEADER_LEN <= usize::MAX),
        r matches Some(bytes) ==> bytes@ == encoded_payload(source_hash@, body@),
{
    let machine_len: usize = CORE_JSON_MACHINE_HEADER_LEN.checked_add(body.len())?;
    let body_hash: [u8; 32] = blake3_hash(body);
    let magic: [u8; 8] = core_json_machine_magic_bytes();
    let mut output: Vec<u8> = Vec::with_capacity(machine_len);
    write_bytes(&mut output, magic.as_slice());
    write_bytes(&mut output, source_hash.as_slice());
    write_bytes(&mut output, body_hash.as_slice());
    write_bytes(&mut output, body);
    assert(output@ =~= encoded_payload(source_hash@, body@));
    Some(output)
}

/// Whether a value has a payload.
pub open spec fn payload_fits(value: JsonModel) -> bool {
    value_fits(value, 0) && encoded_value(value).len() + CORE_JSON_MACHINE_HEADER_LEN
        <= usize::MAX
}

pub fn encode_core_json_machine_payload_with_source_hash(
    source_hash: &[u8; 32],
    value: &JsonValue,
) -> (r: Option<Vec<u8>>)
    ensures
        r is Some == payload_fits(value@),
        r matches Some(bytes) ==> bytes@ == encoded_payload(source_hash@, encoded_value(value@)),
{
    let mut body: Vec<u8> = Vec::new();
    encode_core_json_value(value, &mut body)?;
    assert(body@ =~= encoded_value(value@));
    encode_core_json_legacy_machine_payload(source_hash, body.as_slice())
}

pub fn encode_core_json_machine_payload(source_bytes: &[u8], value: &JsonValue) -> (r: Option<
    Vec<u8>,
>)
    ensures
        r is Some == payload_fits(value@),
        r matches Some(bytes) ==> bytes@ == encoded_payload(
            digest::blake3_digest(source_bytes@),
            encoded_value(value@),
        ),
{
    let source_hash: [u8; 32] = hash_core_json_source_bytes(source_bytes);
    encode_core_json_machine_payload_with_source_hash(&source_hash, value)
}

pub fn hash_core_json_source_bytes(source_bytes: &[u8]) -> (hash: [u8; 32])
    ensures
        hash@ == digest::blake3_digest(source_bytes@),
{
    blake3_hash(source_bytes)
}

/// Decoding gives back the value that was encoded for the same source, with the digest of the body
/// checked or not.
pub proof fn lemma_payload_round_trip(value: JsonModel, source_hash: Seq<u8>)
    requires
        source_hash.len() == 32,
        value_fits(value, 0),
        numbers_hold(value),
    ensures
        ({
            let bytes = encoded_payload(source_hash, encoded_value(value));
            &&& decoded_payload(bytes, source_hash) == Some(value)
            &&& bytes.len() <= CORE_JSON_MACHINE_MAX_BYTES ==> hit_value(
                machine_cache::HitModel { machine_bytes: bytes, source_hash },
            ) == Some(value)
        }),
{
    let body = encoded_value(value);
    let bytes = encoded_payload(source_hash, body);
    assert(bytes.subrange(0, 8) =~= core_json_magic());
    assert(bytes.subrange(8, 40) =~= source_hash);
    assert(bytes.subrange(40, 72) =~= digest::blake3_digest(body));
    assert(bytes.skip(72) =~= body);
    assert(body + Seq::<u8>::empty() =~= body);
    lemma_value_round_trip(value, 0, Seq::empty());
}

/// A payload for one source is none for a source with another digest.
pub proof fn lemma_payload_of_another_source(body: Seq<u8>, source_hash: Seq<u8>, other: Seq<u8>)
    requires
        source_hash.len() == 32,
        other != source_hash,
    ensures
        decoded_payload(encoded_payload(source_hash, body), other) is None,
        hit_value(
            machine_cache::HitModel {
                machine_bytes: encoded_payload(source_hash, body),
                source_hash: other,
            },
        ) is None,
{
    assert(encoded_payload(source_hash, body).subrange(8, 40) =~= source_hash);
}

// ---------------------------------------------------------------------------------------------
// The cache

/// The characters that may stand before a JSON value.
pub open spec fn is_json_space(byte: u8) -> bool {
    byte == 0x20 || byte == 0x09 || byte == 0x0a || byte == 0x0c || byte == 0x0d
}

/// Whether the first byte that is no white space opens an object or an array.
pub open spec fn opens_container(bytes: Seq<u8>) -> bool
    decreases bytes.len(),
{
    if bytes.len() == 0 {
        false
    } else if is_json_space(bytes[0]) {
        opens_container(bytes.skip(1))
    } else {
        bytes[0] == 0x7b || bytes[0] == 0x5b
    }
}

pub open spec fn source_is_worth_caching(source_bytes: Seq<u8>) -> bool {
    source_bytes.len() > CORE_JSON_MACHINE_MIN_SOURCE_BYTES && opens_container(source_bytes)
}

/// A container is opened exactly where a brace or a bracket comes first, apart from white space.
pub proof fn lemma_opens_container(bytes: Seq<u8>)
    ensures
        opens_container(bytes) == (json_module::starts_with_byte(bytes, 0x7b)
            || json_module::starts_with_byte(bytes, 0x5b)),
{
    lemma_container_by_first_byte(bytes);
    json_module::lemma_first_byte(bytes);
}

proof fn lemma_container_by_first_byte(bytes: Seq<u8>)
    ensures
        opens_container(bytes) == (json_module::first_byte(bytes) == Some(0x7bu8)
            || json_module::first_byte(bytes) == Some(0x5bu8)),
    decreases bytes.len(),
{
    if bytes.len() > 0 && is_json_space(bytes[0]) {
        lemma_container_by_first_byte(bytes.skip(1));
    }
}

/// Only a large object or array is worth caching.
pub fn core_json_source_worth_machine_cache(source_bytes: &[u8]) -> (r: bool)
    ensures
        r == source_is_worth_caching(source_bytes@),
        r == (source_bytes@.len() > CORE_JSON_MACHINE_MIN_SOURCE_BYTES && (
        json_module::starts_with_byte(source_bytes@, 0x7b) || json_module::starts_with_byte(
            source_bytes@,
            0x5b,
        ))),
{
    proof {
        lemma_opens_container(source_bytes@);
    }
    if source_bytes.len() <= CORE_JSON_MACHINE_MIN_SOURCE_BYTES {
        return false;
    }
    let mut i: usize = 0;
    assert(source_bytes@.skip(0) =~= source_bytes@);
    while i < source_bytes.len()
        invariant
            i <= source_bytes@.len(),
            source_bytes@.len() > CORE_JSON_MACHINE_MIN_SOURCE_BYTES,
            opens_container(source_bytes@.skip(i as int)) == opens_container(source_bytes@),
        decreases source_bytes@.len() - i,
    {
        let byte: u8 = source_bytes[i];
        assert(source_bytes@.skip(i as int)[0] == byte);
        assert(source_bytes@.skip(i as int).skip(1) =~= source_bytes@.skip(i + 1));
        if !(byte == 0x20 || byte == 0x09 || byte == 0x0a || byte == 0x0c || byte == 0x0d) {
            proof {
                lemma_opens_container(source_bytes@);
            }
            return byte == 0x7b || byte == 0x5b;
        }
        i = i + 1;
    }
    false
}

/// Where the artifact of a JSON module lives.
#[derive(Debug, Clone, PartialEq, Eq)]
pub struct CoreJsonMachineCacheTarget {
    pub config: DxMachineCacheConfig,
    pub paths: DxMachineCachePaths,
    pub source_path: String,
}

pub open spec fn core_json_paths(
    root: Seq<char>,
    project_root: Seq<char>,
    source_path: Seq<char>,
    style: PathStyle,
) -> (Seq<char>, Seq<char>) {
    machine_cache::artifact_paths(
        root,
        project_root,
        CORE_JSON_MACHINE_NAMESPACE@,
        source_path,
        style,
    )
}

pub fn core_json_machine_cache_target(
    project_root: &str,
    source_path: &str,
    env_value: Option<String>,
    style: PathStyle,
) -> (r: Option<CoreJsonMachineCacheTarget>)
    ensures
        r is Some == machine_cache::env_enables(env_value),
        r matches Some(target) ==> {
            &&& target.config.enabled
            &&& target.config.style == style
            &&& target.config.root@ == machine_cache::cache_root(project_root@, style)
            &&& (target.paths.machine@, target.paths.metadata@) == core_json_paths(
                target.config.root@,
                project_root@,
                source_path@,
                style,
            )
            &&& target.source_path@ == source_path@
        },
{
    let config: DxMachineCacheConfig = DxMachineCacheConfig::from_env_value_if_enabled(
        project_root,
        env_value,
        style,
    )?;
    let paths: DxMachineCachePaths = config.paths_for_source(
        project_root,
        CORE_JSON_MACHINE_NAMESPACE,
        source_path,
    );
    Some(CoreJsonMachineCacheTarget { config, paths, source_path: source_path.to_string() })
}

/// The target of a source, which only a source worth caching has.
pub fn core_json_machine_cache_target_for_source(
    project_root: &str,
    source_path: &str,
    source_bytes: &[u8],
    env_value: Option<String>,
    style: PathStyle,
) -> (r: Option<CoreJsonMachineCacheTarget>)
    ensures
        r is Some == (source_is_worth_caching(source_bytes@) && machine_cache::env_enables(
            env_value,
        )),
        r matches Some(target) ==> {
            &&& target.config.enabled
            &&& target.config.style == style
            &&& target.config.root@ == machine_cache::cache_root(project_root@, style)
            &&& (target.paths.machine@, target.paths.metadata@) == core_json_paths(
                target.config.root@,
                project_root@,
                source_path@,
                style,
            )
            &&& target.source_path@ == source_path@
        },
{
    if !core_json_source_worth_machine_cache(source_bytes) {
        return None;
    }
    core_json_machine_cache_target(project_root, source_path, env_value, style)
}

/// What a look into the cache of JSON modules came to.
#[derive(Debug, PartialEq, Eq)]
pub enum CoreJsonMachineRead {
    Hit(JsonValue),
    Repair { source_hash: [u8; 32] },
    Miss,
}

pub ghost enum CoreJsonReadModel {
    Hit(JsonModel),
    Repair(Seq<u8>),
    Miss,
}

impl View for CoreJsonMachineRead {
    type V = CoreJsonReadModel;

    open spec fn view(&self) -> CoreJsonReadModel {
        match self {
            CoreJsonMachineRead::Hit(value) => CoreJsonReadModel::Hit(value@),
            CoreJsonMachineRead::Repair { source_hash } => CoreJsonReadModel::Repair(source_hash@),
            CoreJsonMachineRead::Miss => CoreJsonReadModel::Miss,
        }
    }
}

/// A validated artifact gives its value, or is to be written anew where it holds none.
pub open spec fn cache_read(
    looked_up: DxMachineCacheStatus<machine_cache::HitModel>,
) -> CoreJsonReadModel {
    match looked_up {
        DxMachineCacheStatus::Hit(hit) => match hit_value(hit) {
            Some(value) => CoreJsonReadModel::Hit(value),
            None => CoreJsonReadModel::Repair(hit.source_hash),
        },
        _ => CoreJsonReadModel::Miss,
    }
}

pub open spec fn looked_up(
    target: CoreJsonMachineCacheTarget,
    source_bytes: Seq<u8>,
    files: MachineCacheFiles,
) -> DxMachineCacheStatus<machine_cache::HitModel> {
    machine_cache::validated_read(
        target.config.enabled,
        target.paths.machine@,
        target.source_path@,
        source_bytes,
        files.metadata@,
        machine_cache::parsed_model(files.parsed),
        files.machine@,
        target.config.style,
    )
}

pub fn read_core_json_machine_cache_or_repair_hash(
    target: &CoreJsonMachineCacheTarget,
    source_bytes: &[u8],
    files: MachineCacheFiles,
) -> (r: CoreJsonMachineRead)
    ensures
        r@ == cache_read(looked_up(*target, source_bytes@, files)),
{
    match target.config.read_validated_machine_with_source_hash(
        &target.paths,
        target.source_path.as_str(),
        source_bytes,
        files,
    ) {
        DxMachineCacheStatus::Hit(hit) => match decode_core_json_machine_hit(&hit) {
            Some(value) => CoreJsonMachineRead::Hit(value),
            None => CoreJsonMachineRead::Repair { source_hash: hit.source_hash },
        },
        _ => CoreJsonMachineRead::Miss,
    }
}

/// What to write for a JSON module. A digest that is already known is not computed again.
pub fn write_core_json_machine_cache_with_optional_source_hash(
    target: &CoreJsonMachineCacheTarget,
    source_bytes: &[u8],
    value: &JsonValue,
    source_hash: Option<[u8; 32]>,
) -> (r: Option<MachineArtifactWrite>)
    ensures
        ({
            let hash = digest::effective_hash(source_hash, source_bytes@);
            let bytes = encoded_payload(hash, encoded_value(value@));
            &&& r is Some == {
                &&& target.config.enabled
                &&& payload_fits(value@)
                &&& machine_cache::size_benefits(source_bytes@.len(), bytes.len())
            }
            &&& r matches Some(write) ==> {
                &&& write.machine.path@ == target.paths.machine@
                &&& write.machine.bytes@ == bytes
                &&& write.metadata.path@ == target.paths.metadata@
                &&& write.metadata.bytes@ == machine_write::metadata_bytes(
                    target.source_path@,
                    source_bytes@.len(),
                    hash,
                    target.paths.machine@,
                    bytes,
                    target.config.style,
                )
            }
        }),
{
    if !target.config.enabled {
        return None;
    }
    let hash: [u8; 32] = match source_hash {
        Some(known) => known,
        None => hash_core_json_source_bytes(source_bytes),
    };
    let machine_bytes: Vec<u8> = encode_core_json_machine_payload_with_source_hash(&hash, value)?;
    target.config.write_machine_artifact_with_source_hash(
        &target.paths,
        target.source_path.as_str(),
        source_bytes.len(),
        &hash,
        machine_bytes.as_slice(),
    )
}

/// What comes before a JSON module is parsed: a cached value ends the work, anything else asks
/// for the parser and says which digest is already known.
pub fn consult_core_json_machine_cache(
    target: &Option<CoreJsonMachineCacheTarget>,
    source_bytes: &[u8],
    use_machine_cache: bool,
    files: MachineCacheFiles,
) -> (r: CoreJsonMachineRead)
    ensures
        r@ == match *target {
            Some(present) => if use_machine_cache {
                cache_read(looked_up(present, source_bytes@, files))
            } else {
                CoreJsonReadModel::Miss
            },
            None => CoreJsonReadModel::Miss,
        },
{
    match target {
        Some(present) => if use_machine_cache {
            read_core_json_machine_cache_or_repair_hash(present, source_bytes, files)
        } else {
            CoreJsonMachineRead::Miss
        },
        None => CoreJsonMachineRead::Miss,
    }
}

/// What comes after a JSON module was parsed: the artifact to write, if any.
pub fn store_core_json_machine_cache(
    target: &Option<CoreJsonMachineCacheTarget>,
    source_bytes: &[u8],
    value: &JsonValue,
    use_machine_cache: bool,
    repair_source_hash: Option<[u8; 32]>,
) -> (r: Option<MachineArtifactWrite>)
    ensures
        ({
            let hash = digest::effective_hash(repair_source_hash, source_bytes@);
            let bytes = encoded_payload(hash, encoded_value(value@));
            &&& r is Some == {
                &&& use_machine_cache
                &&& *target matches Some(present) && present.config.enabled
                &&& payload_fits(value@)
                &&& machine_cache::size_benefits(source_bytes@.len(), bytes.len())
            }
            &&& r matches Some(write) ==> write.machine.bytes@ == bytes && (*target matches Some(
                present,
            ) && write.machine.path@ == present.paths.machine@ && write.metadata.path@
                == present.paths.metadata@ && write.metadata.bytes@
                == machine_write::metadata_bytes(
                present.source_path@,
                source_bytes@.len(),
                hash,
                present.paths.machine@,
                bytes,
                present.config.style,
            ))
        }),
{
    if !use_machine_cache {
        return None;
    }
    match target {
        Some(present) => write_core_json_machine_cache_with_optional_source_hash(
            present,
            source_bytes,
            value,
            repair_source_hash,
        ),
        None => None,
    }
}

/// What is written for a JSON module is read back as its value, for the same source, as long as
/// the files are within the sizes that a reader accepts.
pub proof fn lemma_written_json_reads_back(
    value: JsonModel,
    machine_path: Seq<char>,
    source_path: Seq<char>,
    source_bytes: Seq<u8>,
    parsed: Option<crate::metadata::DocumentModel>,
    style: PathStyle,
)
    requires
        value_fits(value, 0),
        numbers_hold(value),
        source_bytes.len() <= u64::MAX,
        ({
            let hash = digest::blake3_digest(source_bytes);
            let bytes = encoded_payload(hash, encoded_value(value));
            &&& machine_cache::size_benefits(source_bytes.len(), bytes.len())
            &&& bytes.len() <= crate::metadata::DX_MACHINE_MAX_BYTES
            &&& machine_write::metadata_bytes(
                source_path,
                source_bytes.len(),
                hash,
                machine_path,
                bytes,
                style,
            ).len() <= machine_cache::DX_MACHINE_METADATA_MAX_BYTES
        }),
    ensures
        ({
            let hash = digest::blake3_digest(source_bytes);
            let bytes = encoded_payload(hash, encoded_value(value));
            cache_read(
                machine_cache::validated_read(
                    true,
                    machine_path,
                    source_path,
                    source_bytes,
                    machine_cache::FileModel::Bytes(
                        machine_write::metadata_bytes(
                            source_path,
                            source_bytes.len(),
                            hash,
                            machine_path,
                            bytes,
                            style,
                        ),
                    ),
                    parsed,
                    machine_cache::FileModel::Bytes(bytes),
                    style,
                ),
            ) == CoreJsonReadModel::Hit(value)
        }),
{
    let hash = digest::blake3_digest(source_bytes);
    let bytes = encoded_payload(hash, encoded_value(value));
    machine_write::lemma_write_then_read_hits(
        machine_path,
        source_path,
        source_bytes,
        bytes,
        parsed,
        style,
    );
    lemma_payload_round_trip(value, hash);
}

/// The zero-based line and column of a parse error that counts lines and columns from one.
pub fn json_parse_position(line: usize, column: usize) -> (position: (usize, usize))
    requires
        line > 0,
    ensures
        position.0 == line - 1,
        position.1 == if column == 0 {
            0
        } else {
            column - 1
        },
{
    (line - 1, column.saturating_sub(1))
}

// ---------------------------------------------------------------------------------------------
// What is read stands there as it is written

proof fn lemma_values_first(items: Seq<JsonModel>, count: nat)
    requires
        0 < count <= items.len(),
    ensures
        encoded_values(items, count) == encoded_value(items[0]) + encoded_values(
            items.skip(1),
            (count - 1) as nat,
        ),
    decreases count,
{
    let tail = items.skip(1);
    if count == 1 {
        assert(encoded_values(items, 0) =~= Seq::empty());
        assert(encoded_values(tail, 0) =~= Seq::empty());
        assert(encoded_values(items, 1) =~= encoded_value(items[0]) + encoded_values(tail, 0));
    } else {
        let less = (count - 1) as nat;
        lemma_values_first(items, less);
        assert(tail[less - 1] == items[less as int]);
        assert(encoded_values(items, count) =~= encoded_value(items[0]) + encoded_values(
            tail,
            less,
        ));
    }
}

proof fn lemma_entries_first(entries: Seq<(Seq<char>, JsonModel)>, count: nat)
    requires
        0 < count <= entries.len(),
    ensures
        encoded_entries(entries, count) == encoded_bytes(entries[0].0) + encoded_value(entries[0].1)
            + encoded_entries(entries.skip(1), (count - 1) as nat),
    decreases count,
{
    let tail = entries.skip(1);
    let first = encoded_bytes(entries[0].0) + encoded_value(entries[0].1);
    if count == 1 {
        assert(encoded_entries(entries, 0) =~= Seq::empty());
        assert(encoded_entries(tail, 0) =~= Seq::empty());
        assert(encoded_entries(entries, 1) =~= first + encoded_entries(tail, 0));
    } else {
        let less = (count - 1) as nat;
        lemma_entries_first(entries, less);
        assert(tail[less - 1] == entries[less as int]);
        assert(encoded_entries(entries, count) =~= first + encoded_entries(tail, less));
    }
}

proof fn lemma_bytes_read_is_written(rest: Seq<u8>, max: nat)
    requires
        bytes_at(rest, max) is Some,
        valid_utf8((bytes_at(rest, max)->0).0),
    ensures
        rest == encoded_bytes(decode_utf8((bytes_at(rest, max)->0).0)) + (bytes_at(rest, max)->0).1,
{
    codec::lemma_u32_read_is_written(rest);
    let (content, after) = bytes_at(rest, max)->0;
    let (len, behind) = codec::u32_at(rest)->0;
    decode_utf8_encode_utf8(content);
    assert(content + after =~= behind);
    assert(encoded_bytes(decode_utf8(content)) + after =~= codec::le32(len) + (content + after));
}

proof fn lemma_string_read_is_written(rest: Seq<u8>)
    requires
        string_at(rest) is Some,
    ensures
        rest == encoded_bytes((string_at(rest)->0).0) + (string_at(rest)->0).1,
{
    reveal(string_at);
    lemma_bytes_read_is_written(rest, CORE_JSON_MACHINE_MAX_STRING_LEN as nat);
}

/// A value that is read stands there as it is written: nothing in front of it was passed over.
pub proof fn lemma_value_read_is_written(rest: Seq<u8>, depth: nat)
    requires
        value_at(rest, depth) is Some,
    ensures
        rest == encoded_value((value_at(rest, depth)->0).0) + (value_at(rest, depth)->0).1,
    decreases levels_below(depth), 0nat,
{
    let (value, after) = value_at(rest, depth)->0;
    let tag = rest[0];
    let after_tag = rest.skip(1);
    assert(rest =~= seq![tag] + after_tag);
    match value {
        JsonModel::Number(number) => {
            lemma_bytes_read_is_written(after_tag, CORE_JSON_MACHINE_MAX_NUMBER_LEN as nat);
        },
        JsonModel::Text(content) => {
            lemma_string_read_is_written(after_tag);
        },
        JsonModel::Array(items) => {
            codec::lemma_u32_read_is_written(after_tag);
            let (count, at_items) = codec::u32_at(after_tag)->0;
            lemma_values_read_is_written(at_items, count, depth + 1);
        },
        JsonModel::Object(entries) => {
            codec::lemma_u32_read_is_written(after_tag);
            let (count, at_entries) = codec::u32_at(after_tag)->0;
            lemma_entries_read_is_written(at_entries, count, depth + 1);
        },
        _ => {},
    }
    assert(encoded_value(value) + after =~= rest);
}

proof fn lemma_values_read_is_written(rest: Seq<u8>, count: nat, depth: nat)
    requires
        values_at(rest, count, depth) is Some,
    ensures
        ({
            let (items, after) = values_at(rest, count, depth)->0;
            items.len() == count && rest == encoded_values(items, count) + after
        }),
    decreases levels_below(depth), count + 1,
{
    let (items, after) = values_at(rest, count, depth)->0;
    if count == 0 {
        assert(encoded_values(items, 0) + after =~= rest);
    } else {
        lemma_value_read_is_written(rest, depth);
        let (first, behind) = value_at(rest, depth)->0;
        lemma_values_read_is_written(behind, (count - 1) as nat, depth);
        let (others, end) = values_at(behind, (count - 1) as nat, depth)->0;
        assert(items == seq![first] + others);
        assert(items.skip(1) =~= others);
        lemma_values_first(items, count);
        assert(encoded_values(items, count) + after =~= encoded_value(first) + (encoded_values(
            others,
            (count - 1) as nat,
        ) + after));
    }
}

proof fn lemma_entries_read_is_written(rest: Seq<u8>, count: nat, depth: nat)
    requires
        entries_at(rest, count, depth) is Some,
    ensures
        ({
            let (entries, after) = entries_at(rest, count, depth)->0;
            entries.len() == count && rest == encoded_entries(entries, count) + after
        }),
    decreases levels_below(depth), count + 1,
{
    let (entries, after) = entries_at(rest, count, depth)->0;
    if count == 0 {
        assert(encoded_entries(entries, 0) + after =~= rest);
    } else {
        lemma_string_read_is_written(rest);
        let (key, at_value) = string_at(rest)->0;
        lemma_value_read_is_written(at_value, depth);
        let (value, behind) = value_at(at_value, depth)->0;
        lemma_entries_read_is_written(behind, (count - 1) as nat, depth);
        let (others, end) = entries_at(behind, (count - 1) as nat, depth)->0;
        assert(entries == seq![(key, value)] + others);
        assert(entries.skip(1) =~= others);
        lemma_entries_first(entries, count);
        assert(encoded_entries(entries, count) + after =~= encoded_bytes(key) + (encoded_value(
            value,
        ) + (encoded_entries(others, (count - 1) as nat) + after)));
    }
}

/// A body that stands for a value is the one body that is written for it, so that different values
/// have different bodies and nothing is left over.
pub proof fn lemma_decoded_body_encodes_back(body: Seq<u8>)
    ensures
        decoded_body(body) matches Some(value) ==> encoded_value(value) == body,
{
    if decoded_body(body) is Some {
        lemma_value_read_is_written(body, 0);
        let (value, after) = value_at(body, 0)->0;
        assert(encoded_value(value) + after =~= encoded_value(value));
    }
}

// ---------------------------------------------------------------------------------------------
// The grammar of numbers

pub open spec fn is_sign(part: Seq<u8>) -> bool {
    part.len() == 0 || part == seq![0x2du8]
}

/// A zero, or digits that do not start with one.
pub open spec fn is_whole(part: Seq<u8>) -> bool {
    part == seq![0x30u8] || (part.len() > 0 && all_digits(part) && part[0] != 0x30)
}

/// A point and digits behind it.
pub open spec fn is_fraction(part: Seq<u8>) -> bool {
    part.len() > 1 && part[0] == 0x2e && all_digits(part.skip(1))
}

/// An `e` in either case, maybe a sign, and digits behind it.
pub open spec fn is_exponent(part: Seq<u8>) -> bool {
    part.len() > 1 && (part[0] == 0x65 || part[0] == 0x45) && {
        ||| all_digits(part.skip(1))
        ||| part.len() > 2 && (part[1] == 0x2b || part[1] == 0x2d) && all_digits(part.skip(2))
    }
}

/// A number of four parts, with a fraction or an exponent.
pub open spec fn is_number_of_parts(
    bytes: Seq<u8>,
    sign: Seq<u8>,
    whole: Seq<u8>,
    fraction: Seq<u8>,
    exponent: Seq<u8>,
) -> bool {
    &&& bytes == sign + whole + fraction + exponent
    &&& is_sign(sign)
    &&& is_whole(whole)
    &&& fraction.len() > 0 ==> is_fraction(fraction)
    &&& exponent.len() > 0 ==> is_exponent(exponent)
    &&& fraction.len() > 0 || exponent.len() > 0
}

proof fn lemma_after_digits(rest: Seq<u8>)
    ensures
        after_digits(rest).len() <= rest.len(),
        rest == rest.take(rest.len() - after_digits(rest).len()) + after_digits(rest),
        all_digits(rest.take(rest.len() - after_digits(rest).len())),
        after_digits(rest).len() > 0 ==> !is_digit(after_digits(rest)[0]),
    decreases rest.len(),
{
    let after = after_digits(rest);
    if rest.len() > 0 && is_digit(rest[0]) {
        lemma_after_digits(rest.skip(1));
        let run = rest.skip(1).take(rest.skip(1).len() - after.len());
        let all = rest.take(rest.len() - after.len());
        assert(all =~= seq![rest[0]] + run);
        assert(rest =~= all + after) by {
            assert(rest =~= seq![rest[0]] + rest.skip(1));
        }
        assert forall|i: int| 0 <= i < all.len() implies is_digit(#[trigger] all[i]) by {
            if i > 0 {
                assert(run[i - 1] == all[i]);
            }
        }
    } else {
        assert(rest.take(0) + rest =~= rest);
    }
}

proof fn lemma_after_some_digits(rest: Seq<u8>) -> (run: Seq<u8>)
    requires
        after_some_digits(rest) is Some,
    ensures
        run.len() > 0,
        all_digits(run),
        rest == run + (after_some_digits(rest)->0),
{
    let tail = rest.skip(1);
    lemma_after_digits(tail);
    let after = after_digits(tail);
    let inner = tail.take(tail.len() - after.len());
    let run = seq![rest[0]] + inner;
    assert forall|i: int| 0 <= i < run.len() implies is_digit(#[trigger] run[i]) by {
        if i > 0 {
            assert(inner[i - 1] == run[i]);
        }
    }
    assert(rest =~= run + after) by {
        assert(rest =~= seq![rest[0]] + tail);
    }
    run
}

/// A number that counts as one with a fraction or an exponent has the four parts of a number.
pub proof fn lemma_decimal_has_parts(bytes: Seq<u8>)
    ensures
        is_decimal_or_exponent(bytes) ==> exists|
            sign: Seq<u8>,
            whole: Seq<u8>,
            fraction: Seq<u8>,
            exponent: Seq<u8>,
        | #[trigger]
            is_number_of_parts(bytes, sign, whole, fraction, exponent),
{
    if is_decimal_or_exponent(bytes) {
        let none = Seq::<u8>::empty();
        let unsigned = without_sign(bytes);
        let sign = if bytes.len() > 0 && bytes[0] == 0x2d {
            seq![0x2du8]
        } else {
            none
        };
        assert(bytes =~= sign + unsigned);
        let at_fraction = after_whole_part(unsigned)->0;
        let whole = if unsigned[0] == 0x30 {
            assert(unsigned =~= seq![0x30u8] + at_fraction);
            seq![0x30u8]
        } else {
            let run = lemma_after_some_digits(unsigned);
            assert(unsigned[0] == run[0]);
            run
        };
        let (has_fraction, at_exponent) = after_fraction(at_fraction)->0;
        let fraction = if has_fraction {
            let run = lemma_after_some_digits(at_fraction.skip(1));
            let part = seq![0x2eu8] + run;
            assert(part.skip(1) =~= run);
            assert(at_fraction =~= seq![0x2eu8] + at_fraction.skip(1));
            assert(at_fraction =~= part + at_exponent);
            part
        } else {
            assert(at_fraction =~= none + at_exponent);
            none
        };
        let (has_exponent, after) = after_exponent(at_exponent)->0;
        assert(after =~= none);
        let exponent = at_exponent;
        if has_exponent {
            let signed = at_exponent.skip(1);
            assert(at_exponent =~= seq![at_exponent[0]] + signed);
            if signed.len() > 0 && (signed[0] == 0x2b || signed[0] == 0x2d) {
                let run = lemma_after_some_digits(signed.skip(1));
                assert(signed.skip(1) =~= run);
                assert(at_exponent.skip(2) =~= run);
                assert(at_exponent[1] == signed[0]);
            } else {
                let run = lemma_after_some_digits(signed);
                assert(signed =~= run);
            }
        }
        assert(bytes =~= sign + whole + fraction + exponent);
        assert(is_number_of_parts(bytes, sign, whole, fraction, exponent));
    }
}

proof fn lemma_digits_end(run: Seq<u8>, after: Seq<u8>)
    requires
        all_digits(run),
        after.len() > 0 ==> !is_digit(after[0]),
    ensures
        after_digits(run + after) == after,
    decreases run.len(),
{
    let rest = run + after;
    if run.len() == 0 {
        assert(rest =~= after);
    } else {
        assert(is_digit(run[0]));
        assert(rest[0] == run[0]);
        assert(rest.skip(1) =~= run.skip(1) + after);
        assert(all_digits(run.skip(1))) by {
            assert forall|i: int| 0 <= i < run.skip(1).len() implies is_digit(
                #[trigger] run.skip(1)[i],
            ) by {
                assert(is_digit(run[i + 1]));
            }
        }
        lemma_digits_end(run.skip(1), after);
    }
}

proof fn lemma_some_digits_end(run: Seq<u8>, after: Seq<u8>)
    requires
        run.len() > 0,
        all_digits(run),
        after.len() > 0 ==> !is_digit(after[0]),
    ensures
        after_some_digits(run + after) == Some(after),
{
    let rest = run + after;
    assert(is_digit(run[0]));
    assert(rest[0] == run[0]);
    assert(rest.skip(1) =~= run.skip(1) + after);
    assert(all_digits(run.skip(1))) by {
        assert forall|i: int| 0 <= i < run.skip(1).len() implies is_digit(
            #[trigger] run.skip(1)[i],
        ) by {
            assert(is_digit(run[i + 1]));
        }
    }
    lemma_digits_end(run.skip(1), after);
}

/// What has the four parts of a number, with a fraction or an exponent, counts as such a number.
pub proof fn lemma_parts_make_a_decimal(
    bytes: Seq<u8>,
    sign: Seq<u8>,
    whole: Seq<u8>,
    fraction: Seq<u8>,
    exponent: Seq<u8>,
)
    requires
        is_number_of_parts(bytes, sign, whole, fraction, exponent),
    ensures
        is_decimal_or_exponent(bytes),
{
    let none = Seq::<u8>::empty();
    let unsigned = whole + (fraction + exponent);
    let at_fraction = fraction + exponent;
    assert(is_digit(whole[0]));
    assert(bytes =~= sign + unsigned);
    assert(unsigned[0] == whole[0]);
    assert(without_sign(bytes) =~= unsigned) by {
        if sign.len() > 0 {
            assert(bytes.skip(1) =~= unsigned);
        } else {
            assert(bytes =~= unsigned);
        }
    }
    assert(at_fraction.len() > 0 ==> !is_digit(at_fraction[0])) by {
        if fraction.len() > 0 {
            assert(at_fraction[0] == fraction[0]);
        } else {
            assert(at_fraction =~= exponent);
        }
    }
    assert(after_whole_part(unsigned) == Some(at_fraction)) by {
        if whole == seq![0x30u8] {
            assert(unsigned.skip(1) =~= at_fraction);
        } else {
            lemma_some_digits_end(whole, at_fraction);
        }
    }
    assert(after_fraction(at_fraction) == Some((fraction.len() > 0, exponent))) by {
        if fraction.len() > 0 {
            let run = fraction.skip(1);
            assert(at_fraction[0] == fraction[0]);
            assert(at_fraction.skip(1) =~= run + exponent);
            lemma_some_digits_end(run, exponent);
        } else {
            assert(at_fraction =~= exponent);
        }
    }
    assert(after_exponent(exponent) == Some((exponent.len() > 0, none))) by {
        if exponent.len() > 0 {
            let signed = exponent.skip(1);
            if all_digits(signed) {
                assert(is_digit(signed[0]));
                lemma_some_digits_end(signed, none);
                assert(signed + none =~= signed);
            } else {
                let run = exponent.skip(2);
                assert(signed[0] == exponent[1]);
                assert(signed.skip(1) =~= run);
                lemma_some_digits_end(run, none);
                assert(run + none =~= run);
            }
        } else {
            assert(exponent =~= none);
        }
    }
}

} // verus!

//! BLAKE3 digests and their lower-case hexadecimal text.

use vstd::prelude::*;
use crate::json_escape;
use crate::text::chars_of;

verus! {

pub const BLAKE3_HEX_LEN: usize = 64;

/// What `blake3::hash` makes of a byte sequence.
pub uninterp spec fn blake3_output(bytes: Seq<u8>) -> [u8; 32];

/// The BLAKE3 digest of a byte sequence.
pub open spec fn blake3_digest(bytes: Seq<u8>) -> Seq<u8> {
    blake3_output(bytes)@
}

/// `blake3::hash`: the digest is a function of the hashed bytes alone.
#[verifier::external_body]
pub(crate) fn blake3_hash(bytes: &[u8]) -> (digest: [u8; 32])
    ensures
        digest == blake3_output(bytes@),
{
    *blake3::hash(bytes).as_bytes()
}

pub open spec fn hex_digit(nibble: nat) -> char {
    if nibble < 10 {
        (48 + nibble) as char
    } else {
        (87 + nibble) as char
    }
}

pub open spec fn is_lower_hex(c: char) -> bool {
    ('0' <= c && c <= '9') || ('a' <= c && c <= 'f')
}

/// Two lower-case hexadecimal digits per byte, the high half first.
pub open spec fn hex_text(bytes: Seq<u8>) -> Seq<char> {
    Seq::new(
        2 * bytes.len(),
        |i: int|
            if i % 2 == 0 {
                hex_digit((bytes[i / 2] / 16) as nat)
            } else {
                hex_digit((bytes[i / 2] % 16) as nat)
            },
    )
}

/// Whether `text` has the shape of a BLAKE3 digest in hexadecimal.
pub open spec fn is_blake3_hex_text(text: Seq<char>) -> bool {
    text.len() == BLAKE3_HEX_LEN && forall|i: int|
        0 <= i < text.len() ==> is_lower_hex(#[trigger] text[i])
}

/// The digest of a source, as it is known already or else as it is computed.
pub open spec fn effective_hash<H: View<V = Seq<u8>>>(
    source_hash: Option<H>,
    source_bytes: Seq<u8>,
) -> Seq<u8> {
    match source_hash {
        Some(hash) => hash@,
        None => blake3_digest(source_bytes),
    }
}

/// The text of a digest has the shape of one.
pub proof fn lemma_hex_text_shape(bytes: Seq<u8>)
    requires
        bytes.len() == 32,
    ensures
        is_blake3_hex_text(hex_text(bytes)),
{
    let text = hex_text(bytes);
    assert forall|i: int| 0 <= i < text.len() implies is_lower_hex(#[trigger] text[i]) by {
        lemma_hex_digit((bytes[i / 2] / 16) as nat);
        lemma_hex_digit((bytes[i / 2] % 16) as nat);
    }
}

proof fn lemma_hex_digit(nibble: nat)
    requires
        nibble < 16,
    ensures
        is_lower_hex(hex_digit(nibble)),
        hex_digit(nibble) as nat == if nibble < 10 {
            48 + nibble
        } else {
            87 + nibble
        },
{
}

/// Different byte sequences have different hexadecimal texts.
pub proof fn lemma_hex_text_injective(left: Seq<u8>, right: Seq<u8>)
    requires
        hex_text(left) == hex_text(right),
    ensures
        left == right,
{
    assert(hex_text(left).len() == 2 * left.len());
    assert(hex_text(right).len() == 2 * right.len());
    assert forall|i: int| 0 <= i < left.len() implies left[i] == right[i] by {
        let l = hex_text(left);
        let r = hex_text(right);
        assert(l[2 * i] == r[2 * i]);
        assert(l[2 * i + 1] == r[2 * i + 1]);
        assert((2 * i) / 2 == i && (2 * i) % 2 == 0);
        assert((2 * i + 1) / 2 == i && (2 * i + 1) % 2 == 1);
        lemma_hex_digit((left[i] / 16) as nat);
        lemma_hex_digit((left[i] % 16) as nat);
        lemma_hex_digit((right[i] / 16) as nat);
        lemma_hex_digit((right[i] % 16) as nat);
    }
    assert(left =~= right);
}

/// The value of a lower-case hexadecimal digit.
pub fn lowercase_hex_nibble(c: char) -> (nibble: Option<u8>)
    ensures
        nibble is Some == is_lower_hex(c),
        nibble matches Some(value) ==> value < 16 && hex_digit(value as nat) == c,
{
    if '0' <= c && c <= '9' {
        Some(c as u8 - 48)
    } else if 'a' <= c && c <= 'f' {
        Some(c as u8 - 87)
    } else {
        None
    }
}

pub fn lower_hex_char(nibble: u8) -> (c: char)
    requires
        nibble < 16,
    ensures
        c == hex_digit(nibble as nat),
{
    if nibble < 10 {
        (48 + nibble) as char
    } else {
        (87 + nibble) as char
    }
}

pub fn is_blake3_hex(hash: &str) -> (r: bool)
    ensures
        r == is_blake3_hex_text(hash@),
{
    let chars: Vec<char> = chars_of(hash);
    if chars.len() != BLAKE3_HEX_LEN {
        return false;
    }
    let mut i: usize = 0;
    while i < chars.len()
        invariant
            chars@ == hash@,
            chars.len() == BLAKE3_HEX_LEN,
            i <= chars.len(),
            forall|j: int| 0 <= j < i ==> is_lower_hex(#[trigger] chars@[j]),
        decreases chars.len() - i,
    {
        if lowercase_hex_nibble(chars[i]).is_none() {
            return false;
        }
        i = i + 1;
    }
    true
}

/// Whether `hash` is the lower-case hexadecimal text of `expected`.
pub fn blake3_hex_matches_hash(hash: &str, expected: &[u8; 32]) -> (r: bool)
    ensures
        r == (hash@ == hex_text(expected@)),
{
    let chars: Vec<char> = chars_of(hash);
    if chars.len() != BLAKE3_HEX_LEN {
        return false;
    }
    let mut i: usize = 0;
    while i < 32
        invariant
            chars@ == hash@,
            chars.len() == BLAKE3_HEX_LEN,
            i <= 32,
            forall|j: int| 0 <= j < 2 * i ==> #[trigger] chars@[j] == hex_text(expected@)[j],
        decreases 32 - i,
    {
        let ghost text = hex_text(expected@);
        let byte: u8 = expected[i];
        assert(text[2 * i] == hex_digit((byte / 16) as nat));
        assert(text[2 * i + 1] == hex_digit((byte % 16) as nat));
        if chars[2 * i] != lower_hex_char(byte / 16) {
            return false;
        }
        if chars[2 * i + 1] != lower_hex_char(byte % 16) {
            return false;
        }
        i = i + 1;
    }
    assert(chars@ =~= hex_text(expected@));
    true
}

pub fn push_blake3_hex(output: &mut String, hash: &[u8; 32])
    ensures
        final(output)@ == old(output)@ + hex_text(hash@),
{
    push_hex_prefix(output, hash, 32);
    assert(hex_text(hash@.take(32)) =~= hex_text(hash@)) by {
        assert(hash@.take(32) =~= hash@);
    }
}

/// Appends the hexadecimal text of the first `count` bytes.
fn push_hex_prefix(output: &mut String, hash: &[u8; 32], count: usize)
    requires
        count <= 32,
    ensures
        final(output)@ == old(output)@ + hex_text(hash@.take(count as int)),
{
    let mut i: usize = 0;
    assert(output@ =~= old(output)@ + hex_text(hash@.take(0)));
    while i < count
        invariant
            i <= count <= 32,
            output@ == old(output)@ + hex_text(hash@.take(i as int)),
        decreases count - i,
    {
        let byte: u8 = hash[i];
        let ghost before = output@;
        output.push(lower_hex_char(byte / 16));
        output.push(lower_hex_char(byte % 16));
        i = i + 1;
        proof {
            let shorter = hex_text(hash@.take(i - 1));
            let longer = hex_text(hash@.take(i as int));
            let pair = seq![hex_digit((byte / 16) as nat), hex_digit((byte % 16) as nat)];
            assert(longer =~= shorter + pair) by {
                assert forall|j: int| 0 <= j < longer.len() implies longer[j] == (shorter + pair)[j] by {
                    if j < shorter.len() {
                        assert(j / 2 < i - 1);
                    } else {
                        assert(j / 2 == i - 1);
                    }
                }
            }
            assert(output@ =~= before + pair);
        }
    }
}

/// The first twelve hexadecimal digits of a digest.
pub fn short_blake3_hex_from_hash(hash: &[u8; 32]) -> (text: String)
    ensures
        text@ == hex_text(hash@.take(6)),
        text@.len() == 12,
{
    let mut output: String = String::with_capacity(12);
    push_hex_prefix(&mut output, hash, 6);
    assert(output@ =~= hex_text(hash@.take(6)));
    output
}

pub fn short_blake3_hex(bytes: &[u8]) -> (text: String)
    ensures
        text@ == hex_text(blake3_digest(bytes@).take(6)),
        text@.len() == 12,
{
    let hash: [u8; 32] = blake3_hash(bytes);
    short_blake3_hex_from_hash(&hash)
}

/// Two digits stand for a byte, the first for its higher half.
pub proof fn lemma_hex_text_value(bytes: Seq<u8>, i: int)
    requires
        0 <= i < bytes.len(),
    ensures
        hex_text(bytes).len() == 2 * bytes.len(),
        16 * json_escape::hex_value(hex_text(bytes)[2 * i]) + json_escape::hex_value(
            hex_text(bytes)[2 * i + 1],
        ) == bytes[i],
{
    let text = hex_text(bytes);
    assert((2 * i) / 2 == i && (2 * i) % 2 == 0);
    assert((2 * i + 1) / 2 == i && (2 * i + 1) % 2 == 1);
    lemma_hex_digit((bytes[i] / 16) as nat);
    lemma_hex_digit((bytes[i] % 16) as nat);
}

} // verus!

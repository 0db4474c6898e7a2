//! Standard base64 with padding.

use vstd::prelude::*;

verus! {

/// The digit for six bits.
pub open spec fn base64_digit(value: nat) -> char {
    if value < 26 {
        (('A' as u32) + value) as u32 as char
    } else if value < 52 {
        (('a' as u32) + (value - 26)) as u32 as char
    } else if value < 62 {
        (('0' as u32) + (value - 52)) as u32 as char
    } else if value == 62 {
        '+'
    } else {
        '/'
    }
}

/// Three bytes become four digits; one or two bytes at the end are padded with `=`.
pub open spec fn base64(bytes: Seq<u8>) -> Seq<char>
    decreases bytes.len(),
{
    if bytes.len() == 0 {
        Seq::empty()
    } else if bytes.len() == 1 {
        seq![
            base64_digit(bytes[0] as nat / 4),
            base64_digit((bytes[0] as nat % 4) * 16),
            '=',
            '=',
        ]
    } else if bytes.len() == 2 {
        seq![
            base64_digit(bytes[0] as nat / 4),
            base64_digit((bytes[0] as nat % 4) * 16 + bytes[1] as nat / 16),
            base64_digit((bytes[1] as nat % 16) * 4),
            '=',
        ]
    } else {
        seq![
            base64_digit(bytes[0] as nat / 4),
            base64_digit((bytes[0] as nat % 4) * 16 + bytes[1] as nat / 16),
            base64_digit((bytes[1] as nat % 16) * 4 + bytes[2] as nat / 64),
            base64_digit(bytes[2] as nat % 64),
        ] + base64(bytes.skip(3))
    }
}

/// How many digits `len` bytes become.
pub open spec fn base64_len(len: nat) -> nat {
    4 * ((len + 2) / 3)
}

pub proof fn lemma_base64_len(bytes: Seq<u8>)
    ensures
        base64(bytes).len() == base64_len(bytes.len()),
    decreases bytes.len(),
{
    if bytes.len() > 2 {
        lemma_base64_len(bytes.skip(3));
        assert((bytes.len() + 2) / 3 == (bytes.len() - 3 + 2) / 3 + 1);
    }
}

/// `base64_simd::STANDARD.encode_to_string`: standard base64 with padding. More digits than
/// memory can hold would panic.
#[verifier::external_body]
pub(crate) fn to_standard_base64(bytes: &[u8]) -> (digits: String)
    requires
        base64_len(bytes@.len()) <= isize::MAX,
    ensures
        digits@ == base64(bytes@),
{
    base64_simd::STANDARD.encode_to_string(bytes)
}

/// Whether a text is the base64 of some bytes.
pub open spec fn is_base64(digits: Seq<char>) -> bool {
    exists|bytes: Seq<u8>| #[trigger] base64(bytes) == digits
}

/// `base64_simd::STANDARD.decode_to_vec`: the bytes that a text is the standard base64 of, padding
/// and unused bits checked; an error for every other text.
#[verifier::external_body]
pub(crate) fn from_standard_base64(digits: &str) -> (bytes: Option<Vec<u8>>)
    ensures
        bytes is Some == is_base64(digits@),
        bytes matches Some(decoded) ==> base64(decoded@) == digits@,
{
    base64_simd::STANDARD.decode_to_vec(digits).ok()
}

proof fn lemma_digit_injective(left: nat, right: nat)
    requires
        left < 64,
        right < 64,
        base64_digit(left) == base64_digit(right),
    ensures
        left == right,
{
}

proof fn lemma_digit_is_no_padding(value: nat)
    requires
        value < 64,
    ensures
        base64_digit(value) != '=',
{
}

/// Two byte strings with the same base64 are the same.
pub proof fn lemma_base64_injective(left: Seq<u8>, right: Seq<u8>)
    requires
        base64(left) == base64(right),
    ensures
        left == right,
    decreases left.len(),
{
    lemma_base64_len(left);
    lemma_base64_len(right);
    let digits = base64(left);
    if left.len() == 0 {
        assert(right.len() == 0);
        assert(left =~= right);
    } else {
        assert(right.len() > 0);
        let l0 = left[0] as nat;
        let r0 = right[0] as nat;
        assert(digits[0] == base64_digit(l0 / 4) && digits[0] == base64_digit(r0 / 4));
        lemma_digit_injective(l0 / 4, r0 / 4);
        lemma_groups(left);
        lemma_groups(right);
        if left.len() == 1 {
            assert(right.len() == 1);
            lemma_digit_injective((l0 % 4) * 16, (r0 % 4) * 16);
            assert(left =~= right);
        } else if left.len() == 2 {
            assert(right.len() == 2);
            let l1 = left[1] as nat;
            let r1 = right[1] as nat;
            lemma_digit_injective((l0 % 4) * 16 + l1 / 16, (r0 % 4) * 16 + r1 / 16);
            lemma_digit_injective((l1 % 16) * 4, (r1 % 16) * 4);
            assert(left =~= right);
        } else {
            assert(right.len() > 2);
            let l1 = left[1] as nat;
            let r1 = right[1] as nat;
            let l2 = left[2] as nat;
            let r2 = right[2] as nat;
            lemma_first_group(left);
            lemma_first_group(right);
            lemma_digit_injective((l0 % 4) * 16 + l1 / 16, (r0 % 4) * 16 + r1 / 16);
            lemma_digit_injective((l1 % 16) * 4 + l2 / 64, (r1 % 16) * 4 + r2 / 64);
            lemma_digit_injective(l2 % 64, r2 % 64);
            assert(digits.skip(4) =~= base64(left.skip(3)));
            assert(digits.skip(4) =~= base64(right.skip(3)));
            lemma_base64_injective(left.skip(3), right.skip(3));
            assert forall|i: int| 0 <= i < left.len() implies left[i] == right[i] by {
                if i >= 3 {
                    assert(left.skip(3)[i - 3] == left[i]);
                    assert(right.skip(3)[i - 3] == right[i]);
                }
            }
            assert(left.skip(3).len() == right.skip(3).len());
            assert(left =~= right);
        }
    }
}

/// The digits of the first three bytes.
proof fn lemma_first_group(bytes: Seq<u8>)
    requires
        bytes.len() > 2,
    ensures
        base64(bytes)[1] == base64_digit((bytes[0] as nat % 4) * 16 + bytes[1] as nat / 16),
        base64(bytes)[2] == base64_digit((bytes[1] as nat % 16) * 4 + bytes[2] as nat / 64),
        base64(bytes)[3] == base64_digit(bytes[2] as nat % 64),
{
}

/// The third and fourth digit of the first group tell how many bytes it stands for.
proof fn lemma_groups(bytes: Seq<u8>)
    requires
        bytes.len() > 0,
    ensures
        base64(bytes).len() >= 4,
        base64(bytes)[2] == '=' <==> bytes.len() == 1,
        base64(bytes)[3] == '=' <==> bytes.len() <= 2,
{
    if bytes.len() >= 2 {
        lemma_digit_is_no_padding((bytes[1] as nat % 16) * 4);
    }
    if bytes.len() >= 3 {
        lemma_digit_is_no_padding((bytes[1] as nat % 16) * 4 + bytes[2] as nat / 64);
        lemma_digit_is_no_padding(bytes[2] as nat % 64);
    }
}

} // verus!

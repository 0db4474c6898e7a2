//! Decimal numerals.

use vstd::arithmetic::power::*;
use vstd::prelude::*;

verus! {

pub open spec fn decimal_digit(value: nat) -> char {
    (48 + value) as char
}

pub open spec fn is_decimal_digit(c: char) -> bool {
    '0' <= c && c <= '9'
}

/// The shortest decimal numeral of `value`.
pub open spec fn decimal_text(value: nat) -> Seq<char>
    decreases value,
{
    if value < 10 {
        seq![decimal_digit(value)]
    } else {
        decimal_text(value / 10).push(decimal_digit(value % 10))
    }
}

/// The number that a sequence of decimal digits denotes; leading zeros are allowed.
pub open spec fn decimal_value(digits: Seq<char>) -> nat
    decreases digits.len(),
{
    if digits.len() == 0 {
        0
    } else {
        (decimal_value(digits.drop_last()) * 10 + (digits.last() as nat - 48)) as nat
    }
}

/// A numeral is a nonempty run of digits that denotes the number it was written for.
pub proof fn lemma_decimal_text(value: nat)
    ensures
        decimal_text(value).len() > 0,
        forall|i: int|
            0 <= i < decimal_text(value).len() ==> is_decimal_digit(
                #[trigger] decimal_text(value)[i],
            ),
        decimal_value(decimal_text(value)) == value,
    decreases value,
{
    if value < 10 {
        let text = decimal_text(value);
        assert(text.drop_last() =~= Seq::<char>::empty());
        assert(decimal_value(text.drop_last()) == 0);
        assert(text.last() as nat == 48 + value);
    } else {
        lemma_decimal_text(value / 10);
        let text = decimal_text(value);
        assert(text.drop_last() =~= decimal_text(value / 10));
        assert(text.last() as nat == 48 + value % 10);
    }
}

/// Different numbers have different numerals.
pub proof fn lemma_decimal_text_injective(left: nat, right: nat)
    requires
        decimal_text(left) == decimal_text(right),
    ensures
        left == right,
{
    lemma_decimal_text(left);
    lemma_decimal_text(right);
}

/// Each further digit never makes the denoted number smaller.
pub proof fn lemma_decimal_value_grows(digits: Seq<char>, len: int)
    requires
        0 <= len <= digits.len(),
        forall|i: int| 0 <= i < digits.len() ==> is_decimal_digit(#[trigger] digits[i]),
    ensures
        decimal_value(digits.take(len)) <= decimal_value(digits),
    decreases digits.len() - len,
{
    if len == digits.len() {
        assert(digits.take(len) =~= digits);
    } else {
        lemma_decimal_value_grows(digits, len + 1);
        assert(digits.take(len + 1).drop_last() =~= digits.take(len));
        assert(is_decimal_digit(digits[len]));
    }
}

/// `itoa::Buffer::format`: the decimal numeral of an unsigned integer, without sign, padding or
/// leading zeros.
#[verifier::external_body]
pub(crate) fn itoa_numeral(value: u128) -> (text: String)
    ensures
        text@ == decimal_text(value as nat),
{
    itoa::Buffer::new().format(value).to_string()
}

pub fn push_decimal_u32(output: &mut String, value: u32)
    ensures
        final(output)@ == old(output)@ + decimal_text(value as nat),
{
    let numeral: String = itoa_numeral(value as u128);
    output.push_str(numeral.as_str());
}

pub fn push_decimal_u64(output: &mut String, value: u64)
    ensures
        final(output)@ == old(output)@ + decimal_text(value as nat),
{
    let numeral: String = itoa_numeral(value as u128);
    output.push_str(numeral.as_str());
}

pub fn push_decimal_usize_json(output: &mut String, value: usize)
    ensures
        final(output)@ == old(output)@ + decimal_text(value as nat),
{
    let numeral: String = itoa_numeral(value as u128);
    output.push_str(numeral.as_str());
}

/// The number of digits in the numeral of `value`.
pub fn decimal_u128_len(value: u128) -> (len: usize)
    ensures
        len == decimal_text(value as nat).len(),
{
    let mut rest: u128 = value;
    let mut len: usize = 1;
    proof {
        assert(pow(10, 39) == 1_000_000_000_000_000_000_000_000_000_000_000_000_000int) by {
            reveal_with_fuel(pow, 40);
        }
        lemma_numeral_len_bound(value as nat, 39);
    }
    while rest >= 10
        invariant
            decimal_text(value as nat).len() <= 39,
            1 <= len <= decimal_text(value as nat).len(),
            decimal_text(value as nat).len() == decimal_text(rest as nat).len() + len - 1,
        decreases rest,
    {
        proof {
            lemma_decimal_text((rest / 10) as nat);
        }
        rest = rest / 10;
        len = len + 1;
    }
    len
}

pub fn decimal_usize_len(value: usize) -> (len: usize)
    ensures
        len == decimal_text(value as nat).len(),
{
    decimal_u128_len(value as u128)
}

proof fn lemma_numeral_len_bound(value: nat, digits: nat)
    requires
        digits > 0,
        value < pow(10, digits),
    ensures
        decimal_text(value).len() <= digits,
    decreases digits,
{
    if value >= 10 {
        reveal(pow);
        if digits == 1 {
            assert(pow(10, 1) == 10 * pow(10, 0));
            assert(false);
        }
        let less: nat = (digits - 1) as nat;
        assert(pow(10, digits) == 10 * pow(10, less));
        assert(value / 10 < pow(10, less));
        lemma_numeral_len_bound(value / 10, less);
    }
}

} // verus!

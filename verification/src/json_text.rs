//! JSON string literals as `serde_json` writes them.

use vstd::prelude::*;
use crate::json_escape;

verus! {

/// The escape of one character inside a literal: backspace and form feed have short forms too.
pub open spec fn literal_char(c: char) -> Seq<char> {
    if c as u32 == 8 {
        seq!['\\', 'b']
    } else if c as u32 == 12 {
        seq!['\\', 'f']
    } else {
        json_escape::escaped_char(c)
    }
}

pub open spec fn literal_body(value: Seq<char>) -> Seq<char>
    decreases value.len(),
{
    if value.len() == 0 {
        Seq::empty()
    } else {
        literal_body(value.drop_last()) + literal_char(value.last())
    }
}

/// `value` as a JSON string literal, quotes included.
pub open spec fn string_literal(value: Seq<char>) -> Seq<char> {
    seq!['"'] + literal_body(value) + seq!['"']
}

/// `serde_json::to_string` of a string: a JSON string literal with quotes, backslashes and control
/// characters escaped. Writing a string into memory does not fail.
#[verifier::external_body]
pub(crate) fn json_string_literal(value: &str) -> (literal: Option<String>)
    ensures
        literal is Some,
        literal matches Some(written) ==> written@ == string_literal(value@),
{
    serde_json::to_string(value).ok()
}

} // verus!

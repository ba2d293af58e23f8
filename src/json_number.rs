//! JSON numbers, read by serde_json.

use vstd::prelude::*;

verus! {

#[verifier::external_type_specification]
#[verifier::external_body]
pub struct ExNumber(serde_json::Number);

/// The number serde_json reads from a text, or `None` where it rejects the
/// text (a malformed number, or one out of range).
pub uninterp spec fn json_number_of(text: Seq<char>) -> Option<serde_json::Number>;

/// Relies on `<serde_json::Number as FromStr>::from_str`: the JSON number that
/// a text spells, which depends on the text alone.
#[verifier::external_body]
pub(crate) fn parse_json_number(text: &str) -> (r: Option<serde_json::Number>)
    ensures
        r == json_number_of(text@),
{
    text.parse::<serde_json::Number>().ok()
}

} // verus!

verus! {

/// Relies on `serde_json::Number::as_i64`: the number as an `i64` where it
/// is an integer in range. Nothing is stated of the result.
pub assume_specification[ serde_json::Number::as_i64 ](n: &serde_json::Number) -> Option<i64>;

} // verus!

//! Identifiers of orders and fills.

use vstd::prelude::*;

verus! {

/// Whether a character is a hexadecimal digit in lower case.
pub open spec fn is_hex_digit(c: char) -> bool {
    '0' <= c <= '9' || 'a' <= c <= 'f'
}

/// Whether a text has the form of a random UUID: thirty-two hexadecimal digits in groups of eight,
/// four, four, four and twelve, with the version and the variant in their places.
pub open spec fn is_random_uuid(text: Seq<char>) -> bool {
    &&& text.len() == 36
    &&& forall|i: int|
        0 <= i < 36 ==> if i == 8 || i == 13 || i == 18 || i == 23 {
            #[trigger] text[i] == '-'
        } else {
            is_hex_digit(text[i])
        }
    &&& text[14] == '4'
    &&& text[19] == '8' || text[19] == '9' || text[19] == 'a' || text[19] == 'b'
}

/// `uuid::Uuid::new_v4`, as text. Of the result only its form is stated: the digits are chance, and
/// that two calls give different texts is likely and not certain.
#[verifier::external_body]
pub(crate) fn fresh_id() -> (r: String)
    ensures
        is_random_uuid(r@),
{
    uuid::Uuid::new_v4().to_string()
}

} // verus!

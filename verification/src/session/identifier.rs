//! Identifiers that nobody can guess.
use vstd::prelude::*;

verus! {

/// True for the digits of a hexadecimal number in lower case.
pub open spec fn is_hex_digit(ch: char) -> bool {
    '0' <= ch <= '9' || 'a' <= ch <= 'f'
}

/// True for the text of a random identifier: five groups of hexadecimal digits, of which two tell
/// its kind, between hyphens.
pub open spec fn is_identifier(text: Seq<char>) -> bool {
    &&& text.len() == 36
    &&& forall|i: int|
        0 <= i < 36 ==> if i == 8 || i == 13 || i == 18 || i == 23 {
            #[trigger] text[i] == '-'
        } else {
            is_hex_digit(text[i])
        }
    &&& text[14] == '4'
    &&& (text[19] == '8' || text[19] == '9' || text[19] == 'a' || text[19] == 'b')
}

/// Calls `uuid::Uuid::new_v4` and `to_string` on what it returns: the hyphenated text in lower
/// case of a random number in which the version and the variant are set. The other digits are the
/// operating system's random numbers; nothing is said of them.
#[verifier::external_body]
fn random_identifier() -> (identifier: String)
    ensures
        is_identifier(identifier@),
{
    uuid::Uuid::new_v4().to_string()
}

/// A new identifier.
pub fn new_identifier() -> (identifier: String)
    ensures
        is_identifier(identifier@),
{
    random_identifier()
}

} // verus!

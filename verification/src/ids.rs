//! Identifiers of 128 bits, and their text form.

use vstd::prelude::*;

verus! {

/// Sixteen to the power `n`.
pub open spec fn pow16(n: nat) -> nat
    decreases n,
{
    if n == 0 {
        1
    } else {
        16 * pow16((n - 1) as nat)
    }
}

/// The hexadecimal digit `k` of `id`, counted from the most significant one.
pub open spec fn nibble(id: u128, k: int) -> nat {
    (id as nat / pow16((31 - k) as nat)) % 16
}

/// The hexadecimal digit for `d`, in lower case.
pub open spec fn hex_digit(d: nat) -> char {
    if d < 10 {
        (d + 48) as char
    } else {
        (d + 87) as char
    }
}

/// The text form of `id`: 32 hexadecimal digits in groups of 8, 4, 4, 4 and 12 with hyphens
/// between them.
pub open spec fn hyphenated(id: u128) -> Seq<char> {
    Seq::new(
        36,
        |i: int|
            if i == 8 || i == 13 || i == 18 || i == 23 {
                '-'
            } else if i < 8 {
                hex_digit(nibble(id, i))
            } else if i < 13 {
                hex_digit(nibble(id, i - 1))
            } else if i < 18 {
                hex_digit(nibble(id, i - 2))
            } else if i < 23 {
                hex_digit(nibble(id, i - 3))
            } else {
                hex_digit(nibble(id, i - 4))
            },
    )
}

/// Whether `id` has the version and the variant of a random identifier.
pub open spec fn random_version(id: u128) -> bool {
    nibble(id, 12) == 4 && 8 <= nibble(id, 16) < 12
}

/// `Uuid::to_string` of the crate uuid, on the identifier with the given 128 bits: the
/// hyphenated form in lower case.
#[verifier::external_body]
pub(crate) fn id_text(id: u128) -> (r: String)
    ensures
        r@ == hyphenated(id),
{
    uuid::Uuid::from_u128(id).to_string()
}

/// `Uuid::new_v4` of the crate uuid: some identifier of the random version. Which one is
/// left to chance.
#[verifier::external_body]
fn new_v4() -> (r: u128)
    ensures
        random_version(r),
{
    uuid::Uuid::new_v4().as_u128()
}

/// A fresh random identifier, for a request or a record.
pub fn new_request_id() -> (r: u128)
    ensures
        random_version(r),
{
    new_v4()
}

/// The text form of an identifier has 36 characters: hyphens at four places, and hexadecimal
/// digits in lower case elsewhere.
pub proof fn law_text_form(id: u128, i: int)
    requires
        0 <= i < 36,
    ensures
        hyphenated(id).len() == 36,
        i == 8 || i == 13 || i == 18 || i == 23 ==> hyphenated(id)[i] == '-',
        i != 8 && i != 13 && i != 18 && i != 23 ==> ('0' <= hyphenated(id)[i] && hyphenated(id)[i]
            <= '9') || ('a' <= hyphenated(id)[i] && hyphenated(id)[i] <= 'f'),
{
    assert forall|k: int| 0 <= #[trigger] nibble(id, k) < 16 by {
    }
}

} // verus!

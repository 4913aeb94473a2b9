//! Fresh identifiers for files, downloaders and transfer channels.
use vstd::prelude::*;

verus! {

/// A lower-case hexadecimal digit.
pub open spec fn lower_hex(ch: char) -> bool {
    ('0' <= ch && ch <= '9') || ('a' <= ch && ch <= 'f')
}

/// The hyphenated lower-case text of a random (version 4) UUID: 32 hexadecimal
/// digits in groups of 8, 4, 4, 4 and 12 joined by hyphens, where the third
/// group starts with the version digit `4` and the fourth with one of `8`,
/// `9`, `a`, `b`.
pub open spec fn uuid_text(s: Seq<char>) -> bool {
    &&& s.len() == 36
    &&& forall|i: int|
        0 <= i < 36 ==> if i == 8 || i == 13 || i == 18 || i == 23 {
            #[trigger] s[i] == '-'
        } else {
            lower_hex(s[i])
        }
    &&& s[14] == '4'
    &&& (s[19] == '8' || s[19] == '9' || s[19] == 'a' || s[19] == 'b')
}

/// Calls `uuid::Uuid::new_v4` and formats the result with `to_string`, which
/// writes the hyphenated lower-case form (`Display` goes through `LowerHex` of
/// the hyphenated form); `new_v4` sets the version and variant bits. The value
/// is random: the contract says nothing of which identifier comes back, nor
/// that it differs from any earlier one. (`new_v4` panics only where the
/// operating system cannot provide random bytes.)
#[verifier::external_body]
pub(crate) fn new_id() -> (id: String)
    ensures
        uuid_text(id@),
{
    uuid::Uuid::new_v4().to_string()
}

} // verus!

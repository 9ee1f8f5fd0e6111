//! Identifiers and timestamps that come from outside: random UUIDs and the clock.

use vstd::prelude::*;

verus! {

/// A lowercase hexadecimal digit.
pub open spec fn is_hex_lower(c: char) -> bool {
    ('0' <= c && c <= '9') || ('a' <= c && c <= 'f')
}

/// The hyphenated form of a UUID: 36 characters, hyphens at positions 8, 13,
/// 18 and 23, lowercase hexadecimal digits elsewhere.
pub open spec fn is_uuid_text(s: Seq<char>) -> bool {
    &&& s.len() == 36
    &&& forall|i: int|
        0 <= i < 36 ==> if i == 8 || i == 13 || i == 18 || i == 23 {
            #[trigger] s[i] == '-'
        } else {
            is_hex_lower(s[i])
        }
}

/// `uuid::Uuid::new_v4().to_string()`: a fresh random UUID. Claimed: the text
/// is in the hyphenated lowercase form that `Uuid`'s `Display` writes. Which
/// UUID comes back is random, so nothing more is said (in particular not that
/// it differs from earlier ones).
#[verifier::external_body]
pub(crate) fn new_uuid() -> (s: String)
    ensures
        is_uuid_text(s@),
{
    uuid::Uuid::new_v4().to_string()
}

/// `chrono::Utc::now().to_rfc3339()`: the current time. Nothing is claimed of
/// the text: it depends on the clock.
#[verifier::external_body]
pub(crate) fn now_rfc3339() -> (s: String)
{
    chrono::Utc::now().to_rfc3339()
}

} // verus!

//! Task identifiers: UUIDs held as their 128-bit value, made and read by
//! the uuid crate.

use vstd::prelude::*;

verus! {

/// What `Uuid::parse_str` reads from a text, as a 128-bit value.
pub uninterp spec fn uuid_parse_of(s: Seq<char>) -> Option<u128>;

/// The hyphenated lower-case text that uuid's `Display` writes for a value.
pub uninterp spec fn uuid_text_of(v: u128) -> Seq<char>;

/// Relies on `uuid::Uuid::new_v4`: a fresh random identifier.
#[verifier::external_body]
pub(crate) fn new_uuid() -> (r: u128) {
    uuid::Uuid::new_v4().as_u128()
}

/// Relies on `uuid::Uuid::parse_str`: the identifier a text names, if any.
#[verifier::external_body]
pub(crate) fn parse_uuid(s: &str) -> (r: Option<u128>)
    ensures
        r == uuid_parse_of(s@),
{
    uuid::Uuid::parse_str(s).ok().map(|u| u.as_u128())
}

/// A character of the hyphenated form: a lower-case hex digit or `-`.
pub open spec fn is_uuid_char(c: char) -> bool {
    ('0' <= c && c <= '9') || ('a' <= c && c <= 'f') || c == '-'
}

/// Relies on uuid's `Display` for `Uuid` (`Uuid::from_u128` then
/// `to_string`): the hyphenated lower-case text of an identifier, 36
/// characters, which `Uuid::parse_str` reads back as the same identifier.
#[verifier::external_body]
pub(crate) fn uuid_text(v: u128) -> (r: String)
    ensures
        r@ == uuid_text_of(v),
        r@.len() == 36,
        forall|i: int| 0 <= i < r@.len() ==> is_uuid_char(#[trigger] r@[i]),
        uuid_parse_of(r@) == Some(v),
{
    uuid::Uuid::from_u128(v).to_string()
}

} // verus!

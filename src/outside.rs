//! Calls into the object-id, object-kind and date crates, with the contracts
//! the rest of the library relies on.
use git_object::Kind as ObjectKind;
use vstd::prelude::*;

verus! {

#[verifier::external_type_specification]
#[verifier::external_body]
pub struct ExPrefix(git_hash::Prefix);

#[verifier::external_type_specification]
#[verifier::external_body]
pub struct ExTime(git_date::Time);

#[verifier::external_type_specification]
pub struct ExObjectKind(ObjectKind);

/// Whether `b` is a hexadecimal digit, in either case.
pub open spec fn is_hex_digit(b: u8) -> bool {
    (48 <= b <= 57) || (97 <= b <= 102) || (65 <= b <= 70)
}

/// Whether `s` is the hexadecimal form of an object-id prefix: between four
/// and forty hexadecimal digits.
pub open spec fn is_hex_prefix(s: Seq<u8>) -> bool {
    4 <= s.len() <= 40 && forall|i: int| 0 <= i < s.len() ==> #[trigger] is_hex_digit(s[i])
}

/// The object kind that a loose-object header names, if any.
pub open spec fn object_kind_of(s: Seq<u8>) -> Option<ObjectKind> {
    if s == seq![116u8, 114u8, 101u8, 101u8] {
        Some(ObjectKind::Tree)
    } else if s == seq![98u8, 108u8, 111u8, 98u8] {
        Some(ObjectKind::Blob)
    } else if s == seq![99u8, 111u8, 109u8, 109u8, 105u8, 116u8] {
        Some(ObjectKind::Commit)
    } else if s == seq![116u8, 97u8, 103u8] {
        Some(ObjectKind::Tag)
    } else {
        None
    }
}

/// The prefix that `git_hash::Prefix::from_hex` makes of the hexadecimal digits `hex`.
pub uninterp spec fn prefix_of(hex: Seq<u8>) -> git_hash::Prefix;

/// Relies on `git_hash::Prefix::from_hex`: it accepts four to forty
/// hexadecimal digits and rejects anything longer, shorter, or holding another
/// character, and the prefix depends on the digits alone. Text that is not UTF-8 cannot be handed to it and yields `None`.
#[verifier::external_body]
pub(crate) fn prefix_from_hex(hex: &[u8]) -> (r: Option<git_hash::Prefix>)
    ensures
        r is Some <==> is_hex_prefix(hex@),
        r matches Some(p) ==> p == prefix_of(hex@),
{
    match std::str::from_utf8(hex) {
        Ok(s) => git_hash::Prefix::from_hex(s).ok(),
        Err(_) => None,
    }
}

/// Relies on `ObjectKind::from_bytes`: exactly `tree`, `blob`, `commit`
/// and `tag` name an object kind.
#[verifier::external_body]
pub(crate) fn object_kind_from_bytes(s: &[u8]) -> (r: Option<ObjectKind>)
    ensures
        r == object_kind_of(s@),
{
    ObjectKind::from_bytes(s).ok()
}

/// Relies on `git_date::parse`, handed the current time for relative dates.
/// Whether and to what it parses depends on the clock, so nothing is promised.
#[verifier::external_body]
pub(crate) fn parse_date(text: &[u8]) -> (r: Option<git_date::Time>) {
    match std::str::from_utf8(text) {
        Ok(s) => git_date::parse(s, Some(std::time::SystemTime::now())).ok(),
        Err(_) => None,
    }
}

} // verus!

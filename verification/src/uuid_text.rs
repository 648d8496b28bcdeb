//! UUIDs written as text, read and written through the `uuid` and
//! `serde_json` crates, and fresh random UUIDs. A UUID is carried as its
//! 128-bit value.

use vstd::prelude::*;

verus! {

#[verifier::external_type_specification]
#[verifier::external_body]
pub struct ExUuidError(uuid::Error);

/// The UUID that `uuid::Uuid::parse_str` reads from text `s` (any of the
/// crate's formats: simple, hyphenated, braced, URN), `None` where it fails.
pub uninterp spec fn uuid_text_value(s: Seq<char>) -> Option<u128>;

/// The UUIDs that `serde_json::from_str::<Vec<uuid::Uuid>>` reads from JSON
/// text `s`, `None` where it fails.
pub uninterp spec fn uuid_json_list(s: Seq<char>) -> Option<Seq<u128>>;

/// Calls `uuid::Uuid::parse_str`; the value, as `u128`, is named by
/// `uuid_text_value`, and the crate's error is handed back on failure.
#[verifier::external_body]
pub(crate) fn uuid_parse_str(s: &str) -> (r: Result<u128, uuid::Error>)
    ensures
        match r {
            Ok(v) => uuid_text_value(s@) == Some(v),
            Err(_) => uuid_text_value(s@) is None,
        },
{
    match uuid::Uuid::parse_str(s) {
        Ok(u) => Ok(u.as_u128()),
        Err(e) => Err(e),
    }
}

/// Calls `serde_json::from_str::<Vec<uuid::Uuid>>`; the list, as `u128`
/// values, is named by `uuid_json_list`.
#[verifier::external_body]
pub(crate) fn uuid_list_from_json(s: &str) -> (r: Option<Vec<u128>>)
    ensures
        match r {
            Some(v) => uuid_json_list(s@) == Some(v@),
            None => uuid_json_list(s@) is None,
        },
{
    match serde_json::from_str::<Vec<uuid::Uuid>>(s) {
        Ok(list) => Some(list.iter().map(|u| u.as_u128()).collect()),
        Err(_) => None,
    }
}

/// Lower-case hexadecimal digit for `n < 16`.
pub open spec fn lower_hex_char(n: nat) -> char {
    if n < 10 {
        (n + 48) as char
    } else {
        (n + 87) as char
    }
}

/// The last `n` hexadecimal digits of `v`, most significant first.
pub open spec fn hex_digits(v: nat, n: nat) -> Seq<char>
    decreases n,
{
    if n == 0 {
        Seq::empty()
    } else {
        hex_digits(v / 16, (n - 1) as nat).push(lower_hex_char(v % 16))
    }
}

/// The hyphenated lower-case text of a UUID: its 32 hexadecimal digits in
/// groups of 8, 4, 4, 4 and 12, joined by `-`.
pub open spec fn uuid_hyphenated(u: u128) -> Seq<char> {
    let d = hex_digits(u as nat, 32);
    d.subrange(0, 8) + seq!['-'] + d.subrange(8, 12) + seq!['-'] + d.subrange(12, 16) + seq!['-']
        + d.subrange(16, 20) + seq!['-'] + d.subrange(20, 32)
}

/// A UUID as a JSON string.
pub open spec fn uuid_json_string(u: u128) -> Seq<char> {
    seq!['"'] + uuid_hyphenated(u) + seq!['"']
}

/// The JSON strings of `us` joined by commas.
pub open spec fn uuid_json_items(us: Seq<u128>) -> Seq<char>
    decreases us.len(),
{
    if us.len() == 0 {
        Seq::empty()
    } else if us.len() == 1 {
        uuid_json_string(us[0])
    } else {
        uuid_json_items(us.drop_last()) + seq![','] + uuid_json_string(us.last())
    }
}

/// Compact JSON array of the UUIDs of `us`, in order.
pub open spec fn uuid_json_array(us: Seq<u128>) -> Seq<char> {
    seq!['['] + uuid_json_items(us) + seq![']']
}

/// A version-4 UUID of the RFC 4122 variant: version nibble 4, variant bits `10`.
pub open spec fn is_v4_uuid(u: u128) -> bool {
    u & 0xF000_C000_0000_0000_0000u128 == 0x4000_8000_0000_0000_0000u128
}

/// Calls `Uuid::to_string` (its `Display`, the hyphenated lower-case form),
/// which `Uuid::parse_str` reads back as the same UUID.
#[verifier::external_body]
pub(crate) fn uuid_to_text(u: u128) -> (s: String)
    ensures
        s@ == uuid_hyphenated(u),
        uuid_text_value(s@) == Some(u),
{
    uuid::Uuid::from_u128(u).to_string()
}

/// Calls `serde_json::to_string` on the list as `Vec<uuid::Uuid>` (each UUID
/// serialised as its hyphenated lower-case string; the call does not fail on
/// such a list). Reading the text back with `serde_json::from_str` gives the
/// same list.
#[verifier::external_body]
pub(crate) fn uuid_list_to_json(us: &Vec<u128>) -> (s: String)
    ensures
        s@ == uuid_json_array(us@),
        uuid_json_list(s@) == Some(us@),
{
    let list: Vec<uuid::Uuid> = us.iter().map(|u| uuid::Uuid::from_u128(*u)).collect();
    match serde_json::to_string(&list) {
        Ok(s) => s,
        Err(_) => String::from("[]"),
    }
}

/// Calls `uuid::Uuid::new_v4`: random bits with the version and variant set.
/// Nothing more is stated of the draw.
#[verifier::external_body]
pub(crate) fn new_v4_uuid() -> (u: u128)
    ensures
        is_v4_uuid(u),
{
    uuid::Uuid::new_v4().as_u128()
}

} // verus!

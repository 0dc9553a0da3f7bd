//! Identifiers and time stamps.
use vstd::prelude::*;

verus! {

/// A digit of a number written in base sixteen, in lower case.
pub open spec fn is_lower_hex(c: char) -> bool {
    ('0' <= c && c <= '9') || ('a' <= c && c <= 'f')
}

/// A random identifier in its hyphenated form: five groups of lower-case digits in
/// base sixteen, with the marks of its version and its variant.
pub open spec fn is_uuid(s: Seq<char>) -> bool {
    &&& s.len() == 36
    &&& forall|i: int|
        0 <= i < 36 ==> if i == 8 || i == 13 || i == 18 || i == 23 {
            #[trigger] s[i] == '-'
        } else {
            is_lower_hex(s[i])
        }
    &&& s[14] == '4'
    &&& s[19] == '8' || s[19] == '9' || s[19] == 'a' || s[19] == 'b'
}

/// `uuid::Uuid::new_v4`, written out as its `Display` does: hyphenated, in lower case,
/// of version four and the standard variant. The other digits are random, so nothing
/// is stated of them.
#[verifier::external_body]
pub(crate) fn fresh_id() -> (r: String)
    ensures
        is_uuid(r@),
{
    uuid::Uuid::new_v4().to_string()
}

/// `std::time::SystemTime::now` in whole seconds since the Unix epoch, zero before
/// it. Nothing is stated: it is whatever the clock says.
#[verifier::external_body]
pub(crate) fn now_secs() -> (r: i64) {
    std::time::SystemTime::now()
        .duration_since(std::time::UNIX_EPOCH)
        .map(|d| d.as_secs() as i64)
        .unwrap_or(0)
}

/// `std::time::SystemTime::now` in whole milliseconds since the Unix epoch, zero
/// before it. Nothing is stated: it is whatever the clock says.
#[verifier::external_body]
pub(crate) fn now_ms() -> (r: u64) {
    std::time::SystemTime::now()
        .duration_since(std::time::UNIX_EPOCH)
        .map(|d| d.as_millis() as u64)
        .unwrap_or(0)
}

} // verus!

//! The wall-clock time source.

use vstd::prelude::*;

verus! {

/// Relies on `time::OffsetDateTime::now_utc` and `format` with the
/// well-known RFC 3339 description: the current UTC instant rendered as
/// RFC 3339 text, or nothing when formatting fails.  The result depends on
/// the clock, so nothing is promised of its value; callers must produce a
/// well-formed document whatever comes back.
#[verifier::external_body]
pub(crate) fn rfc3339_now() -> (r: Option<Vec<u8>>) {
    match time::OffsetDateTime::now_utc().format(&time::format_description::well_known::Rfc3339) {
        Ok(s) => Some(s.into_bytes()),
        Err(_) => None,
    }
}

} // verus!

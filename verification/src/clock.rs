//! The clock.

use vstd::prelude::*;

verus! {

/// The present moment as a text in the form of RFC 3339, in UTC: what
/// `chrono::Utc::now()` gives, written out by `DateTime::to_rfc3339`.
///
/// Nothing is claimed of the text, which depends on the clock of the
/// machine. `Utc::now` panics where that clock stands before the year
/// 1970.
#[verifier::external_body]
pub(crate) fn timestamp_now() -> (r: String) {
    chrono::Utc::now().to_rfc3339()
}

} // verus!

//! The time.
use vstd::prelude::*;

verus! {

/// A point in time in UTC: a date and a time of day, then the offset from UTC.
pub open spec fn is_utc_time(s: Seq<char>) -> bool {
    s.len() >= 25 && s.skip(s.len() - 6) == "+00:00"@
}

/// `chrono::Utc::now`, written with `to_rfc3339`: some point in time in UTC. Which one it is,
/// and that it does not go back, is not stated. A clock that is set to before 1970 stops the
/// program.
#[verifier::external_body]
pub(crate) fn utc_now() -> (r: String)
    ensures
        is_utc_time(r@),
{
    chrono::Utc::now().to_rfc3339()
}

} // verus!

//! Wall-clock readings for the time-based filters.
//!
//! What "now" is can only come from outside; the filters take the readings
//! from these two wrappers and hand them to verified functions that do the
//! rest, so everything past the reading itself is proved for every value
//! the clock could give.

use chrono::Datelike;
use vstd::prelude::*;

verus! {

/// Relies on chrono::Utc::now and chrono::DateTime::timestamp: the current
/// time as non-leap seconds since the Unix epoch. chrono's supported date
/// range (about years -262144 to 262143) keeps the count within 2^43;
/// which instant is current depends on the machine clock, so nothing else
/// is promised.
#[verifier::external_body]
pub fn now_unix_seconds() -> (r: i64)
    ensures
        -9_000_000_000_000 <= r <= 9_000_000_000_000,
{
    chrono::Utc::now().timestamp()
}

/// Relies on chrono::Utc::now and chrono::Datelike::ordinal: the current
/// day of the year, documented by chrono to lie in 1 to 366.
#[verifier::external_body]
pub fn now_ordinal() -> (r: u32)
    ensures
        1 <= r <= 366,
{
    chrono::Utc::now().ordinal()
}

} // verus!

//! The wall clock, read in milliseconds.
use vstd::prelude::*;

verus! {

/// Relies on chrono's `From<SystemTime> for DateTime<Utc>` and
/// `DateTime::timestamp_millis`: the current time in milliseconds since the Unix
/// epoch, negative before it. Nothing is known of the value.
#[verifier::external_body]
fn wall_clock_millis() -> i64 {
    chrono::DateTime::<chrono::Utc>::from(std::time::SystemTime::now()).timestamp_millis()
}

/// A clock reading in milliseconds as a time of the store: readings before the
/// epoch count as 0.
pub fn clock_to_time(t: i64) -> (r: u64)
    ensures
        r == (if t < 0 { 0 } else { t as u64 }),
{
    if t < 0 {
        0
    } else {
        t as u64
    }
}

/// The current time in milliseconds since the Unix epoch (see `clock_to_time`).
pub fn now_millis() -> u64 {
    clock_to_time(wall_clock_millis())
}

} // verus!

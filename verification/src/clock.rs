//! The wall clock.
use vstd::prelude::*;

verus! {

/// `std::time::SystemTime`, a reading of the wall clock.
#[verifier::external_type_specification]
#[verifier::external_body]
pub struct ExSystemTime(std::time::SystemTime);

/// The wall clock, by `std::time::SystemTime::now`.
///
/// Nothing is claimed of the reading: it differs from call to call.
#[verifier::external_body]
fn system_now() -> std::time::SystemTime {
    std::time::SystemTime::now()
}

/// The nanoseconds from the Unix epoch to a reading, by
/// `std::time::SystemTime::duration_since`; zero for a reading before the epoch.
///
/// Nothing is claimed of the number: what a reading holds is the machine's.
#[verifier::external_body]
fn since_epoch(reading: std::time::SystemTime) -> u128 {
    reading.duration_since(std::time::UNIX_EPOCH).map_or(0, |elapsed| elapsed.as_nanos())
}

/// Nanoseconds since the Unix epoch.
pub(crate) fn unix_nanos() -> u128 {
    since_epoch(system_now())
}

/// Whole seconds in a number of nanoseconds, or the greatest number of seconds
/// that can be told.
fn whole_seconds(nanos: u128) -> (r: u64)
    ensures
        r == if nanos / 1_000_000_000 <= u64::MAX {
            (nanos / 1_000_000_000) as int
        } else {
            u64::MAX as int
        },
{
    let seconds: u128 = nanos / 1_000_000_000;
    if seconds <= u64::MAX as u128 {
        seconds as u64
    } else {
        u64::MAX
    }
}

/// Seconds since the Unix epoch.
pub(crate) fn unix_seconds() -> u64 {
    whole_seconds(unix_nanos())
}

} // verus!

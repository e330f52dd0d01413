//! The wall clock, as milliseconds since the Unix epoch.
use vstd::prelude::*;

verus! {

/// A signed millisecond timestamp read as an unsigned one: a timestamp from
/// before the epoch wraps around to the top of the unsigned range.
pub open spec fn unsigned_millis(timestamp: i64) -> u64 {
    if timestamp >= 0 {
        timestamp as u64
    } else {
        (timestamp + 0x1_0000_0000_0000_0000) as u64
    }
}

/// Reads a signed millisecond timestamp as an unsigned one.
pub fn millis_from_timestamp(timestamp: i64) -> (millis: u64)
    ensures
        millis == unsigned_millis(timestamp),
{
    if timestamp >= 0 {
        timestamp as u64
    } else {
        let below: i64 = -(timestamp + 1);
        u64::MAX - (below as u64)
    }
}

/// Reads the system clock with `std::time::SystemTime::now`, turns the
/// reading into a `chrono::DateTime<Utc>` with chrono's `From<SystemTime>`
/// and reads that with `DateTime::timestamp_millis`. A clock that stands
/// before the Unix epoch gives a negative timestamp; the conversion covers
/// every reading within chrono's range of dates, some 262,000 years either
/// side of the epoch. The value depends on the system clock, so nothing is
/// claimed of it.
#[verifier::external_body]
fn utc_timestamp_millis() -> (timestamp: i64) {
    chrono::DateTime::<chrono::Utc>::from(std::time::SystemTime::now()).timestamp_millis()
}

/// The current time in milliseconds since the Unix epoch.
pub fn now_millis() -> (millis: u64) {
    millis_from_timestamp(utc_timestamp_millis())
}

} // verus!

//! The wall clock, behind trusted wrappers. The current time depends on
//! the machine, so nothing is promised of the values; every caller states
//! what holds of whatever came back.

use vstd::prelude::*;

verus! {

/// Relies on std's `SystemTime::now` and chrono's `From<SystemTime>` and
/// `DateTime::timestamp_nanos_opt`: the current time in nanoseconds since
/// the Unix epoch, or zero for a time that does not fit. The conversion
/// handles a clock before the epoch without panicking. Nothing is
/// promised of the value.
#[verifier::external_body]
pub fn now_timestamp_nanos() -> i64 {
    let now = chrono::DateTime::<chrono::Utc>::from(std::time::SystemTime::now());
    match now.timestamp_nanos_opt() {
        Some(t) => t,
        None => 0,
    }
}

/// Relies on std's `SystemTime::now` and chrono's `From<SystemTime>` and
/// `DateTime::timestamp_millis`: the current time in milliseconds since
/// the Unix epoch, clamped below at zero. The conversion handles a clock
/// before the epoch without panicking. Nothing is promised of the value.
#[verifier::external_body]
pub fn now_timestamp_millis() -> u64 {
    let now = chrono::DateTime::<chrono::Utc>::from(std::time::SystemTime::now());
    let ms = now.timestamp_millis();
    if ms >= 0 {
        ms as u64
    } else {
        0
    }
}

} // verus!

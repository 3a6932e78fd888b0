//! The day counter of personal memory: whole days since the Unix epoch.

use vstd::prelude::*;
use std::time::{Duration, SystemTime, SystemTimeError, UNIX_EPOCH};

verus! {

/// `std::time::SystemTime`, a clock reading; opaque.
#[verifier::external_type_specification]
#[verifier::external_body]
pub struct ExSystemTime(SystemTime);

/// `std::time::SystemTimeError`, a reading earlier than the reference; opaque.
#[verifier::external_type_specification]
#[verifier::external_body]
pub struct ExSystemTimeError(SystemTimeError);

/// `SystemTime::now`: what the system clock reads; nothing is known of it.
#[verifier::external_body]
fn system_now() -> SystemTime {
    SystemTime::now()
}

/// `SystemTime::duration_since` the Unix epoch: an error when the clock
/// reads earlier than the epoch. What it returns depends on the clock, so
/// nothing is stated of it.
#[verifier::external_body]
fn since_epoch(t: &SystemTime) -> Result<Duration, SystemTimeError> {
    t.duration_since(UNIX_EPOCH)
}

/// `Duration::as_secs`: the whole seconds of a duration (opaque here).
#[verifier::external_body]
fn whole_secs(d: &Duration) -> u64 {
    d.as_secs()
}

/// The day of a time given in seconds since the epoch (truncated to 32
/// bits, as the day counter is stored).
pub open spec fn day_of(secs: u64) -> u32 {
    (secs / 86400) as u32
}

pub fn day_of_secs(secs: u64) -> (d: u32)
    ensures
        d == day_of(secs),
{
    (secs / 86400) as u32
}

/// Days since the Unix epoch by the system clock; 0 when the clock reads
/// before the epoch. The reading is the clock's, so nothing more is
/// stated; `day_of_secs` is the computation on a given reading.
pub fn today() -> (d: u32) {
    let now = system_now();
    match since_epoch(&now) {
        Ok(dur) => {
            let secs = whole_secs(&dur);
            day_of_secs(secs)
        },
        Err(_) => 0,
    }
}

} // verus!

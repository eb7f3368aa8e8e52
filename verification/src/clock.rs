//! The wall clock, as the decimal timestamps stored with learned records.

use vstd::prelude::*;
use crate::text::{decimal, decimal_string};

verus! {

#[verifier::external_type_specification]
#[verifier::external_body]
pub struct ExSystemTime(std::time::SystemTime);

/// `SystemTime::now`: the current time of the system clock. Nothing is
/// promised of it.
#[verifier::external_body]
fn system_now() -> std::time::SystemTime {
    std::time::SystemTime::now()
}

#[verifier::external_type_specification]
#[verifier::external_body]
pub struct ExSystemTimeError(std::time::SystemTimeError);

/// `SystemTime::duration_since(UNIX_EPOCH)`: how long after the Unix epoch
/// `t` lies, or an error when `t` lies before it. Nothing is promised of the
/// outcome.
#[verifier::external_body]
fn since_epoch(t: &std::time::SystemTime) -> Result<std::time::Duration, std::time::SystemTimeError> {
    t.duration_since(std::time::UNIX_EPOCH)
}

/// `Duration::as_secs`: the whole seconds of a duration. Nothing is promised
/// of the result (a duration is opaque here).
#[verifier::external_body]
fn whole_seconds(d: &std::time::Duration) -> u64 {
    d.as_secs()
}

/// Whole seconds since the Unix epoch at `t`, or `None` when `t` lies before
/// the epoch.
fn seconds_since_epoch(t: &std::time::SystemTime) -> (r: Option<u64>) {
    match since_epoch(t) {
        Ok(d) => Some(whole_seconds(&d)),
        Err(_) => None,
    }
}

/// The seconds a clock reading gives: its whole seconds since the Unix
/// epoch, 0 for a reading before the epoch.
pub open spec fn clock_seconds(secs: Option<u64>) -> nat {
    match secs {
        Some(n) => n as nat,
        None => 0,
    }
}

/// The timestamp text for a clock reading: the decimal numeral of its
/// seconds since the Unix epoch, `0` for a reading before the epoch.
pub fn timestamp_text(secs: Option<u64>) -> (s: String)
    ensures
        s@ == decimal(clock_seconds(secs)),
{
    match secs {
        Some(n) => decimal_string(n),
        None => decimal_string(0),
    }
}

/// The current time as the decimal number of seconds since the Unix epoch
/// (`0` when the clock reads a time before it).
pub fn chrono_lite_now() -> (s: String)
    ensures
        exists|secs: Option<u64>| s@ == decimal(clock_seconds(secs)),
{
    let now = system_now();
    let secs = seconds_since_epoch(&now);
    timestamp_text(secs)
}

} // verus!

//! The time of day, as the mail store stamps it on messages and markers.

use vstd::prelude::*;

verus! {

/// Std's point in time on the system clock.
#[verifier::external_type_specification]
#[verifier::external_body]
pub struct ExSystemTime(std::time::SystemTime);

/// Std's `SystemTime::now`: the time that the system clock shows. Nothing is
/// claimed of it: it differs from call to call.
#[verifier::external_body]
fn system_now() -> (r: std::time::SystemTime) {
    std::time::SystemTime::now()
}

/// Std's `SystemTime::duration_since`, taken from the epoch of Unix: the time
/// that has passed since then, or nothing where the clock stands before it.
/// Nothing is claimed of the result.
#[verifier::external_body]
fn since_epoch(t: &std::time::SystemTime) -> (r: Option<core::time::Duration>) {
    t.duration_since(std::time::UNIX_EPOCH).ok()
}

/// Std's `Duration::as_millis`: the whole milliseconds of a span of time.
/// Nothing is claimed of the result.
#[verifier::external_body]
fn millis(d: &core::time::Duration) -> (r: u128) {
    d.as_millis()
}

/// The time in milliseconds since the epoch of Unix; zero where the clock
/// stands before that epoch.
pub fn now() -> (r: u128) {
    let elapsed = match since_epoch(&system_now()) {
        Some(d) => Some(millis(&d)),
        None => None,
    };
    stamp(elapsed)
}

/// The time stamp for a clock that shows `elapsed` milliseconds since the
/// epoch of Unix: that number, and zero where the clock stands before the
/// epoch.
pub fn stamp(elapsed: Option<u128>) -> (r: u128)
    ensures
        r == match elapsed {
            Some(n) => n,
            None => 0,
        },
{
    match elapsed {
        Some(n) => n,
        None => 0,
    }
}

} // verus!

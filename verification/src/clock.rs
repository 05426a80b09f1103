//! The wall clock, as the storage modules read it.
use vstd::prelude::*;
use std::time::{Duration, SystemTime};

verus! {

/// `std::time::SystemTime`, a point in wall-clock time.
#[verifier::external_type_specification]
#[verifier::external_body]
pub struct ExSystemTime(SystemTime);

/// `SystemTime::now()`. Nothing is stated of the value: it is the clock's.
#[verifier::external_body]
pub(crate) fn system_time_now() -> SystemTime {
    SystemTime::now()
}

/// `t.duration_since(UNIX_EPOCH)`: the span from the Unix epoch to `t`,
/// `None` where `t` is before the epoch. Nothing is stated of the value: it
/// is the clock's.
#[verifier::external_body]
fn since_epoch(t: &SystemTime) -> Option<Duration> {
    match t.duration_since(std::time::UNIX_EPOCH) {
        Ok(d) => Some(d),
        Err(_) => None,
    }
}

/// `Duration::as_secs`: the whole seconds of a span. Nothing is stated of
/// the value: `Duration` is opaque here.
#[verifier::external_body]
fn duration_secs(d: &Duration) -> u64 {
    d.as_secs()
}

/// `Duration::as_millis`: the whole milliseconds of a span. Nothing is
/// stated of the value: `Duration` is opaque here.
#[verifier::external_body]
fn duration_millis(d: &Duration) -> u128 {
    d.as_millis()
}

/// The low 64 bits of a count.
pub fn low_u64(x: u128) -> (r: u64)
    ensures
        r == x % 0x1_0000_0000_0000_0000,
{
    assert((x as u64) == x % 0x1_0000_0000_0000_0000) by (bit_vector);
    x as u64
}

/// Whole seconds from the Unix epoch to `t`; 0 for a time before the epoch.
pub(crate) fn unix_seconds(t: &SystemTime) -> u64 {
    match since_epoch(t) {
        Some(d) => duration_secs(&d),
        None => 0,
    }
}

/// Milliseconds from the Unix epoch to `t`, kept to their low 64 bits; 0
/// for a time before the epoch.
pub(crate) fn unix_millis(t: &SystemTime) -> u64 {
    match since_epoch(t) {
        Some(d) => low_u64(duration_millis(&d)),
        None => 0,
    }
}

} // verus!

//! The wall clock, read through the standard library.

use vstd::prelude::*;

verus! {

/// The standard library's point in time. Nothing inside it is visible here.
#[verifier::external_type_specification]
#[verifier::external_body]
pub struct ExSystemTime(std::time::SystemTime);

/// The standard library's error for a point in time that lies before the
/// one it is compared with. Nothing inside it is visible here.
#[verifier::external_type_specification]
#[verifier::external_body]
pub struct ExSystemTimeError(std::time::SystemTimeError);

/// Calls `std::time::SystemTime::now`. The reading depends on the machine
/// and the moment, so nothing is claimed of it.
#[verifier::external_body]
fn system_now() -> (now: std::time::SystemTime) {
    std::time::SystemTime::now()
}

/// Calls `std::time::SystemTime::duration_since` with the Unix epoch as the
/// earlier instant. It fails when `t` lies before the epoch; nothing more is
/// claimed.
#[verifier::external_body]
fn since_epoch(t: &std::time::SystemTime) -> (elapsed: Result<
    std::time::Duration,
    std::time::SystemTimeError,
>) {
    t.duration_since(std::time::UNIX_EPOCH)
}

/// Calls `std::time::Duration::as_nanos`: the whole duration in
/// nanoseconds. A duration is opaque here, so nothing is claimed.
#[verifier::external_body]
fn whole_nanos(d: &std::time::Duration) -> (nanos: u128) {
    d.as_nanos()
}

/// The reading that stands for a clock `nanos` nanoseconds past the Unix
/// epoch: the count cut to its low 64 bits. There is none for a clock that
/// stands before the epoch.
pub open spec fn spec_reading(nanos: Option<u128>) -> Option<u64> {
    match nanos {
        Some(n) => Some((n % 0x1_0000_0000_0000_0000) as u64),
        None => None,
    }
}

/// Turns what the clock gave, the nanoseconds past the Unix epoch or nothing,
/// into a reading.
pub fn reading(nanos: Option<u128>) -> (now_ns: Option<u64>)
    ensures
        now_ns == spec_reading(nanos),
{
    match nanos {
        Some(n) => {
            assert(n as u64 == n % 0x1_0000_0000_0000_0000) by (bit_vector);
            Some(n as u64)
        },
        None => None,
    }
}

/// The wall clock in nanoseconds since the Unix epoch, cut to 64 bits;
/// `None` when the clock stands before the epoch. The value is whatever the
/// clock gives at the moment of the call, turned into a reading by
/// [`reading`].
pub fn unix_time_ns() -> (now_ns: Option<u64>) {
    let now = system_now();
    let nanos = match since_epoch(&now) {
        Ok(elapsed) => Some(whole_nanos(&elapsed)),
        Err(_) => None,
    };
    reading(nanos)
}

} // verus!

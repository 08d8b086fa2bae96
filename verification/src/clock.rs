//! Wall-clock access: the current instant as plain values. The rest of the
//! library takes instants as arguments; only leaf serial allocation reads the
//! clock through this module.

use vstd::prelude::*;

verus! {

#[verifier::external_type_specification]
#[verifier::external_body]
pub struct ExSystemTime(std::time::SystemTime);

#[verifier::external_type_specification]
#[verifier::external_body]
pub struct ExSystemTimeError(std::time::SystemTimeError);

/// Relies on std's SystemTime::now: the current wall-clock instant. Nothing
/// is promised of it.
#[verifier::external_body]
fn system_now() -> (r: std::time::SystemTime) {
    std::time::SystemTime::now()
}

/// Relies on std's SystemTime::duration_since: the time elapsed from the
/// Unix epoch to the instant, or an error if the instant lies before it.
#[verifier::external_body]
fn duration_since_epoch(t: &std::time::SystemTime) -> (r: Result<
    core::time::Duration,
    std::time::SystemTimeError,
>) {
    t.duration_since(std::time::UNIX_EPOCH)
}

/// Relies on core's Duration::as_secs: the whole-second part of a duration.
#[verifier::external_body]
fn duration_as_secs(d: &core::time::Duration) -> (r: u64) {
    d.as_secs()
}

/// Relies on core's Duration::subsec_nanos: the fractional part of a
/// duration in nanoseconds, documented to lie below one billion.
#[verifier::external_body]
fn duration_subsec_nanos(d: &core::time::Duration) -> (r: u32)
    ensures
        r < 1_000_000_000,
{
    d.subsec_nanos()
}

/// The current instant, as whole seconds since the Unix epoch together with
/// the nanosecond remainder. A clock standing before the epoch yields zero.
pub fn now_since_epoch() -> (r: (u64, u32))
    ensures
        r.1 < 1_000_000_000,
{
    let t = system_now();
    match duration_since_epoch(&t) {
        Ok(d) => (duration_as_secs(&d), duration_subsec_nanos(&d)),
        Err(_) => (0, 0),
    }
}

} // verus!

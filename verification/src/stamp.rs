//! Entry identifiers and timestamps of the write-ahead log.

use vstd::prelude::*;
use std::time::{Duration, SystemTime};

verus! {

#[verifier::external_type_specification]
#[verifier::external_body]
pub struct ExSystemTime(SystemTime);

/// Sixteen bytes of the operating system's source, drawn with
/// `RngCore::try_fill_bytes` of `OsRng` and made a version-4 UUID by
/// `uuid::Builder::from_random_bytes`: its 128-bit value, or `None` where
/// the system gives no random bytes. Any value may come.
#[verifier::external_body]
pub(crate) fn random_id() -> Option<u128> {
    let mut bytes = [0u8; 16];
    match rand::RngCore::try_fill_bytes(&mut rand::rngs::OsRng, &mut bytes) {
        Ok(()) => Some(uuid::Builder::from_random_bytes(bytes).into_uuid().as_u128()),
        Err(_) => None,
    }
}

/// `SystemTime::now`: the reading of the system clock.
#[verifier::external_body]
pub(crate) fn clock_now() -> SystemTime {
    SystemTime::now()
}

/// `SystemTime::duration_since` the Unix epoch: the time elapsed, or `None`
/// where the reading lies before the epoch.
#[verifier::external_body]
pub(crate) fn since_epoch(reading: &SystemTime) -> Option<Duration> {
    reading.duration_since(std::time::UNIX_EPOCH).ok()
}

/// `Duration::as_secs`: the whole seconds of a duration.
#[verifier::external_body]
pub(crate) fn whole_seconds(elapsed: &Duration) -> u64 {
    elapsed.as_secs()
}

/// Seconds since the Unix epoch by the system clock, 0 where the clock
/// reads earlier.
pub fn unix_seconds() -> u64 {
    let reading = clock_now();
    match since_epoch(&reading) {
        Some(elapsed) => whole_seconds(&elapsed),
        None => 0,
    }
}

} // verus!

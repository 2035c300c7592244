//! Time stamps in milliseconds since the Unix epoch.
use std::time::{Duration, SystemTime, SystemTimeError};
use vstd::prelude::*;

verus! {

/// The clock's own kind of time stamp.
#[verifier::external_type_specification]
#[verifier::external_body]
pub struct ExSystemTime(SystemTime);

/// The error for a time stamp that lies before the one it is measured from.
#[verifier::external_type_specification]
#[verifier::external_body]
pub struct ExSystemTimeError(SystemTimeError);

/// `std::time::SystemTime::now` reads the system clock. Nothing is claimed of the reading.
pub assume_specification[ SystemTime::now ]() -> (now: SystemTime)
;

/// What `std::time::SystemTime::duration_since` gives for a time stamp and the Unix epoch.
pub uninterp spec fn since_epoch(now: SystemTime) -> Result<Duration, SystemTimeError>;

/// `std::time::SystemTime::duration_since`, measured from `std::time::UNIX_EPOCH`: how far
/// the time stamp lies behind the epoch, or an error where it lies before it. All that is
/// claimed is that the time stamp decides which.
#[verifier::external_body]
fn since_unix_epoch(now: SystemTime) -> (elapsed: Result<Duration, SystemTimeError>)
    ensures
        elapsed == since_epoch(now),
{
    now.duration_since(std::time::UNIX_EPOCH)
}

/// What `std::time::Duration::as_millis` counts.
pub uninterp spec fn whole_millis(duration: Duration) -> u128;

/// `std::time::Duration::as_millis` counts the whole milliseconds of a duration. All that is
/// claimed is that the duration decides the count.
pub assume_specification[ Duration::as_millis ](duration: &Duration) -> (millis: u128)
    ensures
        millis == whole_millis(*duration),
;

/// The time stamp for a clock that reads `now`.
pub open spec fn clock_ms(now: SystemTime) -> u64 {
    match since_epoch(now) {
        Ok(elapsed) => stamp(Some(whole_millis(elapsed))),
        Err(_) => stamp(None),
    }
}

/// The time stamp for a clock that stands `elapsed_ms` after the epoch, or before the epoch
/// (`None`): the count in 64 bits, or zero.
pub open spec fn stamp(elapsed_ms: Option<u128>) -> u64 {
    match elapsed_ms {
        Some(ms) => (ms % 0x1_0000_0000_0000_0000) as u64,
        None => 0,
    }
}

/// The time stamp for a clock that stands `elapsed_ms` after the epoch, or before the epoch
/// (`None`): the count in 64 bits, or zero.
pub fn epoch_ms(elapsed_ms: Option<u128>) -> (ts_ms: u64)
    ensures
        ts_ms == stamp(elapsed_ms),
{
    match elapsed_ms {
        Some(ms) => (ms % 0x1_0000_0000_0000_0000) as u64,
        None => 0,
    }
}

/// The time stamp of this moment, by the system clock. What the clock reads is open.
pub fn now_ms() -> (ts_ms: u64)
    ensures
        exists|now: SystemTime| ts_ms == #[trigger] clock_ms(now),
{
    let now = SystemTime::now();
    let ghost read = now;
    let ts_ms: u64 = match since_unix_epoch(now) {
        Ok(elapsed) => epoch_ms(Some(elapsed.as_millis())),
        Err(_) => epoch_ms(None),
    };
    assert(ts_ms == clock_ms(read));
    ts_ms
}

/// How long before `now_ms` the time stamp lies. A stamp from the future has no age.
pub open spec fn age_ms(ts_ms: u64, now_ms: u64) -> nat {
    if ts_ms <= now_ms {
        (now_ms - ts_ms) as nat
    } else {
        0
    }
}

/// Whether the time stamp is at most `window_ms` old.
pub fn is_recent(ts_ms: u64, now_ms: u64, window_ms: u64) -> (recent: bool)
    ensures
        recent == (age_ms(ts_ms, now_ms) <= window_ms),
{
    now_ms.saturating_sub(ts_ms) <= window_ms
}

} // verus!

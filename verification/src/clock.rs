//! The wall clock, as milliseconds and nanoseconds since the Unix epoch.
use std::time::{Duration, SystemTime, SystemTimeError};
use vstd::prelude::*;

verus! {

/// `std::time::SystemTimeError`, the error of an instant that lies after another. It is opaque.
#[verifier::external_type_specification]
#[verifier::external_body]
pub struct ExSystemTimeError(SystemTimeError);

/// `SystemTime::elapsed` on the Unix epoch: the time from the epoch to what the wall clock shows,
/// or an error where the clock shows an instant before it. Nothing is claimed of the outcome.
#[verifier::external_body]
fn since_epoch() -> (r: Result<Duration, SystemTimeError>) {
    SystemTime::UNIX_EPOCH.elapsed()
}

/// `Duration::as_secs` gives the whole seconds of a duration. A `Duration` is opaque here, so
/// nothing is claimed of their number.
pub assume_specification[ Duration::as_secs ](this: &Duration) -> u64
;

/// `Duration::subsec_nanos` gives the nanoseconds of a duration beyond its whole seconds, which are
/// less than a second. A `Duration` is opaque here, so no more is claimed of their number.
pub assume_specification[ Duration::subsec_nanos ](this: &Duration) -> (r: u32)
    ensures
        r < 1_000_000_000,
;

/// The whole milliseconds of a time since the epoch, given as seconds and the nanoseconds beyond
/// them: the low word of their number, and zero for a clock set before the epoch.
pub open spec fn millis_of(elapsed: Option<(u64, u32)>) -> u64 {
    match elapsed {
        Some((secs, nanos)) => ((secs * 1000 + nanos as int / 1_000_000) % crate::rng::two64()) as u64,
        None => 0,
    }
}

/// The nanoseconds of a time since the epoch, given as seconds and the nanoseconds beyond them: the
/// low word of their number, and zero for a clock set before the epoch.
pub open spec fn nanos_of(elapsed: Option<(u64, u32)>) -> u64 {
    match elapsed {
        Some((secs, nanos)) => ((secs * 1_000_000_000 + nanos) % crate::rng::two64()) as u64,
        None => 0,
    }
}

/// Counts the milliseconds of a time since the epoch.
pub fn count_millis(elapsed: Option<(u64, u32)>) -> (r: u64)
    ensures
        r == millis_of(elapsed),
{
    match elapsed {
        Some((secs, nanos)) => {
            let count: u128 = secs as u128 * 1000 + (nanos / 1_000_000) as u128;
            low_word(count)
        },
        None => 0,
    }
}

/// Counts the nanoseconds of a time since the epoch.
pub fn count_nanos(elapsed: Option<(u64, u32)>) -> (r: u64)
    ensures
        r == nanos_of(elapsed),
{
    match elapsed {
        Some((secs, nanos)) => {
            let count: u128 = secs as u128 * 1_000_000_000 + nanos as u128;
            low_word(count)
        },
        None => 0,
    }
}

/// The low word of a count.
fn low_word(count: u128) -> (r: u64)
    ensures
        r == count as int % crate::rng::two64(),
{
    assert((count as u64) == count % 0x1_0000_0000_0000_0000u128) by (bit_vector);
    count as u64
}

/// Whether a time since the epoch can be shown: the nanoseconds beyond the seconds are less than a
/// second.
pub open spec fn is_time(elapsed: Option<(u64, u32)>) -> bool {
    elapsed matches Some((secs, nanos)) ==> nanos < 1_000_000_000
}

/// What the wall clock shows: the seconds since the epoch and the nanoseconds beyond them, or
/// nothing where it shows an instant before the epoch.
fn elapsed_since_epoch() -> (r: Option<(u64, u32)>)
    ensures
        is_time(r),
{
    match since_epoch() {
        Ok(elapsed) => Some((elapsed.as_secs(), elapsed.subsec_nanos())),
        Err(_) => None,
    }
}

/// Wall-clock nanoseconds since the epoch.
pub fn now_nanos() -> (r: u64)
    ensures
        exists|elapsed: Option<(u64, u32)>| #[trigger] is_time(elapsed) && r == nanos_of(elapsed),
{
    let elapsed = elapsed_since_epoch();
    count_nanos(elapsed)
}

/// Wall-clock milliseconds since the epoch: the request clock of the rate limiter. Bucket
/// arithmetic only looks at differences, so the clock need not be monotonic.
pub fn now_millis() -> (r: u64)
    ensures
        exists|elapsed: Option<(u64, u32)>| #[trigger] is_time(elapsed) && r == millis_of(elapsed),
{
    let elapsed = elapsed_since_epoch();
    count_millis(elapsed)
}

/// The two counts agree on the unit: where the nanoseconds fit a word, the milliseconds are their
/// number divided by a million, rounded down.
pub proof fn lemma_counts_agree(secs: u64, nanos: u32)
    requires
        nanos < 1_000_000_000,
        secs * 1_000_000_000 + nanos < crate::rng::two64(),
    ensures
        millis_of(Some((secs, nanos))) == nanos_of(Some((secs, nanos))) as int / 1_000_000,
{
}

/// A time is counted in full: a second is a thousand milliseconds and a thousand million
/// nanoseconds, a million nanoseconds are a millisecond, and what does not fit a word starts over. A
/// clock before the epoch counts as the epoch.
pub proof fn lemma_time_is_counted_in_full(secs: u64, nanos: u32)
    ensures
        secs * 1000 + nanos as int / 1_000_000 <= u64::MAX ==> millis_of(Some((secs, nanos))) == secs
            * 1000 + nanos as int / 1_000_000,
        secs * 1_000_000_000 + nanos <= u64::MAX ==> nanos_of(Some((secs, nanos))) == secs
            * 1_000_000_000 + nanos,
        secs < u64::MAX ==> (millis_of(Some(((secs + 1) as u64, nanos))) - millis_of(
            Some((secs, nanos)),
        ) - 1000) % 0x1_0000_0000_0000_0000 == 0,
        secs < u64::MAX ==> (nanos_of(Some(((secs + 1) as u64, nanos))) - nanos_of(
            Some((secs, nanos)),
        ) - 1_000_000_000) % 0x1_0000_0000_0000_0000 == 0,
        millis_of(None) == 0,
        nanos_of(None) == 0,
{
}

} // verus!

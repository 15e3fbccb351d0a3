//! What the library reads of a `std::time::Duration`: its length in
//! nanoseconds, from which emptiness and whole milliseconds follow.
use std::time::Duration;
use vstd::prelude::*;

verus! {

/// The total number of nanoseconds that `Duration::as_nanos` reports for `d`.
pub uninterp spec fn duration_nanos(d: Duration) -> u128;

/// Whole milliseconds of `d`, truncated to 64 bits as `as_millis() as u64` does.
pub open spec fn millis_of(d: Duration) -> u64 {
    ((duration_nanos(d) / 1_000_000) % 0x1_0000_0000_0000_0000) as u64
}

/// Nanoseconds of `d` as a `u64`, saturating at `u64::MAX` (some 584 years).
pub open spec fn nanos_of(d: Duration) -> u64 {
    if duration_nanos(d) <= u64::MAX {
        duration_nanos(d) as u64
    } else {
        u64::MAX
    }
}

/// `d` spans no time.
pub open spec fn is_zero_duration(d: Duration) -> bool {
    duration_nanos(d) == 0
}

/// Calls `Duration::as_nanos`. The contract only names the result: it is the
/// total nanosecond count of `d`, the same for every call on the same value.
#[verifier::external_body]
pub(crate) fn duration_as_nanos(d: Duration) -> (n: u128)
    ensures
        n == duration_nanos(d),
{
    d.as_nanos()
}

/// Calls `Duration::from_millis`. Its documentation states that the result spans
/// `ms` milliseconds, so `as_nanos` of it is `ms * 1_000_000`.
#[verifier::external_body]
pub(crate) fn duration_from_millis(ms: u64) -> (d: Duration)
    ensures
        duration_nanos(d) == ms as int * 1_000_000,
{
    Duration::from_millis(ms)
}

/// Whole milliseconds of `d`, as `d.as_millis() as u64` computes them.
pub fn duration_millis(d: Duration) -> (ms: u64)
    ensures
        ms == millis_of(d),
{
    let n = duration_as_nanos(d);
    ((n / 1_000_000) % 0x1_0000_0000_0000_0000u128) as u64
}

/// Nanoseconds of `d` as a `u64`, saturating at `u64::MAX`.
pub fn duration_span_nanos(d: Duration) -> (n: u64)
    ensures
        n == nanos_of(d),
{
    let n = duration_as_nanos(d);
    if n <= 0xFFFF_FFFF_FFFF_FFFFu128 {
        n as u64
    } else {
        u64::MAX
    }
}

/// Whether `d` spans no time, as `Duration::is_zero` reports.
pub fn duration_is_zero(d: Duration) -> (z: bool)
    ensures
        z == is_zero_duration(d),
{
    duration_as_nanos(d) == 0
}

/// A duration given in milliseconds has exactly that many whole milliseconds,
/// and is empty only when the count is zero.
pub proof fn lemma_from_millis_roundtrip(ms: u64, d: Duration)
    requires
        duration_nanos(d) == ms as int * 1_000_000,
    ensures
        millis_of(d) == ms,
        is_zero_duration(d) <==> ms == 0,
{
    assert((ms as int * 1_000_000) / 1_000_000 == ms as int) by (nonlinear_arith);
}

} // verus!

//! Durations and instants of `std::time`, as the library uses them.
use vstd::prelude::*;
use std::time::{Duration, Instant};

verus! {

#[verifier::external_type_specification]
#[verifier::external_body]
pub struct ExInstant(Instant);

/// Nanoseconds in a second.
pub const NANOS_PER_SEC: u128 = 1_000_000_000;

/// Nanoseconds in the longest `Duration`: `u64::MAX` seconds and
/// 999 999 999 nanoseconds.
pub open spec fn max_duration_nanos() -> int {
    u64::MAX as int * 1_000_000_000 + 999_999_999
}

/// What `Duration::as_nanos` returns for `d`: the whole length of `d` in
/// nanoseconds.
pub uninterp spec fn duration_nanos(d: Duration) -> u128;

/// `Duration::as_nanos`: the total number of nanoseconds in `d`, which is
/// at most the length of `Duration::MAX`.
#[verifier::external_body]
pub fn nanos_of(d: &Duration) -> (n: u128)
    ensures
        n == duration_nanos(*d),
        n <= max_duration_nanos(),
{
    d.as_nanos()
}

/// `Duration::new`: `secs` seconds and `nanos` nanoseconds (below one
/// second, so no carry happens).
#[verifier::external_body]
pub fn duration_new(secs: u64, nanos: u32) -> (d: Duration)
    requires
        nanos < 1_000_000_000,
    ensures
        duration_nanos(d) == secs * 1_000_000_000 + nanos,
{
    Duration::new(secs, nanos)
}

/// `Duration::saturating_add`: `a + b`, or `Duration::MAX` when the sum does
/// not fit.
#[verifier::external_body]
pub fn duration_saturating_add(a: Duration, b: Duration) -> (r: Duration)
    ensures
        duration_nanos(r) == if duration_nanos(a) + duration_nanos(b) <= max_duration_nanos() {
            duration_nanos(a) + duration_nanos(b)
        } else {
            max_duration_nanos()
        },
{
    a.saturating_add(b)
}

/// `Duration::checked_add`: `a + b`, or `None` when the sum is longer
/// than the longest duration.
#[verifier::external_body]
pub fn duration_checked_add(a: Duration, b: Duration) -> (r: Option<Duration>)
    ensures
        match r {
            Some(s) => duration_nanos(s) == duration_nanos(a) + duration_nanos(b),
            None => duration_nanos(a) + duration_nanos(b) > max_duration_nanos(),
        },
{
    a.checked_add(b)
}

/// `Instant::now`: the current instant. Nothing is stated of it: it is
/// read from the system clock.
#[verifier::external_body]
pub fn instant_now() -> Instant {
    Instant::now()
}

/// `Instant::elapsed`: time passed since `start`. Nothing is stated of it:
/// it is read from the system clock.
#[verifier::external_body]
pub fn elapsed_since(start: &Instant) -> Duration {
    start.elapsed()
}

/// `i` is an instant that [`instant_now`] returned: a reading of the clock.
pub open spec fn clock_reading(i: Instant) -> bool {
    call_ensures(instant_now, (), i)
}

/// `d` is a duration that [`elapsed_since`] returned for `start`: the
/// clock's reading of the time passed since `start`.
pub open spec fn clock_elapsed(start: Instant, d: Duration) -> bool {
    call_ensures(elapsed_since, (&start,), d)
}

/// The duration of `n` nanoseconds (at most the longest duration).
pub fn duration_from_nanos(n: u128) -> (d: Duration)
    requires
        n <= max_duration_nanos(),
    ensures
        duration_nanos(d) == n,
{
    let secs = n / NANOS_PER_SEC;
    let nanos = n % NANOS_PER_SEC;
    assert(secs <= u64::MAX) by (nonlinear_arith)
        requires secs == n / 1_000_000_000u128, n <= u64::MAX as int * 1_000_000_000 + 999_999_999;
    duration_new(secs as u64, nanos as u32)
}

} // verus!

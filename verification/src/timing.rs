//! Wall-clock access for the bounded-time budgets, and a timing harness.
//! Nothing is promised of clock readings: every caller is verified for
//! every value the clock may return.

use vstd::prelude::*;

verus! {

/// An opaque monotonic timestamp of the platform clock.
#[verifier::external_type_specification]
#[verifier::external_body]
pub struct ExInstant(std::time::Instant);

/// Relies on std::time::Instant::now: an opaque monotonic timestamp.
/// Nothing is promised of its value.
#[verifier::external_body]
pub fn clock_now() -> std::time::Instant {
    std::time::Instant::now()
}

/// Relies on std::time::Instant::elapsed: the time since the timestamp.
/// Nothing is promised of its value.
#[verifier::external_body]
pub fn clock_elapsed(t0: &std::time::Instant) -> std::time::Duration {
    t0.elapsed()
}

/// Relies on std::time::Duration::as_micros: the duration in whole
/// microseconds, narrowed to 64 bits. Nothing is promised of its value.
#[verifier::external_body]
pub fn duration_micros(d: &std::time::Duration) -> u64 {
    d.as_micros() as u64
}

/// Run an operation and measure how long it took: the result is returned
/// unchanged, together with the elapsed time in microseconds. The caller
/// owns any log sink; wiring one is outside the core.
pub fn log_execution_time<T, E, F: FnOnce() -> Result<T, E>>(operation: F) -> (r: (
    Result<T, E>,
    u64,
))
    requires
        call_requires(operation, ()),
    ensures
        call_ensures(operation, (), r.0),
{
    let t0 = clock_now();
    let result = operation();
    let spent = clock_elapsed(&t0);
    (result, duration_micros(&spent))
}

} // verus!

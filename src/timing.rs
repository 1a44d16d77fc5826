use vstd::prelude::*;

verus! {

#[verifier::external_type_specification]
#[verifier::external_body]
pub struct ExInstant(std::time::Instant);

/// Relies on `Duration`'s `Clone`, which the derived `Clone` of the statistics calls.
pub assume_specification[ <std::time::Duration as std::clone::Clone>::clone ](
    d: &std::time::Duration,
) -> std::time::Duration;

/// Relies on `Duration::ZERO`: a span of no time.
#[verifier::external_body]
pub(crate) fn zero_duration() -> std::time::Duration {
    std::time::Duration::ZERO
}

/// Relies on `Instant::now`: the clock's reading; nothing is known of it.
#[verifier::external_body]
pub(crate) fn clock_now() -> std::time::Instant {
    std::time::Instant::now()
}

/// Relies on `Instant::elapsed`: the time since `start`; nothing is known of it.
#[verifier::external_body]
pub(crate) fn time_since(start: &std::time::Instant) -> std::time::Duration {
    start.elapsed()
}

} // verus!

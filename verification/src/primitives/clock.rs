//! The clocks of the machine.

use vstd::prelude::*;

verus! {

/// `std::time::SystemTime::now`, as whole seconds since the Unix epoch (zero
/// before it). Nothing is known of the result: it is the time.
#[verifier::external_body]
pub(crate) fn unix_seconds() -> (now: u64) {
    std::time::SystemTime::now().duration_since(std::time::UNIX_EPOCH).map_or(0, |d| d.as_secs())
}

/// Whether a number is one that a call of a function without arguments handed out.
pub open spec fn comes_from<F: Fn() -> u64>(source: F, n: u64) -> bool {
    call_ensures(source, (), n)
}

/// Whether a number of seconds is one that the clock of the machine showed: that it came, as it
/// is, out of a reading of that clock.
pub closed spec fn clock_showed(seconds: u64) -> bool {
    comes_from(unix_seconds, seconds)
}

/// Hands out what a function without arguments gives.
pub(crate) fn ask<F: Fn() -> u64>(source: F) -> (n: u64)
    requires
        call_requires(source, ()),
    ensures
        comes_from(source, n),
{
    source()
}

/// The seconds since the Unix epoch that the clock of the machine shows.
pub fn read_clock() -> (now: u64)
    ensures
        clock_showed(now),
{
    ask(unix_seconds)
}

/// The monotonic clock reading of the standard library.
#[verifier::external_type_specification]
#[verifier::external_body]
pub struct ExInstant(std::time::Instant);

/// `std::time::Instant::now`. Nothing is known of the result: it is the time.
#[verifier::external_body]
fn instant_now() -> (now: std::time::Instant) {
    std::time::Instant::now()
}

/// `std::time::Instant::elapsed`, as whole nanoseconds. Nothing is known of the
/// result: it is the time.
#[verifier::external_body]
fn elapsed_nanos(start: &std::time::Instant) -> (nanos: u64) {
    start.elapsed().as_nanos() as u64
}

fn read_instant<F: Fn(&std::time::Instant) -> u64>(reading: F, start: &std::time::Instant) -> (n:
    u64)
    requires
        call_requires(reading, (start,)),
    ensures
        call_ensures(reading, (start,), n),
{
    reading(start)
}

/// Nanoseconds in a second.
pub const NANOS_PER_SECOND: u64 = 1_000_000_000;

/// A clock that counts from when it was started.
#[derive(Debug, Clone, Copy)]
pub struct Stopwatch {
    start: std::time::Instant,
}

impl Stopwatch {
    /// Starts a clock.
    pub fn start() -> (r: Self) {
        Stopwatch { start: instant_now() }
    }

    /// Whether a number of nanoseconds is one that this clock showed.
    pub closed spec fn showed(&self, nanos: u64) -> bool {
        call_ensures(elapsed_nanos, (&self.start,), nanos)
    }

    /// Nanoseconds since the clock was started.
    pub fn nanos(&self) -> (nanos: u64)
        ensures
            self.showed(nanos),
    {
        read_instant(elapsed_nanos, &self.start)
    }
}

} // verus!

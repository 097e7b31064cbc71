//! Setting the system clock: turning an instant into the seconds and
//! microseconds that `settimeofday` takes.
use vstd::prelude::*;

verus! {

/// An instant as seconds since the Unix epoch and nanoseconds past that
/// second. A leap second shows as `nanos` of one billion or more.
#[derive(Debug, Clone, Copy, PartialEq, Eq, Structural)]
pub struct Instant {
    pub secs: i64,
    pub nanos: u32,
}

/// The value that `settimeofday` takes: whole seconds and microseconds.
#[derive(Debug, Clone, Copy, PartialEq, Eq, Structural)]
pub struct TimeVal {
    pub tv_sec: i64,
    pub tv_usec: i64,
}

pub struct Clock {}

impl Clock {
    /// The `timeval` that sets the clock to `t`: its seconds, and the
    /// microseconds of its fraction (rounded down).
    pub fn set(t: Instant) -> (r: TimeVal)
        ensures
            r.tv_sec == t.secs,
            r.tv_usec == t.nanos / 1000,
    {
        let micros: u32 = t.nanos / 1000;
        TimeVal { tv_sec: t.secs, tv_usec: micros as i64 }
    }
}

} // verus!

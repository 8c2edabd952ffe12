//! Instants on the wall clock or in the time column, and spans between them.
use vstd::prelude::*;

verus! {

/// An instant, as nanoseconds since the Unix epoch.
#[derive(Clone, Copy, Debug, PartialEq, Eq, Structural, PartialOrd, Ord, Hash)]
pub struct Time {
    pub nanos: i64,
}

/// A non-negative span of time, as nanoseconds.
#[derive(Clone, Copy, Debug, PartialEq, Eq, Structural, PartialOrd, Ord, Hash)]
pub struct Duration {
    pub nanos: u64,
}

/// The length of a second, in nanoseconds.
pub const NANOS_PER_SEC: u64 = 1_000_000_000;

/// The length of a millisecond, in nanoseconds.
pub const NANOS_PER_MILLI: u64 = 1_000_000;

/// The largest number of nanoseconds since the epoch that a `Time` holds.
pub const MAX_NANOS: i64 = 9223372036854775807;

/// The smallest number of nanoseconds since the epoch that a `Time` holds.
pub const MIN_NANOS: i64 = -9223372036854775808;

impl Time {
    pub fn from_timestamp_nanos(nanos: i64) -> (r: Time)
        ensures
            r.nanos == nanos,
    {
        Time { nanos }
    }

    /// The latest representable instant.
    pub fn max_value() -> (r: Time)
        ensures
            r.nanos == i64::MAX,
    {
        Time { nanos: MAX_NANOS }
    }

    /// The earliest representable instant.
    pub fn min_value() -> (r: Time)
        ensures
            r.nanos == i64::MIN,
    {
        Time { nanos: MIN_NANOS }
    }

    pub fn timestamp_nanos(self) -> (r: i64)
        ensures
            r == self.nanos,
    {
        self.nanos
    }

    /// The instant `d` later, or `None` where it cannot be represented.
    pub fn checked_add(self, d: Duration) -> (r: Option<Time>)
        ensures
            self.nanos + d.nanos <= i64::MAX ==> r == Some(Time { nanos: (self.nanos + d.nanos) as i64 }),
            self.nanos + d.nanos > i64::MAX ==> r is None,
    {
        if d.nanos > (MAX_NANOS as i128 - self.nanos as i128) as u64 {
            None
        } else {
            let n: i128 = self.nanos as i128 + d.nanos as i128;
            Some(Time { nanos: n as i64 })
        }
    }

    /// The span from `earlier` to `self`, or `None` where `earlier` is the later of the two.
    pub fn checked_duration_since(self, earlier: Time) -> (r: Option<Duration>)
        ensures
            earlier.nanos <= self.nanos ==> r == Some(Duration { nanos: (self.nanos - earlier.nanos) as u64 }),
            earlier.nanos > self.nanos ==> r is None,
    {
        if earlier.nanos > self.nanos {
            None
        } else {
            let n: i128 = self.nanos as i128 - earlier.nanos as i128;
            Some(Duration { nanos: n as u64 })
        }
    }
}

impl Duration {
    pub fn from_nanos(nanos: u64) -> (r: Duration)
        ensures
            r.nanos == nanos,
    {
        Duration { nanos }
    }

    pub fn from_millis(millis: u64) -> (r: Duration)
        requires
            millis * NANOS_PER_MILLI <= u64::MAX,
        ensures
            r.nanos == millis * NANOS_PER_MILLI,
    {
        Duration { nanos: millis * NANOS_PER_MILLI }
    }

    pub fn from_secs(secs: u64) -> (r: Duration)
        requires
            secs * NANOS_PER_SEC <= u64::MAX,
        ensures
            r.nanos == secs * NANOS_PER_SEC,
    {
        Duration { nanos: secs * NANOS_PER_SEC }
    }

    pub fn as_nanos(self) -> (r: u64)
        ensures
            r == self.nanos,
    {
        self.nanos
    }

    /// The shorter of two spans.
    pub fn shorter(self, other: Duration) -> (r: Duration)
        ensures
            r.nanos == if self.nanos <= other.nanos { self.nanos } else { other.nanos },
    {
        if self.nanos <= other.nanos {
            self
        } else {
            other
        }
    }
}

} // verus!

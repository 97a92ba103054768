//! Spans of time with the range and the resolution of `std::time::Duration`.
use vstd::prelude::*;

verus! {

/// The longest interval: `u64::MAX` seconds and 999,999,999 nanoseconds.
pub const MAX_NANOS: u128 = 18_446_744_073_709_551_615_999_999_999;

/// A span of time, a whole number of nanoseconds.
#[derive(Debug, Clone, Copy, PartialEq, Eq)]
pub struct Interval {
    nanos: u128,
}

impl View for Interval {
    type V = nat;

    closed spec fn view(&self) -> nat {
        self.nanos as nat
    }
}

impl Interval {
    #[verifier::type_invariant]
    spec fn in_range(self) -> bool {
        self.nanos <= MAX_NANOS
    }

    /// An interval of `ms` milliseconds.
    pub fn from_millis(ms: u64) -> (interval: Self)
        ensures
            interval@ == ms * 1_000_000,
    {
        Interval { nanos: ms as u128 * 1_000_000 }
    }

    /// An interval of `secs` seconds.
    pub fn from_secs(secs: u64) -> (interval: Self)
        ensures
            interval@ == secs * 1_000_000_000,
    {
        Interval { nanos: secs as u128 * 1_000_000_000 }
    }

    /// An interval of `nanos` nanoseconds, or the longest one if that is longer.
    pub fn from_nanos(nanos: u128) -> (interval: Self)
        ensures
            interval@ == if nanos <= MAX_NANOS {
                nanos as nat
            } else {
                MAX_NANOS as nat
            },
    {
        if nanos <= MAX_NANOS {
            Interval { nanos }
        } else {
            Interval { nanos: MAX_NANOS }
        }
    }

    /// The length in nanoseconds.
    pub fn as_nanos(&self) -> (nanos: u128)
        ensures
            nanos == self@ <= MAX_NANOS,
    {
        proof {
            use_type_invariant(self);
        }
        self.nanos
    }

    /// The whole milliseconds of the interval.
    pub fn as_millis(&self) -> (ms: u128)
        ensures
            ms == self@ / 1_000_000,
    {
        self.nanos / 1_000_000
    }

    /// Whether this interval is no longer than `other`.
    pub fn at_most(&self, other: &Interval) -> (yes: bool)
        ensures
            yes == (self@ <= other@),
    {
        self.nanos <= other.nanos
    }
}

} // verus!

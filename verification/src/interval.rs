use vstd::prelude::*;

verus! {

/// A span of time with nanosecond resolution, as the waiters read and store
/// it. Every `std::time::Duration` has an exact counterpart here.
#[derive(Clone, Copy, Debug, PartialEq, Eq, Structural)]
pub struct Interval {
    pub(crate) nanos: u128,
}

impl View for Interval {
    type V = nat;

    /// The length of the span in nanoseconds.
    closed spec fn view(&self) -> nat {
        self.nanos as nat
    }
}

impl Interval {
    pub fn from_secs(secs: u64) -> (r: Interval)
        ensures
            r@ == secs * 1_000_000_000,
    {
        Interval { nanos: secs as u128 * 1_000_000_000 }
    }

    pub fn from_millis(millis: u64) -> (r: Interval)
        ensures
            r@ == millis * 1_000_000,
    {
        Interval { nanos: millis as u128 * 1_000_000 }
    }

    pub fn from_micros(micros: u64) -> (r: Interval)
        ensures
            r@ == micros * 1_000,
    {
        Interval { nanos: micros as u128 * 1_000 }
    }

    pub fn from_nanos(nanos: u128) -> (r: Interval)
        ensures
            r@ == nanos,
    {
        Interval { nanos }
    }

    pub fn as_nanos(&self) -> (r: u128)
        ensures
            r == self@,
    {
        self.nanos
    }

    /// True when this span is strictly longer than `other`.
    pub fn longer_than(&self, other: &Interval) -> (r: bool)
        ensures
            r == (self@ > other@),
    {
        self.nanos > other.nanos
    }
}

} // verus!

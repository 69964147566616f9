//! Lengths of time, to the nanosecond.

use vstd::prelude::*;

verus! {

/// The longest span that can be told: 2^64 seconds less a nanosecond.
pub const MAX_NANOS: u128 = 18_446_744_073_709_551_615_999_999_999;

/// A length of time.
#[derive(Debug, Clone, Copy, PartialEq, Eq, Structural)]
pub struct Span {
    nanos: u128,
}

impl Span {
    /// The length in nanoseconds.
    pub closed spec fn spec_nanos(self) -> int {
        self.nanos as int
    }

    #[verifier::type_invariant]
    spec fn in_range(self) -> bool {
        self.nanos <= MAX_NANOS
    }

    pub fn zero() -> (span: Span)
        ensures
            span.spec_nanos() == 0,
    {
        Span { nanos: 0 }
    }

    pub fn from_secs(secs: u64) -> (span: Span)
        ensures
            span.spec_nanos() == secs * 1_000_000_000,
    {
        Span { nanos: secs as u128 * 1_000_000_000 }
    }

    pub fn from_millis(millis: u64) -> (span: Span)
        ensures
            span.spec_nanos() == millis * 1_000_000,
    {
        Span { nanos: millis as u128 * 1_000_000 }
    }

    /// Seconds and the nanoseconds of the second that has begun, or `None` when
    /// there are a thousand million of those or more.
    pub fn from_parts(secs: u64, subsec_nanos: u32) -> (span: Option<Span>)
        ensures
            span is Some <==> subsec_nanos < 1_000_000_000,
            span matches Some(s) ==> s.spec_nanos() == secs * 1_000_000_000 + subsec_nanos,
    {
        if subsec_nanos < 1_000_000_000 {
            Some(Span { nanos: secs as u128 * 1_000_000_000 + subsec_nanos as u128 })
        } else {
            None
        }
    }

    pub fn nanos(self) -> (n: u128)
        ensures
            n == self.spec_nanos(),
            n <= MAX_NANOS,
    {
        proof {
            use_type_invariant(self);
        }
        self.nanos
    }

    /// The sum, or the longest span where that is shorter.
    pub fn saturating_add(self, other: Span) -> (sum: Span)
        ensures
            sum.spec_nanos() == if self.spec_nanos() + other.spec_nanos() > MAX_NANOS {
                MAX_NANOS as int
            } else {
                self.spec_nanos() + other.spec_nanos()
            },
    {
        proof {
            use_type_invariant(self);
            use_type_invariant(other);
        }
        let sum: u128 = self.nanos + other.nanos;
        if sum > MAX_NANOS {
            Span { nanos: MAX_NANOS }
        } else {
            Span { nanos: sum }
        }
    }

    pub fn at_most(self, other: Span) -> (r: bool)
        ensures
            r == (self.spec_nanos() <= other.spec_nanos()),
    {
        self.nanos <= other.nanos
    }
}

} // verus!

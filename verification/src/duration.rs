use vstd::prelude::*;

verus! {

/// The largest number of nanoseconds a `Duration` holds: `u64::MAX` seconds
/// plus 999 999 999 nanoseconds.
pub const MAX_NANOS: u128 = 18_446_744_073_709_551_615_999_999_999u128;

/// Nanoseconds in one millisecond.
pub const NANOS_PER_MILLI: u128 = 1_000_000u128;

/// Nanoseconds in one second.
pub const NANOS_PER_SEC: u128 = 1_000_000_000u128;

/// Clamps a number of nanoseconds to what a `Duration` can hold.
pub open spec fn clamp_nanos(n: nat) -> nat {
    if n > MAX_NANOS as nat {
        MAX_NANOS as nat
    } else {
        n
    }
}

/// A span of time with nanosecond precision, as long as `u64::MAX` seconds.
/// Its view is the number of nanoseconds.
#[derive(Clone, Copy, Debug, PartialEq, Eq, Structural, PartialOrd, Ord, Hash)]
pub struct Duration {
    nanos: u128,
}

impl View for Duration {
    type V = nat;

    closed spec fn view(&self) -> nat {
        self.nanos as nat
    }
}

impl Duration {
    #[verifier::type_invariant]
    spec fn within_range(self) -> bool {
        self.nanos <= MAX_NANOS
    }

    /// The span of length zero.
    pub fn zero() -> (d: Duration)
        ensures
            d@ == 0,
    {
        Duration { nanos: 0 }
    }

    /// The longest span a `Duration` holds.
    pub fn max_value() -> (d: Duration)
        ensures
            d@ == MAX_NANOS,
    {
        Duration { nanos: MAX_NANOS }
    }

    /// A span of the given number of nanoseconds, clamped to the largest `Duration`.
    pub fn from_nanos_saturating(nanos: u128) -> (d: Duration)
        ensures
            d@ == clamp_nanos(nanos as nat),
    {
        if nanos > MAX_NANOS {
            Duration { nanos: MAX_NANOS }
        } else {
            Duration { nanos }
        }
    }

    /// A span of `millis` milliseconds.
    pub fn from_millis(millis: u64) -> (d: Duration)
        ensures
            d@ == millis * NANOS_PER_MILLI,
    {
        assert(millis * NANOS_PER_MILLI <= MAX_NANOS) by (nonlinear_arith)
            requires
                millis <= u64::MAX,
        ;
        Duration { nanos: millis as u128 * NANOS_PER_MILLI }
    }

    /// A span of `secs` whole seconds.
    pub fn from_secs(secs: u64) -> (d: Duration)
        ensures
            d@ == secs * NANOS_PER_SEC,
    {
        assert(secs * NANOS_PER_SEC <= MAX_NANOS) by (nonlinear_arith)
            requires
                secs <= u64::MAX,
        ;
        Duration { nanos: secs as u128 * NANOS_PER_SEC }
    }

    /// A span of `secs` seconds and `nanos` nanoseconds; `None` where the sum
    /// does not fit in a `Duration`.
    pub fn checked_new(secs: u64, nanos: u32) -> (d: Option<Duration>)
        ensures
            d matches Some(v) ==> v@ == secs * NANOS_PER_SEC + nanos,
            d is None <==> secs * NANOS_PER_SEC + nanos > MAX_NANOS,
    {
        assert(secs * NANOS_PER_SEC + nanos <= u64::MAX * NANOS_PER_SEC + u32::MAX) by (nonlinear_arith)
            requires
                secs <= u64::MAX,
                nanos <= u32::MAX,
        ;
        let total: u128 = secs as u128 * NANOS_PER_SEC + nanos as u128;
        if total > MAX_NANOS {
            None
        } else {
            Some(Duration { nanos: total })
        }
    }

    /// The number of nanoseconds in the span.
    pub fn as_nanos(&self) -> (n: u128)
        ensures
            n == self@,
            n <= MAX_NANOS,
    {
        proof {
            use_type_invariant(self);
        }
        self.nanos
    }

    /// The number of whole seconds in the span.
    pub fn as_secs(&self) -> (s: u64)
        ensures
            s == self@ / NANOS_PER_SEC as nat,
    {
        proof {
            use_type_invariant(self);
        }
        assert(self.nanos / NANOS_PER_SEC <= u64::MAX) by (nonlinear_arith)
            requires
                self.nanos <= MAX_NANOS,
        ;
        (self.nanos / NANOS_PER_SEC) as u64
    }

    /// The nanoseconds of the span beyond its whole seconds.
    pub fn subsec_nanos(&self) -> (n: u32)
        ensures
            n == self@ % NANOS_PER_SEC as nat,
    {
        (self.nanos % NANOS_PER_SEC) as u32
    }

    /// Whether the span has length zero.
    pub fn is_zero(&self) -> (z: bool)
        ensures
            z == (self@ == 0),
    {
        self.nanos == 0
    }

    /// The sum of two spans, clamped to the largest `Duration`.
    pub fn saturating_add(self, other: Duration) -> (d: Duration)
        ensures
            d@ == clamp_nanos(self@ + other@),
    {
        proof {
            use_type_invariant(&self);
            use_type_invariant(&other);
        }
        let sum = self.nanos + other.nanos;
        if sum > MAX_NANOS {
            Duration { nanos: MAX_NANOS }
        } else {
            Duration { nanos: sum }
        }
    }

    /// `self - other`, or `None` where `other` is the longer span.
    pub fn checked_sub(self, other: Duration) -> (d: Option<Duration>)
        ensures
            d matches Some(v) ==> v@ == self@ - other@,
            d is None <==> self@ < other@,
    {
        if self.nanos >= other.nanos {
            proof {
                use_type_invariant(&self);
            }
            Some(Duration { nanos: self.nanos - other.nanos })
        } else {
            None
        }
    }

    /// `self - other`, or zero where `other` is the longer span.
    pub fn saturating_sub(self, other: Duration) -> (d: Duration)
        ensures
            d@ == (if self@ >= other@ { self@ - other@ } else { 0 }),
    {
        if self.nanos >= other.nanos {
            proof {
                use_type_invariant(&self);
            }
            Duration { nanos: self.nanos - other.nanos }
        } else {
            Duration { nanos: 0 }
        }
    }

    /// Whether `self` is no longer than `other`.
    pub fn le(&self, other: &Duration) -> (b: bool)
        ensures
            b == (self@ <= other@),
    {
        self.nanos <= other.nanos
    }

    /// Whether `self` is shorter than `other`.
    pub fn lt(&self, other: &Duration) -> (b: bool)
        ensures
            b == (self@ < other@),
    {
        self.nanos < other.nanos
    }

    /// Whether two spans are equally long.
    pub fn same_as(&self, other: &Duration) -> (b: bool)
        ensures
            b == (self@ == other@),
    {
        self.nanos == other.nanos
    }
}

} // verus!

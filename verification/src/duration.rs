use vstd::prelude::*;

verus! {

/// Non-negative elapsed time: whole seconds plus a sub-second remainder in
/// nanoseconds. A well-formed value keeps the remainder below one billion.
#[derive(Clone, Copy, Debug, PartialEq, Eq, Structural)]
pub struct Duration {
    /// Whole seconds.
    pub secs: u64,
    /// Sub-second remainder in nanoseconds; below one billion when well-formed.
    pub nanos: u32,
}

/// The largest total-nanosecond value a well-formed `Duration` can hold:
/// `u64::MAX` seconds plus `999_999_999` nanoseconds.
pub open spec fn duration_cap() -> int {
    18_446_744_073_709_551_615int * 1_000_000_000 + 999_999_999
}

impl Duration {
    /// The value as a whole number of nanoseconds.
    pub open spec fn total_nanos(self) -> int {
        self.secs * 1_000_000_000 + self.nanos
    }

    /// The sub-second remainder stays below one second.
    pub open spec fn wf(self) -> bool {
        self.nanos < 1_000_000_000
    }

    /// Builds the duration with the given seconds and sub-second remainder.
    pub fn new(secs: u64, nanos: u32) -> (d: Duration)
        requires
            nanos < 1_000_000_000,
        ensures
            d == (Duration { secs, nanos }),
            d.wf(),
    {
        Duration { secs, nanos }
    }

    /// The whole-second part.
    pub fn as_secs(&self) -> (s: u64)
        ensures
            s == self.secs,
    {
        self.secs
    }

    /// The sub-second remainder in nanoseconds.
    pub fn subsec_nanos(&self) -> (n: u32)
        ensures
            n == self.nanos,
    {
        self.nanos
    }
}

/// The well-formed duration holding the given number of nanoseconds, the
/// largest representable one if the count exceeds the representable range.
pub open spec fn duration_from_ns(ns: int) -> Duration {
    let t = if ns <= duration_cap() {
        ns
    } else {
        duration_cap()
    };
    Duration { secs: (t / 1_000_000_000) as u64, nanos: (t % 1_000_000_000) as u32 }
}

/// A duration built by `duration_from_ns` from a non-negative count is
/// well formed, and exact whenever the count is representable.
pub proof fn lemma_duration_from_ns(ns: int)
    requires
        0 <= ns,
    ensures
        duration_from_ns(ns).wf(),
        ns <= duration_cap() ==> duration_from_ns(ns).total_nanos() == ns,
        ns > duration_cap() ==> duration_from_ns(ns).total_nanos() == duration_cap(),
{
    let t = if ns <= duration_cap() {
        ns
    } else {
        duration_cap()
    };
    vstd::arithmetic::div_mod::lemma_fundamental_div_mod(t, 1_000_000_000);
    vstd::arithmetic::div_mod::lemma_mod_division_less_than_divisor(t, 1_000_000_000);
    vstd::arithmetic::div_mod::lemma_div_pos_is_pos(t, 1_000_000_000);
    assert(t / 1_000_000_000 <= 18_446_744_073_709_551_615) by {
        vstd::arithmetic::div_mod::lemma_div_is_ordered(
            t,
            duration_cap(),
            1_000_000_000,
        );
    }
}

} // verus!

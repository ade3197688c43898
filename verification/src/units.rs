use vstd::prelude::*;

verus! {

/// Nanoseconds in one microsecond.
pub const MICRO_NANOS: u64 = 1_000;
/// Nanoseconds in one millisecond.
pub const MILLI_NANOS: u64 = 1_000_000;
/// Nanoseconds in one second.
pub const SECOND_NANOS: u64 = 1_000_000_000;
/// Nanoseconds in one minute.
pub const MINUTE_NANOS: u64 = 60_000_000_000;
/// Nanoseconds in one hour.
pub const HOUR_NANOS: u64 = 3_600_000_000_000;
/// Nanoseconds in one day.
pub const DAY_NANOS: u64 = 86_400_000_000_000;
/// Nanoseconds in one week.
pub const WEEK_NANOS: u64 = 604_800_000_000_000;
/// Nanoseconds in one month, using the fixed 30.44-day approximation.
pub const MONTH_NANOS: u64 = 2_630_016_000_000_000;
/// Nanoseconds in one year, using the fixed 365.25-day approximation.
pub const YEAR_NANOS: u64 = 31_557_600_000_000_000;

/// The ten named time granularities, from nanoseconds to years.
#[derive(Clone, Copy, Debug, PartialEq, Eq, Structural)]
pub enum Unit {
    /// Nanoseconds.
    Nanos,
    /// Microseconds.
    Micros,
    /// Milliseconds.
    Millis,
    /// Seconds.
    Seconds,
    /// Minutes.
    Minutes,
    /// Hours.
    Hours,
    /// Days.
    Days,
    /// Weeks.
    Weeks,
    /// Months, as the fixed 30.44-day approximation.
    Months,
    /// Years, as the fixed 365.25-day approximation.
    Years,
}

impl Unit {
    /// Exact length of one unit in nanoseconds. Every unit, including the
    /// calendar approximations, is a whole number of nanoseconds.
    pub open spec fn spec_nanos(self) -> int {
        match self {
            Unit::Nanos => 1,
            Unit::Micros => MICRO_NANOS as int,
            Unit::Millis => MILLI_NANOS as int,
            Unit::Seconds => SECOND_NANOS as int,
            Unit::Minutes => MINUTE_NANOS as int,
            Unit::Hours => HOUR_NANOS as int,
            Unit::Days => DAY_NANOS as int,
            Unit::Weeks => WEEK_NANOS as int,
            Unit::Months => MONTH_NANOS as int,
            Unit::Years => YEAR_NANOS as int,
        }
    }

    /// Exact length of one unit in nanoseconds.
    pub fn nanos_per(self) -> (n: u64)
        ensures
            n == self.spec_nanos(),
            1 <= n <= YEAR_NANOS,
    {
        match self {
            Unit::Nanos => 1,
            Unit::Micros => MICRO_NANOS,
            Unit::Millis => MILLI_NANOS,
            Unit::Seconds => SECOND_NANOS,
            Unit::Minutes => MINUTE_NANOS,
            Unit::Hours => HOUR_NANOS,
            Unit::Days => DAY_NANOS,
            Unit::Weeks => WEEK_NANOS,
            Unit::Months => MONTH_NANOS,
            Unit::Years => YEAR_NANOS,
        }
    }

    /// Whether the unit is written as a full calendar word when formatting
    /// (year, month, week, day) rather than a fixed abbreviation.
    pub open spec fn spec_is_calendar(self) -> bool {
        match self {
            Unit::Years | Unit::Months | Unit::Weeks | Unit::Days => true,
            _ => false,
        }
    }

    /// Whether the unit is written as a full calendar word when formatting.
    pub fn is_calendar(self) -> (b: bool)
        ensures
            b == self.spec_is_calendar(),
    {
        match self {
            Unit::Years | Unit::Months | Unit::Weeks | Unit::Days => true,
            _ => false,
        }
    }
}

/// The decomposition order used when formatting: largest unit first.
pub open spec fn unit_order(i: int) -> Unit {
    if i == 0 {
        Unit::Years
    } else if i == 1 {
        Unit::Months
    } else if i == 2 {
        Unit::Weeks
    } else if i == 3 {
        Unit::Days
    } else if i == 4 {
        Unit::Hours
    } else if i == 5 {
        Unit::Minutes
    } else if i == 6 {
        Unit::Seconds
    } else if i == 7 {
        Unit::Millis
    } else if i == 8 {
        Unit::Micros
    } else {
        Unit::Nanos
    }
}

/// The decomposition order used when formatting: largest unit first.
pub fn unit_at(i: usize) -> (u: Unit)
    ensures
        u == unit_order(i as int),
{
    match i {
        0 => Unit::Years,
        1 => Unit::Months,
        2 => Unit::Weeks,
        3 => Unit::Days,
        4 => Unit::Hours,
        5 => Unit::Minutes,
        6 => Unit::Seconds,
        7 => Unit::Millis,
        8 => Unit::Micros,
        _ => Unit::Nanos,
    }
}

/// The decomposition order is strictly decreasing in unit size.
pub proof fn lemma_unit_order_decreasing(i: int, j: int)
    requires
        0 <= i < j < 10,
    ensures
        unit_order(i).spec_nanos() > unit_order(j).spec_nanos(),
{
}

} // verus!

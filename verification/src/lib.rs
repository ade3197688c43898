//! Conversion between machine-precision elapsed time (whole seconds plus a
//! sub-second nanosecond remainder) and a compact human-readable text form,
//! in both directions: parsing free-form duration strings such as `"2h 15m"`
//! or `"1.5days"`, and formatting a duration back into canonical text such
//! as `"2h 37m"`.
//!
//! All unit arithmetic is exact: every unit, including the fixed calendar
//! approximations for months (30.44 days) and years (365.25 days), is a
//! whole number of nanoseconds, so parsing and formatting are inverse to
//! each other on every representable duration.

/// Exact integer helpers: powers of ten and digit-sequence values.
pub mod arith;
/// Numeric-range analysis of literals and conversion to durations.
pub mod convert;
/// The machine value: seconds plus sub-second nanoseconds.
pub mod duration;
/// Formatting a duration as largest-to-smallest unit breakdown text.
pub mod format;
/// The laws relating parsing and formatting, stated and proved.
pub mod laws;
/// Recognition of decimal number literals and their exact values.
pub mod number;
/// Parsing duration strings into durations.
pub mod parse;
/// Character classes and text scanning helpers shared by the parser.
pub mod scan;
/// The ten named time units and their exact conversion factors.
pub mod units;

pub use duration::Duration;
pub use format::{format_duration, FormattedDuration};
pub use parse::{parse_duration_new, GrammarRule, ParseError};
pub use units::Unit;

use humantime::{format_duration, Duration};

const DAY_SECS: u64 = 86_400;
const WEEK_SECS: u64 = 604_800;
const MONTH_SECS: u64 = 2_630_016;
const YEAR_SECS: u64 = 31_557_600;
const HOUR_SECS: u64 = 3_600;
const MINUTE_SECS: u64 = 60;

fn fmt(secs: u64, nanos: u32) -> String {
    format_duration(Duration::new(secs, nanos)).to_string()
}

#[test]
fn test_units() {
    assert_eq!("1ns", fmt(0, 1));
    assert_eq!("1us", fmt(0, 1000));
    assert_eq!("1ms", fmt(0, 1_000_000));
    assert_eq!("1s", fmt(1, 0));
    assert_eq!("1m", fmt(60, 0));
    assert_eq!("1h", fmt(3600, 0));

    assert_eq!("1day", fmt(DAY_SECS, 0));
    assert_eq!("2days", fmt(2 * DAY_SECS, 0));

    assert_eq!("1month", fmt(MONTH_SECS, 0));
    assert_eq!("2months", fmt(2 * MONTH_SECS, 0));

    assert_eq!("1week", fmt(WEEK_SECS, 0));
    assert_eq!("2weeks", fmt(2 * WEEK_SECS, 0));

    assert_eq!("1year", fmt(YEAR_SECS, 0));
    assert_eq!("2years", fmt(2 * YEAR_SECS, 0));
}

#[test]
fn format_test_combo() {
    let year = 2 * YEAR_SECS;
    let month = 2 * MONTH_SECS;
    let week = 2 * WEEK_SECS;
    let day = 2 * DAY_SECS;
    let hour = 2 * HOUR_SECS;
    let minute = 2 * MINUTE_SECS;
    let second = 2;

    // 200 milliseconds are exactly 200_000_000 nanoseconds, so the exact
    // decomposition ends at the milliseconds item.
    assert_eq!(
        "2years 2months 2weeks 2days 2h 2m 2s 200ms",
        fmt(
            year + month + week + day + hour + minute + second,
            200_000_000
        )
    );
}

#[test]
fn format_zero() {
    assert_eq!("0s", fmt(0, 0));
}

#[test]
fn format_pluralizes_calendar_words_only() {
    // 800 days decompose into two years, two months, one week, one day and
    // a sub-day rest: only calendar counts above one take the plural `s`.
    assert_eq!(
        "2years 2months 1week 1day 14h 52m 48s",
        fmt(800 * DAY_SECS, 0)
    );
    // sub-day abbreviations stay bare whatever the count
    assert_eq!("5h 5m 5s", fmt(5 * HOUR_SECS + 5 * MINUTE_SECS + 5, 0));
    assert_eq!("12ms 34us 56ns", fmt(0, 12_034_056));
}

#[test]
fn format_submicrosecond_precision() {
    // the final remainder is extracted with the nanosecond factor itself,
    // so mixed-unit durations keep sub-microsecond precision exactly
    assert_eq!("2s 3us 1ns", fmt(2, 3_001));
    assert_eq!("1m 1ns", fmt(60, 1));
    assert_eq!("1h 999ms 1ns", fmt(3600, 999_000_001));
}

#[test]
fn format_get_ref() {
    let d = Duration::new(9420, 0);
    let f = format_duration(d);
    assert_eq!(f.get_ref(), &d);
    assert_eq!("2h 37m", f.to_string());
}

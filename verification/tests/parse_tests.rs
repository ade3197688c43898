use humantime::{format_duration, parse_duration_new, Duration, GrammarRule, ParseError};

fn ok(secs: u64, nanos: u32) -> Result<Duration, ParseError> {
    Ok(Duration::new(secs, nanos))
}

fn range_err(input: &str) -> Result<Duration, ParseError> {
    Err(ParseError::Grammar {
        remainder: input.to_string(),
        rule: GrammarRule::Range,
    })
}

#[test]
fn test_nanosecond() {
    assert_eq!(parse_duration_new("1nanos"), ok(0, 1));
    assert_eq!(parse_duration_new("1 nanos"), ok(0, 1));

    assert_eq!(parse_duration_new("2nsec"), ok(0, 2));
    assert_eq!(parse_duration_new("2 nsec"), ok(0, 2));

    assert_eq!(parse_duration_new("3ns"), ok(0, 3));
    assert_eq!(parse_duration_new("3 ns"), ok(0, 3));
}

#[test]
fn test_microsecond() {
    assert_eq!(parse_duration_new("1micros"), ok(0, 1000));
    assert_eq!(parse_duration_new("1 micros"), ok(0, 1000));

    assert_eq!(parse_duration_new("2usec"), ok(0, 2000));
    assert_eq!(parse_duration_new("2 usec"), ok(0, 2000));

    assert_eq!(parse_duration_new("3us"), ok(0, 3000));
    assert_eq!(parse_duration_new("3 us"), ok(0, 3000));
}

#[test]
fn test_millisecond() {
    assert_eq!(parse_duration_new("1millis"), ok(0, 1_000_000));
    assert_eq!(parse_duration_new("1 millis"), ok(0, 1_000_000));

    assert_eq!(parse_duration_new("2msec"), ok(0, 2_000_000));
    assert_eq!(parse_duration_new("2 msec"), ok(0, 2_000_000));

    assert_eq!(parse_duration_new("3ms"), ok(0, 3_000_000));
    assert_eq!(parse_duration_new("3 ms"), ok(0, 3_000_000));
}

#[test]
fn test_seconds() {
    assert_eq!(parse_duration_new("1seconds"), ok(1, 0));
    assert_eq!(parse_duration_new("1 seconds"), ok(1, 0));

    assert_eq!(parse_duration_new("2second"), ok(2, 0));
    assert_eq!(parse_duration_new("2 second"), ok(2, 0));

    assert_eq!(parse_duration_new("3secs"), ok(3, 0));
    assert_eq!(parse_duration_new("3 secs"), ok(3, 0));

    assert_eq!(parse_duration_new("4sec"), ok(4, 0));
    assert_eq!(parse_duration_new("4 sec"), ok(4, 0));

    assert_eq!(parse_duration_new("5s"), ok(5, 0));
    assert_eq!(parse_duration_new("5 s"), ok(5, 0));
}

#[test]
fn test_minutes() {
    assert_eq!(parse_duration_new("1minutes"), ok(60, 0));
    assert_eq!(parse_duration_new("1 minutes"), ok(60, 0));

    assert_eq!(parse_duration_new("2minute"), ok(2 * 60, 0));
    assert_eq!(parse_duration_new("2 minute"), ok(2 * 60, 0));

    assert_eq!(parse_duration_new("3mins"), ok(3 * 60, 0));
    assert_eq!(parse_duration_new("3 mins"), ok(3 * 60, 0));

    assert_eq!(parse_duration_new("4min"), ok(4 * 60, 0));
    assert_eq!(parse_duration_new("4 min"), ok(4 * 60, 0));

    assert_eq!(parse_duration_new("5m"), ok(5 * 60, 0));
    assert_eq!(parse_duration_new("5 m"), ok(5 * 60, 0));
}

#[test]
fn test_hours() {
    assert_eq!(parse_duration_new("1hours"), ok(3600, 0));
    assert_eq!(parse_duration_new("1 hours"), ok(3600, 0));

    assert_eq!(parse_duration_new("2hour"), ok(2 * 3600, 0));
    assert_eq!(parse_duration_new("2 hour"), ok(2 * 3600, 0));

    assert_eq!(parse_duration_new("3hrs"), ok(3 * 3600, 0));
    assert_eq!(parse_duration_new("3 hrs"), ok(3 * 3600, 0));

    assert_eq!(parse_duration_new("4hr"), ok(4 * 3600, 0));
    assert_eq!(parse_duration_new("4 hr"), ok(4 * 3600, 0));

    assert_eq!(parse_duration_new("5h"), ok(5 * 3600, 0));
    assert_eq!(parse_duration_new("5 h"), ok(5 * 3600, 0));

    assert_eq!(parse_duration_new("5H"), ok(5 * 3600, 0));
    assert_eq!(parse_duration_new("5 H"), ok(5 * 3600, 0));
}

#[test]
fn test_days() {
    assert_eq!(parse_duration_new("1days"), ok(86400, 0));
    assert_eq!(parse_duration_new("1 days"), ok(86400, 0));

    assert_eq!(parse_duration_new("2day"), ok(2 * 86400, 0));
    assert_eq!(parse_duration_new("2 day"), ok(2 * 86400, 0));

    assert_eq!(parse_duration_new("3dys"), ok(3 * 86400, 0));
    assert_eq!(parse_duration_new("3 dys"), ok(3 * 86400, 0));

    assert_eq!(parse_duration_new("4dy"), ok(4 * 86400, 0));
    assert_eq!(parse_duration_new("4 dy"), ok(4 * 86400, 0));

    assert_eq!(parse_duration_new("5d"), ok(5 * 86400, 0));
    assert_eq!(parse_duration_new("5 d"), ok(5 * 86400, 0));

    assert_eq!(parse_duration_new("5D"), ok(5 * 86400, 0));
    assert_eq!(parse_duration_new("5 D"), ok(5 * 86400, 0));
}

#[test]
fn new_test_combo() {
    assert_eq!(parse_duration_new("20 min 17 nsec"), ok(1200, 17));
    assert_eq!(parse_duration_new("2h 15m"), ok(8100, 0));
}

#[test]
fn test_overlow() {
    assert_eq!(
        parse_duration_new("100000000000000000000ns"),
        range_err("100000000000000000000ns")
    );
    assert_eq!(
        parse_duration_new("100000000000000000000us"),
        range_err("100000000000000000000us")
    );
    assert_eq!(
        parse_duration_new("100000000000000000000ms"),
        range_err("100000000000000000000ms")
    );
    assert_eq!(
        parse_duration_new("100000000000000000000s"),
        range_err("100000000000000000000s")
    );
    assert_eq!(
        parse_duration_new("100000000000000000000m"),
        range_err("100000000000000000000m")
    );
    assert_eq!(
        parse_duration_new("100000000000000000000h"),
        range_err("100000000000000000000h")
    );
    assert_eq!(
        parse_duration_new("100000000000000000000d"),
        range_err("100000000000000000000d")
    );
    assert_eq!(
        parse_duration_new("100000000000000000000w"),
        range_err("100000000000000000000w")
    );
    assert_eq!(
        parse_duration_new("100000000000000000000M"),
        range_err("100000000000000000000M")
    );
    assert_eq!(
        parse_duration_new("100000000000000000000Y"),
        range_err("100000000000000000000Y")
    );
}

#[test]
fn parse_week_month_year_aliases() {
    assert_eq!(parse_duration_new("1weeks"), ok(604_800, 0));
    assert_eq!(parse_duration_new("2wks"), ok(2 * 604_800, 0));
    assert_eq!(parse_duration_new("3 wk"), ok(3 * 604_800, 0));
    assert_eq!(parse_duration_new("4w"), ok(4 * 604_800, 0));
    assert_eq!(parse_duration_new("4W"), ok(4 * 604_800, 0));

    assert_eq!(parse_duration_new("1months"), ok(2_630_016, 0));
    assert_eq!(parse_duration_new("2mths"), ok(2 * 2_630_016, 0));
    assert_eq!(parse_duration_new("3 mth"), ok(3 * 2_630_016, 0));

    assert_eq!(parse_duration_new("1years"), ok(31_557_600, 0));
    assert_eq!(parse_duration_new("2yrs"), ok(2 * 31_557_600, 0));
    assert_eq!(parse_duration_new("3 yr"), ok(3 * 31_557_600, 0));
    assert_eq!(parse_duration_new("4y"), ok(4 * 31_557_600, 0));
    assert_eq!(parse_duration_new("4Y"), ok(4 * 31_557_600, 0));
}

#[test]
fn parse_month_minute_case_sensitivity() {
    // uppercase M means months, lowercase m means minutes
    assert_eq!(parse_duration_new("5M"), ok(5 * 2_630_016, 0));
    assert_eq!(parse_duration_new("5m"), ok(5 * 60, 0));
}

#[test]
fn parse_empty_input() {
    assert_eq!(parse_duration_new(""), Err(ParseError::EmptyInput));
    assert_eq!(parse_duration_new("   "), Err(ParseError::EmptyInput));
    assert_eq!(parse_duration_new("\n\t "), Err(ParseError::EmptyInput));
}

#[test]
fn parse_leftover_and_bad_unit() {
    // an unrecognized unit fails the grammar with the unit rule
    assert_eq!(
        parse_duration_new("5x"),
        Err(ParseError::Grammar {
            remainder: "x".to_string(),
            rule: GrammarRule::Unit,
        })
    );
    // trailing garbage after a valid span is leftover input
    assert_eq!(
        parse_duration_new("5s extra"),
        Err(ParseError::InputLeftOver)
    );
    // no number at all fails the grammar with the number rule
    assert_eq!(
        parse_duration_new("x5"),
        Err(ParseError::Grammar {
            remainder: "x5".to_string(),
            rule: GrammarRule::Number,
        })
    );
    // a negative number fails the range check
    assert_eq!(
        parse_duration_new("-5s"),
        Err(ParseError::Grammar {
            remainder: "-5s".to_string(),
            rule: GrammarRule::Range,
        })
    );
}

#[test]
fn parse_fractions_and_exponents() {
    assert_eq!(parse_duration_new("1.5days"), ok(129_600, 0));
    assert_eq!(parse_duration_new("0.5s"), ok(0, 500_000_000));
    assert_eq!(parse_duration_new(".5s"), ok(0, 500_000_000));
    assert_eq!(parse_duration_new("5.s"), ok(5, 0));
    assert_eq!(parse_duration_new("1e3s"), ok(1000, 0));
    assert_eq!(parse_duration_new("2.5e2ms"), ok(0, 250_000_000));
    assert_eq!(parse_duration_new("+5s"), ok(5, 0));
    // the sub-nanosecond part rounds half up
    assert_eq!(parse_duration_new("1.5ns"), ok(0, 2));
    assert_eq!(parse_duration_new("1.4ns"), ok(0, 1));
    assert_eq!(parse_duration_new("0.6us"), ok(0, 600));
}

#[test]
fn parse_range_boundary() {
    assert_eq!(
        parse_duration_new("18446744073709551615s"),
        ok(u64::MAX, 0)
    );
    assert_eq!(
        parse_duration_new("18446744073709551616s"),
        range_err("18446744073709551616s")
    );
}

#[test]
fn parse_format_round_trip() {
    let samples = [
        Duration::new(0, 0),
        Duration::new(0, 1),
        Duration::new(1, 0),
        Duration::new(60, 17),
        Duration::new(8100, 0),
        Duration::new(86_400, 999_999_999),
        Duration::new(2_630_016, 0),
        Duration::new(31_557_600 * 3 + 12_345, 678),
        Duration::new(u64::MAX, 999_999_999),
    ];
    for d in samples {
        let text = format_duration(d).to_string();
        assert_eq!(parse_duration_new(&text), Ok(d));
    }
}

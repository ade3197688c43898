use crate::convert::{analyze_number, convert_parts};
use crate::duration::{duration_from_ns, Duration};
use crate::number::{lemma_lex_number_props, lex_number, lex_number_at, NumTok};
use crate::scan::{
    all_ws_from, is_ws_char, lemma_sep_prefix, lemma_trim_empty, scan_seps, sep_prefix_len,
    spec_trim, tag_match, trim_range, starts_with_at,
};
use crate::units::Unit;
use vstd::prelude::*;
use vstd::string::StrSliceExecFns;

verus! {

/// The grammar rule a low-level parse failure names: the number literal
/// itself, the numeric-range check on its value, or the unit tag.
#[derive(Clone, Copy, Debug, PartialEq, Eq, Structural)]
pub enum GrammarRule {
    /// No decimal number literal could be recognized.
    Number,
    /// The number lies outside the representable non-negative range.
    Range,
    /// No unit tag from the alias catalog follows the number.
    Unit,
}

/// Why an input failed to parse: it was empty after trimming, it held
/// trailing text after the recognized time-spans, or the grammar failed,
/// with the unconsumed remainder and the rule that failed.
#[derive(Clone, Debug, PartialEq, Eq)]
pub enum ParseError {
    /// The trimmed input is empty.
    EmptyInput,
    /// Well-formed time-spans were consumed but non-whitespace text remains.
    InputLeftOver,
    /// The number/unit grammar or the numeric-range check failed.
    Grammar {
        /// The unconsumed input from the position of the failure on.
        remainder: String,
        /// The rule that failed.
        rule: GrammarRule,
    },
}

/// The unit tag at the start of the text, with the number of characters it
/// occupies. The catalog tries groups in the order months, days, weeks,
/// years, nanoseconds, microseconds, milliseconds, seconds, minutes,
/// hours, and within each group the longest tag first, so that a tag never
/// loses against one of its own prefixes, and so that the single letters
/// `M` (months) and `m` (minutes) resolve by case.
pub open spec fn spec_match_unit(s: Seq<char>) -> Option<(Unit, nat)> {
    if tag_match(s, "months"@) {
        Some((Unit::Months, 6nat))
    } else if tag_match(s, "month"@) {
        Some((Unit::Months, 5nat))
    } else if tag_match(s, "mths"@) {
        Some((Unit::Months, 4nat))
    } else if tag_match(s, "mth"@) {
        Some((Unit::Months, 3nat))
    } else if tag_match(s, "M"@) {
        Some((Unit::Months, 1nat))
    } else if tag_match(s, "days"@) {
        Some((Unit::Days, 4nat))
    } else if tag_match(s, "day"@) {
        Some((Unit::Days, 3nat))
    } else if tag_match(s, "dys"@) {
        Some((Unit::Days, 3nat))
    } else if tag_match(s, "dy"@) {
        Some((Unit::Days, 2nat))
    } else if tag_match(s, "d"@) {
        Some((Unit::Days, 1nat))
    } else if tag_match(s, "D"@) {
        Some((Unit::Days, 1nat))
    } else if tag_match(s, "weeks"@) {
        Some((Unit::Weeks, 5nat))
    } else if tag_match(s, "week"@) {
        Some((Unit::Weeks, 4nat))
    } else if tag_match(s, "wks"@) {
        Some((Unit::Weeks, 3nat))
    } else if tag_match(s, "wk"@) {
        Some((Unit::Weeks, 2nat))
    } else if tag_match(s, "w"@) {
        Some((Unit::Weeks, 1nat))
    } else if tag_match(s, "W"@) {
        Some((Unit::Weeks, 1nat))
    } else if tag_match(s, "years"@) {
        Some((Unit::Years, 5nat))
    } else if tag_match(s, "year"@) {
        Some((Unit::Years, 4nat))
    } else if tag_match(s, "yrs"@) {
        Some((Unit::Years, 3nat))
    } else if tag_match(s, "yr"@) {
        Some((Unit::Years, 2nat))
    } else if tag_match(s, "y"@) {
        Some((Unit::Years, 1nat))
    } else if tag_match(s, "Y"@) {
        Some((Unit::Years, 1nat))
    } else if tag_match(s, "nanos"@) {
        Some((Unit::Nanos, 5nat))
    } else if tag_match(s, "nsec"@) {
        Some((Unit::Nanos, 4nat))
    } else if tag_match(s, "ns"@) {
        Some((Unit::Nanos, 2nat))
    } else if tag_match(s, "micros"@) {
        Some((Unit::Micros, 6nat))
    } else if tag_match(s, "usec"@) {
        Some((Unit::Micros, 4nat))
    } else if tag_match(s, "us"@) {
        Some((Unit::Micros, 2nat))
    } else if tag_match(s, "millis"@) {
        Some((Unit::Millis, 6nat))
    } else if tag_match(s, "msec"@) {
        Some((Unit::Millis, 4nat))
    } else if tag_match(s, "ms"@) {
        Some((Unit::Millis, 2nat))
    } else if tag_match(s, "seconds"@) {
        Some((Unit::Seconds, 7nat))
    } else if tag_match(s, "second"@) {
        Some((Unit::Seconds, 6nat))
    } else if tag_match(s, "secs"@) {
        Some((Unit::Seconds, 4nat))
    } else if tag_match(s, "sec"@) {
        Some((Unit::Seconds, 3nat))
    } else if tag_match(s, "s"@) {
        Some((Unit::Seconds, 1nat))
    } else if tag_match(s, "minutes"@) {
        Some((Unit::Minutes, 7nat))
    } else if tag_match(s, "minute"@) {
        Some((Unit::Minutes, 6nat))
    } else if tag_match(s, "mins"@) {
        Some((Unit::Minutes, 4nat))
    } else if tag_match(s, "min"@) {
        Some((Unit::Minutes, 3nat))
    } else if tag_match(s, "m"@) {
        Some((Unit::Minutes, 1nat))
    } else if tag_match(s, "hours"@) {
        Some((Unit::Hours, 5nat))
    } else if tag_match(s, "hour"@) {
        Some((Unit::Hours, 4nat))
    } else if tag_match(s, "hrs"@) {
        Some((Unit::Hours, 3nat))
    } else if tag_match(s, "hr"@) {
        Some((Unit::Hours, 2nat))
    } else if tag_match(s, "h"@) {
        Some((Unit::Hours, 1nat))
    } else if tag_match(s, "H"@) {
        Some((Unit::Hours, 1nat))
    } else {
        None
    }
}

/// The lengths of all unit tags in the alias catalog.
pub proof fn lemma_unit_tag_lens()
    ensures
        "months"@.len() == 6 && "month"@.len() == 5 && "mths"@.len() == 4 && "mth"@.len() == 3
            && "M"@.len() == 1,
        "days"@.len() == 4 && "day"@.len() == 3 && "dys"@.len() == 3 && "dy"@.len() == 2
            && "d"@.len() == 1 && "D"@.len() == 1,
        "weeks"@.len() == 5 && "week"@.len() == 4 && "wks"@.len() == 3 && "wk"@.len() == 2
            && "w"@.len() == 1 && "W"@.len() == 1,
        "years"@.len() == 5 && "year"@.len() == 4 && "yrs"@.len() == 3 && "yr"@.len() == 2
            && "y"@.len() == 1 && "Y"@.len() == 1,
        "nanos"@.len() == 5 && "nsec"@.len() == 4 && "ns"@.len() == 2,
        "micros"@.len() == 6 && "usec"@.len() == 4 && "us"@.len() == 2,
        "millis"@.len() == 6 && "msec"@.len() == 4 && "ms"@.len() == 2,
        "seconds"@.len() == 7 && "second"@.len() == 6 && "secs"@.len() == 4 && "sec"@.len() == 3
            && "s"@.len() == 1,
        "minutes"@.len() == 7 && "minute"@.len() == 6 && "mins"@.len() == 4 && "min"@.len() == 3
            && "m"@.len() == 1,
        "hours"@.len() == 5 && "hour"@.len() == 4 && "hrs"@.len() == 3 && "hr"@.len() == 2
            && "h"@.len() == 1 && "H"@.len() == 1,
{
    reveal_strlit("months");
    reveal_strlit("month");
    reveal_strlit("mths");
    reveal_strlit("mth");
    reveal_strlit("M");
    reveal_strlit("days");
    reveal_strlit("day");
    reveal_strlit("dys");
    reveal_strlit("dy");
    reveal_strlit("d");
    reveal_strlit("D");
    reveal_strlit("weeks");
    reveal_strlit("week");
    reveal_strlit("wks");
    reveal_strlit("wk");
    reveal_strlit("w");
    reveal_strlit("W");
    reveal_strlit("years");
    reveal_strlit("year");
    reveal_strlit("yrs");
    reveal_strlit("yr");
    reveal_strlit("y");
    reveal_strlit("Y");
    reveal_strlit("nanos");
    reveal_strlit("nsec");
    reveal_strlit("ns");
    reveal_strlit("micros");
    reveal_strlit("usec");
    reveal_strlit("us");
    reveal_strlit("millis");
    reveal_strlit("msec");
    reveal_strlit("ms");
    reveal_strlit("seconds");
    reveal_strlit("second");
    reveal_strlit("secs");
    reveal_strlit("sec");
    reveal_strlit("s");
    reveal_strlit("minutes");
    reveal_strlit("minute");
    reveal_strlit("mins");
    reveal_strlit("min");
    reveal_strlit("m");
    reveal_strlit("hours");
    reveal_strlit("hour");
    reveal_strlit("hrs");
    reveal_strlit("hr");
    reveal_strlit("h");
    reveal_strlit("H");
}

/// A recognized tag occupies at least one character and fits in the text.
pub proof fn lemma_match_unit_props(s: Seq<char>)
    ensures
        spec_match_unit(s) matches Some(p) ==> 0 < p.1 <= s.len(),
{
    lemma_unit_tag_lens();
}

/// Recognizes the unit tag at position `pos`, trying the alias catalog in
/// its fixed order.
#[verifier::rlimit(100)]
pub fn match_unit_at(t: &str, tlen: usize, pos: usize) -> (r: Option<(Unit, usize)>)
    requires
        tlen == t@.len(),
        pos <= tlen,
    ensures
        ({
            let m = spec_match_unit(t@.skip(pos as int));
            match r {
                Some(p) => m == Some((p.0, p.1 as nat)),
                None => m is None,
            }
        }),
{
    if starts_with_at(t, tlen, pos, "months") {
        Some((Unit::Months, 6))
    } else if starts_with_at(t, tlen, pos, "month") {
        Some((Unit::Months, 5))
    } else if starts_with_at(t, tlen, pos, "mths") {
        Some((Unit::Months, 4))
    } else if starts_with_at(t, tlen, pos, "mth") {
        Some((Unit::Months, 3))
    } else if starts_with_at(t, tlen, pos, "M") {
        Some((Unit::Months, 1))
    } else if starts_with_at(t, tlen, pos, "days") {
        Some((Unit::Days, 4))
    } else if starts_with_at(t, tlen, pos, "day") {
        Some((Unit::Days, 3))
    } else if starts_with_at(t, tlen, pos, "dys") {
        Some((Unit::Days, 3))
    } else if starts_with_at(t, tlen, pos, "dy") {
        Some((Unit::Days, 2))
    } else if starts_with_at(t, tlen, pos, "d") {
        Some((Unit::Days, 1))
    } else if starts_with_at(t, tlen, pos, "D") {
        Some((Unit::Days, 1))
    } else if starts_with_at(t, tlen, pos, "weeks") {
        Some((Unit::Weeks, 5))
    } else if starts_with_at(t, tlen, pos, "week") {
        Some((Unit::Weeks, 4))
    } else if starts_with_at(t, tlen, pos, "wks") {
        Some((Unit::Weeks, 3))
    } else if starts_with_at(t, tlen, pos, "wk") {
        Some((Unit::Weeks, 2))
    } else if starts_with_at(t, tlen, pos, "w") {
        Some((Unit::Weeks, 1))
    } else if starts_with_at(t, tlen, pos, "W") {
        Some((Unit::Weeks, 1))
    } else if starts_with_at(t, tlen, pos, "years") {
        Some((Unit::Years, 5))
    } else if starts_with_at(t, tlen, pos, "year") {
        Some((Unit::Years, 4))
    } else if starts_with_at(t, tlen, pos, "yrs") {
        Some((Unit::Years, 3))
    } else if starts_with_at(t, tlen, pos, "yr") {
        Some((Unit::Years, 2))
    } else if starts_with_at(t, tlen, pos, "y") {
        Some((Unit::Years, 1))
    } else if starts_with_at(t, tlen, pos, "Y") {
        Some((Unit::Years, 1))
    } else if starts_with_at(t, tlen, pos, "nanos") {
        Some((Unit::Nanos, 5))
    } else if starts_with_at(t, tlen, pos, "nsec") {
        Some((Unit::Nanos, 4))
    } else if starts_with_at(t, tlen, pos, "ns") {
        Some((Unit::Nanos, 2))
    } else if starts_with_at(t, tlen, pos, "micros") {
        Some((Unit::Micros, 6))
    } else if starts_with_at(t, tlen, pos, "usec") {
        Some((Unit::Micros, 4))
    } else if starts_with_at(t, tlen, pos, "us") {
        Some((Unit::Micros, 2))
    } else if starts_with_at(t, tlen, pos, "millis") {
        Some((Unit::Millis, 6))
    } else if starts_with_at(t, tlen, pos, "msec") {
        Some((Unit::Millis, 4))
    } else if starts_with_at(t, tlen, pos, "ms") {
        Some((Unit::Millis, 2))
    } else if starts_with_at(t, tlen, pos, "seconds") {
        Some((Unit::Seconds, 7))
    } else if starts_with_at(t, tlen, pos, "second") {
        Some((Unit::Seconds, 6))
    } else if starts_with_at(t, tlen, pos, "secs") {
        Some((Unit::Seconds, 4))
    } else if starts_with_at(t, tlen, pos, "sec") {
        Some((Unit::Seconds, 3))
    } else if starts_with_at(t, tlen, pos, "s") {
        Some((Unit::Seconds, 1))
    } else if starts_with_at(t, tlen, pos, "minutes") {
        Some((Unit::Minutes, 7))
    } else if starts_with_at(t, tlen, pos, "minute") {
        Some((Unit::Minutes, 6))
    } else if starts_with_at(t, tlen, pos, "mins") {
        Some((Unit::Minutes, 4))
    } else if starts_with_at(t, tlen, pos, "min") {
        Some((Unit::Minutes, 3))
    } else if starts_with_at(t, tlen, pos, "m") {
        Some((Unit::Minutes, 1))
    } else if starts_with_at(t, tlen, pos, "hours") {
        Some((Unit::Hours, 5))
    } else if starts_with_at(t, tlen, pos, "hour") {
        Some((Unit::Hours, 4))
    } else if starts_with_at(t, tlen, pos, "hrs") {
        Some((Unit::Hours, 3))
    } else if starts_with_at(t, tlen, pos, "hr") {
        Some((Unit::Hours, 2))
    } else if starts_with_at(t, tlen, pos, "h") {
        Some((Unit::Hours, 1))
    } else if starts_with_at(t, tlen, pos, "H") {
        Some((Unit::Hours, 1))
    } else {
        None
    }
}

/// The outcome of recognizing one time-span at the start of the text: the
/// duration it denotes and the characters consumed (the number, optional
/// separating spaces, the unit tag, and optional trailing spaces), or the
/// position and rule of the failure.
pub ghost enum SpanResult {
    /// A time-span was recognized.
    Span {
        /// The duration the span denotes.
        d: Duration,
        /// The characters consumed.
        len: nat,
    },
    /// No time-span starts here.
    Fail {
        /// The position of the failure.
        at: nat,
        /// The rule that failed.
        rule: GrammarRule,
    },
}

/// Recognizes one time-span at the start of the text: a number, optional
/// spaces, a unit tag, then optional trailing spaces. A failed number or
/// range check reports at the start; a failed unit tag reports after the
/// number and spaces.
pub open spec fn spec_span(s: Seq<char>) -> SpanResult {
    match lex_number(s) {
        Option::None => SpanResult::Fail { at: 0, rule: GrammarRule::Number },
        Option::Some(tok) => if !tok.in_range() {
            SpanResult::Fail { at: 0, rule: GrammarRule::Range }
        } else {
            let p = tok.len + sep_prefix_len(s.skip(tok.len as int));
            match spec_match_unit(s.skip(p as int)) {
                Option::None => SpanResult::Fail { at: p, rule: GrammarRule::Unit },
                Option::Some(ul) => {
                    let q = p + ul.1;
                    SpanResult::Span {
                        d: duration_from_ns(tok.spec_span_ns(ul.0)),
                        len: q + sep_prefix_len(s.skip(q as int)),
                    }
                },
            }
        },
    }
}

/// A recognized span consumes at least two characters and at most the
/// text; a failure points into the text.
pub proof fn lemma_spec_span_props(s: Seq<char>)
    ensures
        spec_span(s) matches SpanResult::Span { d, len } ==> 0 < len <= s.len() && d.wf(),
        spec_span(s) matches SpanResult::Fail { at, rule } ==> at <= s.len(),
{
    lemma_lex_number_props(s);
    match lex_number(s) {
        Option::None => {},
        Option::Some(tok) => {
            if tok.in_range() {
                lemma_sep_prefix(s.skip(tok.len as int));
                let p = tok.len + sep_prefix_len(s.skip(tok.len as int));
                lemma_match_unit_props(s.skip(p as int));
                match spec_match_unit(s.skip(p as int)) {
                    Option::None => {},
                    Option::Some(ul) => {
                        let q = p + ul.1;
                        lemma_sep_prefix(s.skip(q as int));
                        lemma_span_ns_nonneg(tok, ul.0);
                        crate::duration::lemma_duration_from_ns(tok.spec_span_ns(ul.0));
                    },
                }
            }
        },
    }
}

/// A span denotes a non-negative number of nanoseconds.
proof fn lemma_span_ns_nonneg(tok: NumTok, u: Unit)
    ensures
        tok.spec_span_ns(u) >= 0,
{
    let m = tok.mant_value();
    let p = tok.scale();
    let f = u.spec_nanos();
    crate::number::lemma_digit_vals(tok.mant);
    crate::arith::lemma_digits_value_bound(crate::number::digit_vals(tok.mant));
    if p >= 0 {
        crate::arith::lemma_pow10_pos(p as nat);
        vstd::arithmetic::mul::lemma_mul_nonnegative(m, crate::arith::pow10(p as nat));
        vstd::arithmetic::mul::lemma_mul_nonnegative(m * crate::arith::pow10(p as nat), f);
    } else {
        crate::arith::lemma_pow10_pos((-p) as nat);
        vstd::arithmetic::mul::lemma_mul_nonnegative(2 * m, f);
        vstd::arithmetic::div_mod::lemma_div_pos_is_pos(2 * m * f, crate::arith::pow10((-p) as nat));
    }
}

/// The total characters the maximal run of time-spans consumes.
pub open spec fn spans_len(s: Seq<char>) -> nat
    decreases s.len(),
{
    match spec_span(s) {
        SpanResult::Span { d, len } => if 0 < len <= s.len() {
            (len + spans_len(s.skip(len as int))) as nat
        } else {
            0
        },
        SpanResult::Fail { .. } => 0,
    }
}

/// The sum in nanoseconds of the durations the run of time-spans denotes.
pub open spec fn spans_sum(s: Seq<char>) -> int
    decreases s.len(),
{
    match spec_span(s) {
        SpanResult::Span { d, len } => if 0 < len <= s.len() {
            d.total_nanos() + spans_sum(s.skip(len as int))
        } else {
            0
        },
        SpanResult::Fail { .. } => 0,
    }
}

/// The span total is non-negative, and the consumed length fits.
pub proof fn lemma_spans_props(s: Seq<char>)
    ensures
        spans_sum(s) >= 0,
        spans_len(s) <= s.len(),
    decreases s.len(),
{
    lemma_spec_span_props(s);
    match spec_span(s) {
        SpanResult::Span { d, len } => {
            if 0 < len <= s.len() {
                lemma_spans_props(s.skip(len as int));
            }
        },
        SpanResult::Fail { .. } => {},
    }
}

/// How an input parses: into a duration, or into one of the three failure
/// classes, a grammar failure carrying the unconsumed remainder of the
/// trimmed input and the rule that failed.
pub ghost enum ParseOutcome {
    /// The input denotes this duration.
    Parsed {
        /// The duration the input denotes.
        d: Duration,
    },
    /// The trimmed input is empty.
    EmptyInput,
    /// Trailing non-whitespace text follows the recognized time-spans.
    InputLeftOver,
    /// The number/unit grammar or the numeric-range check failed.
    Grammar {
        /// The unconsumed input from the position of the failure on.
        remainder: Seq<char>,
        /// The rule that failed.
        rule: GrammarRule,
    },
}

/// How parsing treats an input: trim whitespace; an empty remainder is
/// `EmptyInput`; otherwise at least one time-span must be recognized, the
/// durations of the maximal run of time-spans are summed, saturating at
/// the largest representable duration, and anything but whitespace after
/// them is `InputLeftOver`.
pub open spec fn spec_parse(s: Seq<char>) -> ParseOutcome {
    let t = spec_trim(s);
    if t.len() == 0 {
        ParseOutcome::EmptyInput
    } else {
        match spec_span(t) {
            SpanResult::Fail { at, rule } => ParseOutcome::Grammar {
                remainder: t.skip(at as int),
                rule,
            },
            SpanResult::Span { .. } => {
                if spec_trim(t.skip(spans_len(t) as int)).len() > 0 {
                    ParseOutcome::InputLeftOver
                } else {
                    ParseOutcome::Parsed { d: duration_from_ns(spans_sum(t)) }
                }
            },
        }
    }
}

/// Whether the returned result is the one the parsing model names.
pub open spec fn parse_result_matches(r: Result<Duration, ParseError>, o: ParseOutcome) -> bool {
    match o {
        ParseOutcome::Parsed { d } => r == Ok::<Duration, ParseError>(d),
        ParseOutcome::EmptyInput => r == Err::<Duration, ParseError>(ParseError::EmptyInput),
        ParseOutcome::InputLeftOver => r == Err::<Duration, ParseError>(ParseError::InputLeftOver),
        ParseOutcome::Grammar { remainder, rule } => match r {
            Err(ParseError::Grammar { remainder: rem, rule: ru }) => rem@ == remainder && ru
                == rule,
            _ => false,
        },
    }
}

/// Recognizes one time-span at position `pos` of the text, returning the
/// duration it denotes and the position after it, or the failure position
/// and rule.
pub fn parse_span_at(t: &str, tlen: usize, pos: usize) -> (r: Result<
    (Duration, usize),
    (usize, GrammarRule),
>)
    requires
        tlen == t@.len(),
        pos <= tlen,
    ensures
        ({
            let sp = spec_span(t@.skip(pos as int));
            match sp {
                SpanResult::Span { d, len } => r == Ok::<(Duration, usize), (usize, GrammarRule)>(
                    (d, (pos + len) as usize),
                ) && 0 < len <= tlen - pos && d.wf(),
                SpanResult::Fail { at, rule } => r == Err::<(Duration, usize), (usize, GrammarRule)>(
                    ((pos + at) as usize, rule),
                ) && at <= tlen - pos,
            }
        }),
{
    let ghost s = t@.skip(pos as int);
    proof {
        lemma_spec_span_props(s);
    }
    let l = match lex_number_at(t, tlen, pos) {
        Option::None => {
            return Err((pos, GrammarRule::Number));
        },
        Option::Some(l) => l,
    };
    let ghost tok = lex_number(s).unwrap();
    proof {
        lemma_lex_number_props(s);
    }
    let parts = analyze_number(&l, Ghost(tok));
    if !parts.ok {
        return Err((pos, GrammarRule::Range));
    }
    let afternum = pos + l.len;
    let sp = scan_seps(t, tlen, afternum);
    let p = afternum + sp;
    proof {
        assert(s.skip(tok.len as int) =~= t@.skip(afternum as int));
        assert(s.skip((tok.len + sep_prefix_len(s.skip(tok.len as int))) as int) =~= t@.skip(
            p as int,
        ));
    }
    let (u, ul) = match match_unit_at(t, tlen, p) {
        Option::None => {
            return Err((p, GrammarRule::Unit));
        },
        Option::Some(r) => r,
    };
    let d = convert_parts(&parts, u, Ghost(tok));
    let q = p + ul;
    let sp2 = scan_seps(t, tlen, q);
    proof {
        assert(s.skip((p - pos + ul) as int) =~= t@.skip(q as int));
    }
    Ok((d, q + sp2))
}

/// A nanosecond total with the saturation at the largest representable
/// duration applied.
pub open spec fn sat_total(ns: int) -> int {
    if ns <= crate::duration::duration_cap() {
        ns
    } else {
        crate::duration::duration_cap()
    }
}

/// Parses a duration string: one or more time-spans such as `"2h 15m"` or
/// `"1.5days"`, whose durations are summed. Whitespace at the ends is
/// ignored; an empty input, trailing text, or a failure of the number or
/// unit grammar is reported as the matching error.
pub fn parse_duration_new(input: &str) -> (r: Result<Duration, ParseError>)
    ensures
        parse_result_matches(r, spec_parse(input@)),
        r matches Ok(d) ==> d.wf(),
{
    let len = input.unicode_len();
    let (start, end) = trim_range(input, len);
    let ghost tt = spec_trim(input@);
    if start == end {
        proof {
            assert(tt.len() == 0);
        }
        return Err(ParseError::EmptyInput);
    }
    let t = input.substring_char(start, end);
    let tlen = end - start;
    proof {
        assert(t@ == tt);
    }
    let (d0, p0) = match parse_span_at(t, tlen, 0) {
        Err((at, rule)) => {
            proof {
                assert(t@.skip(0) =~= t@);
                assert(t@.subrange(at as int, tlen as int) =~= t@.skip(at as int));
            }
            let rem = t.substring_char(at, tlen).to_owned();
            return Err(ParseError::Grammar { remainder: rem, rule });
        },
        Ok(v) => v,
    };
    proof {
        assert(t@.skip(0) =~= t@);
    }
    let mut tot: u128 = (d0.as_secs() as u128) * 1_000_000_000 + (d0.subsec_nanos() as u128);
    let mut pos = p0;
    let mut done = false;
    proof {
        lemma_spans_props(t@.skip(p0 as int));
        assert(spans_len(t@) == p0 + spans_len(t@.skip(p0 as int)));
        assert(spans_sum(t@) == d0.total_nanos() + spans_sum(t@.skip(p0 as int)));
    }
    while !done
        invariant
            tlen == t@.len(),
            pos <= tlen,
            tot <= crate::convert::CAP_NANOS,
            spans_len(t@) == pos + spans_len(t@.skip(pos as int)),
            sat_total(tot as int + spans_sum(t@.skip(pos as int))) == sat_total(spans_sum(t@)),
            spans_sum(t@.skip(pos as int)) >= 0,
            done ==> spans_len(t@.skip(pos as int)) == 0 && spans_sum(t@.skip(pos as int)) == 0,
        decreases tlen - pos + (if done {
            0int
        } else {
            1
        }),
    {
        match parse_span_at(t, tlen, pos) {
            Ok((d, p2)) => {
                proof {
                    let rest = t@.skip(pos as int);
                    let len = (p2 - pos) as nat;
                    assert(rest.skip(len as int) =~= t@.skip(p2 as int));
                    lemma_spans_props(t@.skip(p2 as int));
                    assert(spans_len(rest) == len + spans_len(t@.skip(p2 as int)));
                    assert(spans_sum(rest) == d.total_nanos() + spans_sum(t@.skip(p2 as int)));
                    assert(d.total_nanos() <= crate::convert::CAP_NANOS);
                }
                let dns = (d.as_secs() as u128) * 1_000_000_000 + (d.subsec_nanos() as u128);
                tot = if tot + dns > crate::convert::CAP_NANOS {
                    crate::convert::CAP_NANOS
                } else {
                    tot + dns
                };
                pos = p2;
            },
            Err(_) => {
                done = true;
            },
        }
    }
    if !all_ws_from(t, tlen, pos) {
        proof {
            lemma_trim_empty(t@.skip(pos as int));
            assert(!(forall|i: int|
                0 <= i < t@.skip(pos as int).len() ==> is_ws_char(t@.skip(pos as int)[i]))) by {
                if forall|i: int|
                    0 <= i < t@.skip(pos as int).len() ==> is_ws_char(t@.skip(pos as int)[i]) {
                    assert forall|i: int| pos <= i < tlen implies is_ws_char(t@[i]) by {
                        assert(is_ws_char(t@.skip(pos as int)[i - pos]));
                    }
                }
            }
            assert(spec_trim(t@.skip(pos as int)).len() > 0);
        }
        return Err(ParseError::InputLeftOver);
    }
    proof {
        lemma_trim_empty(t@.skip(pos as int));
        assert forall|i: int|
            0 <= i < t@.skip(pos as int).len() implies is_ws_char(t@.skip(pos as int)[i]) by {
            assert(is_ws_char(t@[pos + i]));
        }
        assert(spec_trim(t@.skip(spans_len(t@) as int)).len() == 0);
        assert(tot == if spans_sum(t@) <= crate::convert::CAP_NANOS {
            spans_sum(t@)
        } else {
            crate::convert::CAP_NANOS as int
        });
        crate::duration::lemma_duration_from_ns(spans_sum(t@));
        vstd::arithmetic::div_mod::lemma_mod_division_less_than_divisor(tot as int, 1_000_000_000);
        vstd::arithmetic::div_mod::lemma_div_pos_is_pos(tot as int, 1_000_000_000);
        assert(tot as int / 1_000_000_000 <= crate::convert::CAP_NANOS as int / 1_000_000_000) by {
            vstd::arithmetic::div_mod::lemma_div_is_ordered(
                tot as int,
                crate::convert::CAP_NANOS as int,
                1_000_000_000,
            );
        }
    }
    let secs = (tot / 1_000_000_000) as u64;
    let nanos = (tot % 1_000_000_000) as u32;
    Ok(Duration::new(secs, nanos))
}

} // verus!

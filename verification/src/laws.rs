use crate::duration::{duration_from_ns, Duration};
use crate::format::{
    decomp_items, dec_str, digit_char, item_text, join_items, plural_suffix, spec_format,
    unit_label,
};
use crate::number::{
    digit_vals, lemma_digit_vals, lemma_digit_vals_empty, lemma_digit_vals_snoc, lex_number,
};
use crate::parse::{
    spans_len, spans_sum, spec_match_unit, spec_parse, spec_span, ParseOutcome, SpanResult,
};
use crate::arith::digits_value;
use crate::scan::{
    digits_prefix_len, is_digit_char, is_ws_char, sep_prefix_len, spec_digit_val, spec_trim,
    tag_match,
};
use crate::units::{lemma_unit_order_decreasing, unit_order, Unit};
use vstd::prelude::*;

verus! {

/// Pluralization: an emitted item is the count followed by the unit's
/// suffix, and the pluralizing `s` appears exactly when the unit is a
/// calendar word (year, month, week, day) with a count above one; the
/// sub-day abbreviations are never pluralized.
pub proof fn lemma_pluralization(u: Unit, c: nat)
    requires
        c >= 1,
    ensures
        u.spec_is_calendar() && c > 1 ==> item_text(u, c) == dec_str(c) + unit_label(u)
            + seq!['s'],
        !(u.spec_is_calendar() && c > 1) ==> item_text(u, c) == dec_str(c) + unit_label(u),
{
    if u.spec_is_calendar() && c > 1 {
    } else {
        assert(item_text(u, c) =~= dec_str(c) + unit_label(u));
    }
}

/// The units of the emitted items, largest first: strictly descending in
/// size, so no unit appears twice, each with a count of at least one, and
/// none larger than the unit the walk starts at.
proof fn lemma_decomp_ordered(i: int, rem: int)
    requires
        0 <= i <= 10,
        rem >= 0,
    ensures
        ({
            let items = decomp_items(i, rem);
            &&& forall|a: int, b: int|
                0 <= a < b < items.len() ==> items[a].0.spec_nanos() > items[b].0.spec_nanos()
            &&& forall|a: int| 0 <= a < items.len() ==> items[a].1 >= 1
            &&& i < 10 ==> forall|a: int|
                0 <= a < items.len() ==> items[a].0.spec_nanos() <= unit_order(i).spec_nanos()
        }),
    decreases 10 - i,
{
    if i < 10 {
        let u = unit_order(i);
        let f = u.spec_nanos();
        let c = rem / f;
        let r = rem % f;
        vstd::arithmetic::div_mod::lemma_div_pos_is_pos(rem, f);
        vstd::arithmetic::div_mod::lemma_mod_division_less_than_divisor(rem, f);
        lemma_decomp_ordered(i + 1, r);
        let rest = decomp_items(i + 1, r);
        if i + 1 < 10 {
            lemma_unit_order_decreasing(i, i + 1);
            assert(forall|a: int|
                0 <= a < rest.len() ==> rest[a].0.spec_nanos() < unit_order(i).spec_nanos());
        }
        if c > 0 {
            let items = decomp_items(i, rem);
            assert(items == seq![(u, c)] + rest);
            assert(items[0] == (u, c));
            assert(forall|a: int| 1 <= a < items.len() ==> items[a] == rest[a - 1]);
        }
    }
}

/// Ordering invariant: the items formatting emits appear in strictly
/// descending unit size, each at most once, each with a count of at least
/// one.
pub proof fn lemma_format_ordering(d: Duration)
    ensures
        ({
            let items = decomp_items(0, d.total_nanos());
            &&& forall|a: int, b: int|
                0 <= a < b < items.len() ==> items[a].0.spec_nanos() > items[b].0.spec_nanos()
            &&& forall|a: int| 0 <= a < items.len() ==> items[a].1 >= 1
        }),
{
    lemma_decomp_ordered(0, d.total_nanos());
}

/// Empty-input detection: parsing reports the empty input exactly when the
/// input holds nothing but whitespace.
pub proof fn lemma_empty_input(s: Seq<char>)
    ensures
        (spec_parse(s) == ParseOutcome::EmptyInput) <==> (spec_trim(s).len() == 0),
{
    let t = spec_trim(s);
    if t.len() > 0 {
        match spec_parse(s) {
            ParseOutcome::EmptyInput => {
                assert(false);
            },
            _ => {},
        }
    }
}

/// The decimal digits of a number really are digits, and they denote the
/// number itself.
proof fn lemma_dec_str_digits(n: nat)
    ensures
        dec_str(n).len() >= 1,
        forall|i: int| 0 <= i < dec_str(n).len() ==> is_digit_char(dec_str(n)[i]),
        digits_value(digit_vals(dec_str(n))) == n,
    decreases n,
{
    if n < 10 {
        let s = dec_str(n);
        assert(s == seq![digit_char(n as int)]);
        assert(is_digit_char(digit_char(n as int)));
        assert(spec_digit_val(digit_char(n as int)) == n);
        lemma_digit_vals(s);
        assert(digit_vals(s).drop_last() =~= Seq::<u8>::empty());
        assert(digits_value(Seq::<u8>::empty()) == 0);
        assert(digit_vals(s).last() == n as u8);
        assert(digits_value(digit_vals(s)) == 0 * 10 + n);
    } else {
        lemma_dec_str_digits(n / 10);
        let head = dec_str(n / 10);
        let c = digit_char((n % 10) as int);
        assert(is_digit_char(c) && spec_digit_val(c) == n % 10);
        assert(dec_str(n) == head.push(c));
        assert(forall|i: int|
            0 <= i < head.len() ==> #[trigger] head.push(c)[i] == head[i]);
        lemma_digit_vals_snoc(head, c);
        assert(digit_vals(head.push(c)).drop_last() =~= digit_vals(head));
        assert(digit_vals(head.push(c)).last() == (n % 10) as u8);
        assert(digits_value(digit_vals(head.push(c))) == (n / 10) * 10 + n % 10);
        assert(n == (n / 10) * 10 + n % 10) by {
            vstd::arithmetic::div_mod::lemma_fundamental_div_mod(n as int, 10);
        }
    }
}

/// A run of digits followed by anything that is not a digit is exactly the
/// digit prefix.
proof fn lemma_digits_prefix_concat(a: Seq<char>, b: Seq<char>)
    requires
        forall|i: int| 0 <= i < a.len() ==> is_digit_char(a[i]),
        b.len() == 0 || !is_digit_char(b[0]),
    ensures
        digits_prefix_len(a + b) == a.len(),
    decreases a.len(),
{
    let s = a + b;
    if a.len() == 0 {
        assert(s =~= b);
    } else {
        assert(s[0] == a[0]);
        assert(s.skip(1) =~= a.skip(1) + b);
        assert(forall|i: int| 0 <= i < a.skip(1).len() ==> a.skip(1)[i] == a[i + 1]);
        lemma_digits_prefix_concat(a.skip(1), b);
    }
}

/// Recognizing a whole number followed by a letter: the literal is exactly
/// the digits, with no sign, fraction or exponent, and it denotes the
/// number itself, within range whenever the number fits.
proof fn lemma_lex_item(c: nat, tail: Seq<char>)
    requires
        c <= u64::MAX,
        tail.len() >= 1,
        !is_digit_char(tail[0]),
        tail[0] != '.',
        tail[0] != '+',
        tail[0] != '-',
        tail[0] != 'e',
        tail[0] != 'E',
    ensures
        ({
            let s = dec_str(c) + tail;
            &&& lex_number(s) matches Some(tok) && tok.neg == false && tok.mant == dec_str(c)
                && tok.frac_len == 0 && tok.exp.len() == 0 && tok.len == dec_str(c).len()
                && tok.in_range() && tok.mant_value() == c && tok.scale() == 0
        }),
{
    reveal(lex_number);
    reveal(crate::number::lex_tail);
    reveal(crate::number::lex_exp_len);
    lemma_dec_str_digits(c);
    let ds = dec_str(c);
    let s = ds + tail;
    assert(s[0] == ds[0]);
    assert(is_digit_char(s[0]));
    assert(s[0] != '+' && s[0] != '-');
    assert(s.skip(0) =~= s);
    lemma_digits_prefix_concat(ds, tail);
    let il = digits_prefix_len(s);
    assert(il == ds.len());
    assert(s[il as int] == tail[0]);
    assert(!(s.len() > il && s[il as int] == '.'));
    let es = s.skip(il as int);
    assert(es =~= tail);
    assert(crate::number::lex_exp_len(es) == 0);
    let tok = lex_number(s).unwrap();
    assert(s.subrange(0, il as int) =~= ds);
    assert(tok == crate::number::lex_tail(s, false, ds, 0nat, il));
    lemma_digit_vals_empty();
    assert(tok.mant_value() == c);
    assert(tok.exp_value() == 0);
    assert(tok.scale() == 0);
    assert(tok.in_range()) by {
        if c > 0 {
            assert(crate::arith::pow10(0) == 1);
            assert(c * 1 == c) by {
                vstd::arithmetic::mul::lemma_mul_basics(c as int);
            }
        }
    }
}

/// A tag fails to match when the text is too short for it or differs at
/// some position.
proof fn lemma_not_tag_at(w: Seq<char>, t: Seq<char>, k: int)
    requires
        0 <= k < t.len(),
        w.len() < t.len() || (k < w.len() && w[k] != t[k]),
    ensures
        !tag_match(w, t),
{
    if t.len() <= w.len() {
        if w.subrange(0, t.len() as int) == t {
            assert(w.subrange(0, t.len() as int)[k] == t[k]);
            assert(w.subrange(0, t.len() as int)[k] == w[k]);
        }
    }
}

/// Alias resolution on formatted items: the text a nonzero unit count is
/// written as is recognized back as exactly that unit, whatever follows
/// after the separating space.
#[verifier::rlimit(100)]
proof fn lemma_match_item_tag(u: Unit, c: nat, rest: Seq<char>)
    requires
        rest.len() == 0 || rest[0] == ' ',
    ensures
        ({
            let w = unit_label(u) + plural_suffix(u, c) + rest;
            spec_match_unit(w) == Some(
                (u, (unit_label(u).len() + plural_suffix(u, c).len()) as nat),
            )
        }),
{
    reveal_strlit("months");
    reveal_strlit("month");
    reveal_strlit("mths");
    reveal_strlit("mth");
    reveal_strlit("M");
    reveal_strlit("days");
    reveal_strlit("day");
    reveal_strlit("dys");
    reveal_strlit("dy");
    reveal_strlit("d");
    reveal_strlit("D");
    reveal_strlit("weeks");
    reveal_strlit("week");
    reveal_strlit("wks");
    reveal_strlit("wk");
    reveal_strlit("w");
    reveal_strlit("W");
    reveal_strlit("years");
    reveal_strlit("year");
    reveal_strlit("yrs");
    reveal_strlit("yr");
    reveal_strlit("y");
    reveal_strlit("Y");
    reveal_strlit("nanos");
    reveal_strlit("nsec");
    reveal_strlit("ns");
    reveal_strlit("micros");
    reveal_strlit("usec");
    reveal_strlit("us");
    reveal_strlit("millis");
    reveal_strlit("msec");
    reveal_strlit("ms");
    reveal_strlit("seconds");
    reveal_strlit("second");
    reveal_strlit("secs");
    reveal_strlit("sec");
    reveal_strlit("s");
    reveal_strlit("minutes");
    reveal_strlit("minute");
    reveal_strlit("mins");
    reveal_strlit("min");
    reveal_strlit("m");
    reveal_strlit("hours");
    reveal_strlit("hour");
    reveal_strlit("hrs");
    reveal_strlit("hr");
    reveal_strlit("h");
    reveal_strlit("H");
    let w = unit_label(u) + plural_suffix(u, c) + rest;
    match u {
        Unit::Years => {
            if c > 1 {
                assert(unit_label(u) + plural_suffix(u, c) =~= "years"@);
                assert(w =~= "years"@ + rest);
                lemma_not_tag_at(w, "months"@, 0);
                lemma_not_tag_at(w, "month"@, 0);
                lemma_not_tag_at(w, "mths"@, 0);
                lemma_not_tag_at(w, "mth"@, 0);
                lemma_not_tag_at(w, "M"@, 0);
                lemma_not_tag_at(w, "days"@, 0);
                lemma_not_tag_at(w, "day"@, 0);
                lemma_not_tag_at(w, "dys"@, 0);
                lemma_not_tag_at(w, "dy"@, 0);
                lemma_not_tag_at(w, "d"@, 0);
                lemma_not_tag_at(w, "D"@, 0);
                lemma_not_tag_at(w, "weeks"@, 0);
                lemma_not_tag_at(w, "week"@, 0);
                lemma_not_tag_at(w, "wks"@, 0);
                lemma_not_tag_at(w, "wk"@, 0);
                lemma_not_tag_at(w, "w"@, 0);
                lemma_not_tag_at(w, "W"@, 0);
                assert(tag_match(w, "years"@)) by {
                    assert(w.subrange(0, 5) =~= "years"@);
                }
                assert(spec_match_unit(w) == Some((u, 5nat)));
            } else {
                assert(unit_label(u) + plural_suffix(u, c) =~= "year"@);
                assert(w =~= "year"@ + rest);
                lemma_not_tag_at(w, "months"@, 0);
                lemma_not_tag_at(w, "month"@, 0);
                lemma_not_tag_at(w, "mths"@, 0);
                lemma_not_tag_at(w, "mth"@, 0);
                lemma_not_tag_at(w, "M"@, 0);
                lemma_not_tag_at(w, "days"@, 0);
                lemma_not_tag_at(w, "day"@, 0);
                lemma_not_tag_at(w, "dys"@, 0);
                lemma_not_tag_at(w, "dy"@, 0);
                lemma_not_tag_at(w, "d"@, 0);
                lemma_not_tag_at(w, "D"@, 0);
                lemma_not_tag_at(w, "weeks"@, 0);
                lemma_not_tag_at(w, "week"@, 0);
                lemma_not_tag_at(w, "wks"@, 0);
                lemma_not_tag_at(w, "wk"@, 0);
                lemma_not_tag_at(w, "w"@, 0);
                lemma_not_tag_at(w, "W"@, 0);
                lemma_not_tag_at(w, "years"@, 4);
                assert(tag_match(w, "year"@)) by {
                    assert(w.subrange(0, 4) =~= "year"@);
                }
                assert(spec_match_unit(w) == Some((u, 4nat)));
            }
        },
        Unit::Months => {
            if c > 1 {
                assert(unit_label(u) + plural_suffix(u, c) =~= "months"@);
                assert(w =~= "months"@ + rest);
                assert(tag_match(w, "months"@)) by {
                    assert(w.subrange(0, 6) =~= "months"@);
                }
                assert(spec_match_unit(w) == Some((u, 6nat)));
            } else {
                assert(unit_label(u) + plural_suffix(u, c) =~= "month"@);
                assert(w =~= "month"@ + rest);
                lemma_not_tag_at(w, "months"@, 5);
                assert(tag_match(w, "month"@)) by {
                    assert(w.subrange(0, 5) =~= "month"@);
                }
                assert(spec_match_unit(w) == Some((u, 5nat)));
            }
        },
        Unit::Weeks => {
            if c > 1 {
                assert(unit_label(u) + plural_suffix(u, c) =~= "weeks"@);
                assert(w =~= "weeks"@ + rest);
                lemma_not_tag_at(w, "months"@, 0);
                lemma_not_tag_at(w, "month"@, 0);
                lemma_not_tag_at(w, "mths"@, 0);
                lemma_not_tag_at(w, "mth"@, 0);
                lemma_not_tag_at(w, "M"@, 0);
                lemma_not_tag_at(w, "days"@, 0);
                lemma_not_tag_at(w, "day"@, 0);
                lemma_not_tag_at(w, "dys"@, 0);
                lemma_not_tag_at(w, "dy"@, 0);
                lemma_not_tag_at(w, "d"@, 0);
                lemma_not_tag_at(w, "D"@, 0);
                assert(tag_match(w, "weeks"@)) by {
                    assert(w.subrange(0, 5) =~= "weeks"@);
                }
                assert(spec_match_unit(w) == Some((u, 5nat)));
            } else {
                assert(unit_label(u) + plural_suffix(u, c) =~= "week"@);
                assert(w =~= "week"@ + rest);
                lemma_not_tag_at(w, "months"@, 0);
                lemma_not_tag_at(w, "month"@, 0);
                lemma_not_tag_at(w, "mths"@, 0);
                lemma_not_tag_at(w, "mth"@, 0);
                lemma_not_tag_at(w, "M"@, 0);
                lemma_not_tag_at(w, "days"@, 0);
                lemma_not_tag_at(w, "day"@, 0);
                lemma_not_tag_at(w, "dys"@, 0);
                lemma_not_tag_at(w, "dy"@, 0);
                lemma_not_tag_at(w, "d"@, 0);
                lemma_not_tag_at(w, "D"@, 0);
                lemma_not_tag_at(w, "weeks"@, 4);
                assert(tag_match(w, "week"@)) by {
                    assert(w.subrange(0, 4) =~= "week"@);
                }
                assert(spec_match_unit(w) == Some((u, 4nat)));
            }
        },
        Unit::Days => {
            if c > 1 {
                assert(unit_label(u) + plural_suffix(u, c) =~= "days"@);
                assert(w =~= "days"@ + rest);
                lemma_not_tag_at(w, "months"@, 0);
                lemma_not_tag_at(w, "month"@, 0);
                lemma_not_tag_at(w, "mths"@, 0);
                lemma_not_tag_at(w, "mth"@, 0);
                lemma_not_tag_at(w, "M"@, 0);
                assert(tag_match(w, "days"@)) by {
                    assert(w.subrange(0, 4) =~= "days"@);
                }
                assert(spec_match_unit(w) == Some((u, 4nat)));
            } else {
                assert(unit_label(u) + plural_suffix(u, c) =~= "day"@);
                assert(w =~= "day"@ + rest);
                lemma_not_tag_at(w, "months"@, 0);
                lemma_not_tag_at(w, "month"@, 0);
                lemma_not_tag_at(w, "mths"@, 0);
                lemma_not_tag_at(w, "mth"@, 0);
                lemma_not_tag_at(w, "M"@, 0);
                lemma_not_tag_at(w, "days"@, 3);
                assert(tag_match(w, "day"@)) by {
                    assert(w.subrange(0, 3) =~= "day"@);
                }
                assert(spec_match_unit(w) == Some((u, 3nat)));
            }
        },
        Unit::Hours => {
            assert(unit_label(u) + plural_suffix(u, c) =~= "h"@);
            assert(w =~= "h"@ + rest);
            lemma_not_tag_at(w, "months"@, 0);
            lemma_not_tag_at(w, "month"@, 0);
            lemma_not_tag_at(w, "mths"@, 0);
            lemma_not_tag_at(w, "mth"@, 0);
            lemma_not_tag_at(w, "M"@, 0);
            lemma_not_tag_at(w, "days"@, 0);
            lemma_not_tag_at(w, "day"@, 0);
            lemma_not_tag_at(w, "dys"@, 0);
            lemma_not_tag_at(w, "dy"@, 0);
            lemma_not_tag_at(w, "d"@, 0);
            lemma_not_tag_at(w, "D"@, 0);
            lemma_not_tag_at(w, "weeks"@, 0);
            lemma_not_tag_at(w, "week"@, 0);
            lemma_not_tag_at(w, "wks"@, 0);
            lemma_not_tag_at(w, "wk"@, 0);
            lemma_not_tag_at(w, "w"@, 0);
            lemma_not_tag_at(w, "W"@, 0);
            lemma_not_tag_at(w, "years"@, 0);
            lemma_not_tag_at(w, "year"@, 0);
            lemma_not_tag_at(w, "yrs"@, 0);
            lemma_not_tag_at(w, "yr"@, 0);
            lemma_not_tag_at(w, "y"@, 0);
            lemma_not_tag_at(w, "Y"@, 0);
            lemma_not_tag_at(w, "nanos"@, 0);
            lemma_not_tag_at(w, "nsec"@, 0);
            lemma_not_tag_at(w, "ns"@, 0);
            lemma_not_tag_at(w, "micros"@, 0);
            lemma_not_tag_at(w, "usec"@, 0);
            lemma_not_tag_at(w, "us"@, 0);
            lemma_not_tag_at(w, "millis"@, 0);
            lemma_not_tag_at(w, "msec"@, 0);
            lemma_not_tag_at(w, "ms"@, 0);
            lemma_not_tag_at(w, "seconds"@, 0);
            lemma_not_tag_at(w, "second"@, 0);
            lemma_not_tag_at(w, "secs"@, 0);
            lemma_not_tag_at(w, "sec"@, 0);
            lemma_not_tag_at(w, "s"@, 0);
            lemma_not_tag_at(w, "minutes"@, 0);
            lemma_not_tag_at(w, "minute"@, 0);
            lemma_not_tag_at(w, "mins"@, 0);
            lemma_not_tag_at(w, "min"@, 0);
            lemma_not_tag_at(w, "m"@, 0);
            lemma_not_tag_at(w, "hours"@, 1);
            lemma_not_tag_at(w, "hour"@, 1);
            lemma_not_tag_at(w, "hrs"@, 1);
            lemma_not_tag_at(w, "hr"@, 1);
            assert(tag_match(w, "h"@)) by {
                    assert(w.subrange(0, 1) =~= "h"@);
            }
            assert(spec_match_unit(w) == Some((u, 1nat)));
        },
        Unit::Minutes => {
            assert(unit_label(u) + plural_suffix(u, c) =~= "m"@);
            assert(w =~= "m"@ + rest);
            lemma_not_tag_at(w, "months"@, 1);
            lemma_not_tag_at(w, "month"@, 1);
            lemma_not_tag_at(w, "mths"@, 1);
            lemma_not_tag_at(w, "mth"@, 1);
            lemma_not_tag_at(w, "M"@, 0);
            lemma_not_tag_at(w, "days"@, 0);
            lemma_not_tag_at(w, "day"@, 0);
            lemma_not_tag_at(w, "dys"@, 0);
            lemma_not_tag_at(w, "dy"@, 0);
            lemma_not_tag_at(w, "d"@, 0);
            lemma_not_tag_at(w, "D"@, 0);
            lemma_not_tag_at(w, "weeks"@, 0);
            lemma_not_tag_at(w, "week"@, 0);
            lemma_not_tag_at(w, "wks"@, 0);
            lemma_not_tag_at(w, "wk"@, 0);
            lemma_not_tag_at(w, "w"@, 0);
            lemma_not_tag_at(w, "W"@, 0);
            lemma_not_tag_at(w, "years"@, 0);
            lemma_not_tag_at(w, "year"@, 0);
            lemma_not_tag_at(w, "yrs"@, 0);
            lemma_not_tag_at(w, "yr"@, 0);
            lemma_not_tag_at(w, "y"@, 0);
            lemma_not_tag_at(w, "Y"@, 0);
            lemma_not_tag_at(w, "nanos"@, 0);
            lemma_not_tag_at(w, "nsec"@, 0);
            lemma_not_tag_at(w, "ns"@, 0);
            lemma_not_tag_at(w, "micros"@, 1);
            lemma_not_tag_at(w, "usec"@, 0);
            lemma_not_tag_at(w, "us"@, 0);
            lemma_not_tag_at(w, "millis"@, 1);
            lemma_not_tag_at(w, "msec"@, 1);
            lemma_not_tag_at(w, "ms"@, 1);
            lemma_not_tag_at(w, "seconds"@, 0);
            lemma_not_tag_at(w, "second"@, 0);
            lemma_not_tag_at(w, "secs"@, 0);
            lemma_not_tag_at(w, "sec"@, 0);
            lemma_not_tag_at(w, "s"@, 0);
            lemma_not_tag_at(w, "minutes"@, 1);
            lemma_not_tag_at(w, "minute"@, 1);
            lemma_not_tag_at(w, "mins"@, 1);
            lemma_not_tag_at(w, "min"@, 1);
            assert(tag_match(w, "m"@)) by {
                    assert(w.subrange(0, 1) =~= "m"@);
            }
            assert(spec_match_unit(w) == Some((u, 1nat)));
        },
        Unit::Seconds => {
            assert(unit_label(u) + plural_suffix(u, c) =~= "s"@);
            assert(w =~= "s"@ + rest);
            lemma_not_tag_at(w, "months"@, 0);
            lemma_not_tag_at(w, "month"@, 0);
            lemma_not_tag_at(w, "mths"@, 0);
            lemma_not_tag_at(w, "mth"@, 0);
            lemma_not_tag_at(w, "M"@, 0);
            lemma_not_tag_at(w, "days"@, 0);
            lemma_not_tag_at(w, "day"@, 0);
            lemma_not_tag_at(w, "dys"@, 0);
            lemma_not_tag_at(w, "dy"@, 0);
            lemma_not_tag_at(w, "d"@, 0);
            lemma_not_tag_at(w, "D"@, 0);
            lemma_not_tag_at(w, "weeks"@, 0);
            lemma_not_tag_at(w, "week"@, 0);
            lemma_not_tag_at(w, "wks"@, 0);
            lemma_not_tag_at(w, "wk"@, 0);
            lemma_not_tag_at(w, "w"@, 0);
            lemma_not_tag_at(w, "W"@, 0);
            lemma_not_tag_at(w, "years"@, 0);
            lemma_not_tag_at(w, "year"@, 0);
            lemma_not_tag_at(w, "yrs"@, 0);
            lemma_not_tag_at(w, "yr"@, 0);
            lemma_not_tag_at(w, "y"@, 0);
            lemma_not_tag_at(w, "Y"@, 0);
            lemma_not_tag_at(w, "nanos"@, 0);
            lemma_not_tag_at(w, "nsec"@, 0);
            lemma_not_tag_at(w, "ns"@, 0);
            lemma_not_tag_at(w, "micros"@, 0);
            lemma_not_tag_at(w, "usec"@, 0);
            lemma_not_tag_at(w, "us"@, 0);
            lemma_not_tag_at(w, "millis"@, 0);
            lemma_not_tag_at(w, "msec"@, 0);
            lemma_not_tag_at(w, "ms"@, 0);
            lemma_not_tag_at(w, "seconds"@, 1);
            lemma_not_tag_at(w, "second"@, 1);
            lemma_not_tag_at(w, "secs"@, 1);
            lemma_not_tag_at(w, "sec"@, 1);
            assert(tag_match(w, "s"@)) by {
                    assert(w.subrange(0, 1) =~= "s"@);
            }
            assert(spec_match_unit(w) == Some((u, 1nat)));
        },
        Unit::Millis => {
            assert(unit_label(u) + plural_suffix(u, c) =~= "ms"@);
            assert(w =~= "ms"@ + rest);
            lemma_not_tag_at(w, "months"@, 1);
            lemma_not_tag_at(w, "month"@, 1);
            lemma_not_tag_at(w, "mths"@, 1);
            lemma_not_tag_at(w, "mth"@, 1);
            lemma_not_tag_at(w, "M"@, 0);
            lemma_not_tag_at(w, "days"@, 0);
            lemma_not_tag_at(w, "day"@, 0);
            lemma_not_tag_at(w, "dys"@, 0);
            lemma_not_tag_at(w, "dy"@, 0);
            lemma_not_tag_at(w, "d"@, 0);
            lemma_not_tag_at(w, "D"@, 0);
            lemma_not_tag_at(w, "weeks"@, 0);
            lemma_not_tag_at(w, "week"@, 0);
            lemma_not_tag_at(w, "wks"@, 0);
            lemma_not_tag_at(w, "wk"@, 0);
            lemma_not_tag_at(w, "w"@, 0);
            lemma_not_tag_at(w, "W"@, 0);
            lemma_not_tag_at(w, "years"@, 0);
            lemma_not_tag_at(w, "year"@, 0);
            lemma_not_tag_at(w, "yrs"@, 0);
            lemma_not_tag_at(w, "yr"@, 0);
            lemma_not_tag_at(w, "y"@, 0);
            lemma_not_tag_at(w, "Y"@, 0);
            lemma_not_tag_at(w, "nanos"@, 0);
            lemma_not_tag_at(w, "nsec"@, 0);
            lemma_not_tag_at(w, "ns"@, 0);
            lemma_not_tag_at(w, "micros"@, 1);
            lemma_not_tag_at(w, "usec"@, 0);
            lemma_not_tag_at(w, "us"@, 0);
            lemma_not_tag_at(w, "millis"@, 1);
            lemma_not_tag_at(w, "msec"@, 2);
            assert(tag_match(w, "ms"@)) by {
                    assert(w.subrange(0, 2) =~= "ms"@);
            }
            assert(spec_match_unit(w) == Some((u, 2nat)));
        },
        Unit::Micros => {
            assert(unit_label(u) + plural_suffix(u, c) =~= "us"@);
            assert(w =~= "us"@ + rest);
            lemma_not_tag_at(w, "months"@, 0);
            lemma_not_tag_at(w, "month"@, 0);
            lemma_not_tag_at(w, "mths"@, 0);
            lemma_not_tag_at(w, "mth"@, 0);
            lemma_not_tag_at(w, "M"@, 0);
            lemma_not_tag_at(w, "days"@, 0);
            lemma_not_tag_at(w, "day"@, 0);
            lemma_not_tag_at(w, "dys"@, 0);
            lemma_not_tag_at(w, "dy"@, 0);
            lemma_not_tag_at(w, "d"@, 0);
            lemma_not_tag_at(w, "D"@, 0);
            lemma_not_tag_at(w, "weeks"@, 0);
            lemma_not_tag_at(w, "week"@, 0);
            lemma_not_tag_at(w, "wks"@, 0);
            lemma_not_tag_at(w, "wk"@, 0);
            lemma_not_tag_at(w, "w"@, 0);
            lemma_not_tag_at(w, "W"@, 0);
            lemma_not_tag_at(w, "years"@, 0);
            lemma_not_tag_at(w, "year"@, 0);
            lemma_not_tag_at(w, "yrs"@, 0);
            lemma_not_tag_at(w, "yr"@, 0);
            lemma_not_tag_at(w, "y"@, 0);
            lemma_not_tag_at(w, "Y"@, 0);
            lemma_not_tag_at(w, "nanos"@, 0);
            lemma_not_tag_at(w, "nsec"@, 0);
            lemma_not_tag_at(w, "ns"@, 0);
            lemma_not_tag_at(w, "micros"@, 0);
            lemma_not_tag_at(w, "usec"@, 2);
            assert(tag_match(w, "us"@)) by {
                    assert(w.subrange(0, 2) =~= "us"@);
            }
            assert(spec_match_unit(w) == Some((u, 2nat)));
        },
        Unit::Nanos => {
            assert(unit_label(u) + plural_suffix(u, c) =~= "ns"@);
            assert(w =~= "ns"@ + rest);
            lemma_not_tag_at(w, "months"@, 0);
            lemma_not_tag_at(w, "month"@, 0);
            lemma_not_tag_at(w, "mths"@, 0);
            lemma_not_tag_at(w, "mth"@, 0);
            lemma_not_tag_at(w, "M"@, 0);
            lemma_not_tag_at(w, "days"@, 0);
            lemma_not_tag_at(w, "day"@, 0);
            lemma_not_tag_at(w, "dys"@, 0);
            lemma_not_tag_at(w, "dy"@, 0);
            lemma_not_tag_at(w, "d"@, 0);
            lemma_not_tag_at(w, "D"@, 0);
            lemma_not_tag_at(w, "weeks"@, 0);
            lemma_not_tag_at(w, "week"@, 0);
            lemma_not_tag_at(w, "wks"@, 0);
            lemma_not_tag_at(w, "wk"@, 0);
            lemma_not_tag_at(w, "w"@, 0);
            lemma_not_tag_at(w, "W"@, 0);
            lemma_not_tag_at(w, "years"@, 0);
            lemma_not_tag_at(w, "year"@, 0);
            lemma_not_tag_at(w, "yrs"@, 0);
            lemma_not_tag_at(w, "yr"@, 0);
            lemma_not_tag_at(w, "y"@, 0);
            lemma_not_tag_at(w, "Y"@, 0);
            lemma_not_tag_at(w, "nanos"@, 1);
            lemma_not_tag_at(w, "nsec"@, 2);
            assert(tag_match(w, "ns"@)) by {
                    assert(w.subrange(0, 2) =~= "ns"@);
            }
            assert(spec_match_unit(w) == Some((u, 2nat)));
        },
    }
}

/// The last character of an emitted item is a letter, never whitespace,
/// and the item holds at least two characters.
proof fn lemma_item_shape(u: Unit, c: nat)
    ensures
        item_text(u, c).len() >= 2,
        is_digit_char(item_text(u, c)[0]),
        !is_ws_char(item_text(u, c).last()),
{
    reveal_strlit("year");
    reveal_strlit("month");
    reveal_strlit("week");
    reveal_strlit("day");
    reveal_strlit("h");
    reveal_strlit("m");
    reveal_strlit("s");
    reveal_strlit("ms");
    reveal_strlit("us");
    reveal_strlit("ns");
    lemma_dec_str_digits(c);
    let it = item_text(u, c);
    assert(it[0] == dec_str(c)[0]);
    let pl = plural_suffix(u, c);
    if pl.len() > 0 {
        assert(it.last() == 's');
    } else {
        assert(it.last() == unit_label(u).last());
    }
}

/// Trimming leaves a text alone when neither end is whitespace.
proof fn lemma_trim_nonws_ends(s: Seq<char>)
    requires
        s.len() > 0,
        !is_ws_char(s[0]),
        !is_ws_char(s.last()),
    ensures
        spec_trim(s) == s,
{
}

/// One emitted item parses as one time-span: the item's count in the
/// item's unit, consuming the item and, when more text follows after the
/// separating space, that space too.
proof fn lemma_span_item(u: Unit, c: nat, rest: Seq<char>)
    requires
        c <= u64::MAX,
        rest.len() == 0 || (rest.len() >= 2 && rest[0] == ' ' && is_digit_char(rest[1])),
    ensures
        ({
            let txt = item_text(u, c) + rest;
            spec_span(txt) == (SpanResult::Span {
                d: duration_from_ns(c * u.spec_nanos()),
                len: (item_text(u, c).len() + (if rest.len() > 0 {
                    1nat
                } else {
                    0nat
                })) as nat,
            })
        }),
{
    reveal_strlit("year");
    reveal_strlit("month");
    reveal_strlit("week");
    reveal_strlit("day");
    reveal_strlit("h");
    reveal_strlit("m");
    reveal_strlit("s");
    reveal_strlit("ms");
    reveal_strlit("us");
    reveal_strlit("ns");
    let lbl = unit_label(u);
    let pl = plural_suffix(u, c);
    let tail = lbl + pl + rest;
    let txt = item_text(u, c) + rest;
    assert(txt =~= dec_str(c) + tail);
    lemma_dec_str_digits(c);
    assert(tail[0] == lbl[0]);
    assert(!is_digit_char(tail[0]));
    assert(tail[0] != '.' && tail[0] != '+' && tail[0] != '-' && tail[0] != 'e' && tail[0]
        != 'E');
    lemma_lex_item(c, tail);
    let tok = lex_number(dec_str(c) + tail).unwrap();
    assert(lex_number(txt) == Some(tok));
    assert(txt.skip(tok.len as int) =~= tail);
    assert(!crate::scan::is_sep_char(tail[0]));
    assert(sep_prefix_len(tail) == 0);
    let p = tok.len + sep_prefix_len(txt.skip(tok.len as int));
    assert(p == dec_str(c).len());
    lemma_match_item_tag(u, c, rest);
    assert(txt.skip(p as int) =~= tail);
    assert(spec_match_unit(txt.skip(p as int)) == Some(
        (u, (lbl.len() + pl.len()) as nat),
    ));
    let q = p + (lbl.len() + pl.len());
    assert(txt.skip(q as int) =~= rest);
    if rest.len() == 0 {
        assert(sep_prefix_len(rest) == 0);
    } else {
        assert(crate::scan::is_sep_char(rest[0]));
        assert(rest.skip(1)[0] == rest[1]);
        assert(!crate::scan::is_sep_char(rest.skip(1)[0]));
        assert(sep_prefix_len(rest.skip(1)) == 0);
        assert(sep_prefix_len(rest) == 1);
    }
    assert(tok.spec_span_ns(u) == c * u.spec_nanos()) by {
        assert(tok.scale() == 0 && tok.mant_value() == c);
        assert(crate::arith::pow10(0) == 1);
        assert(c * 1 == c) by {
            vstd::arithmetic::mul::lemma_mul_basics(c as int);
        }
    }
    assert(item_text(u, c).len() == dec_str(c).len() + lbl.len() + pl.len());
}

/// Nothing decomposes out of a zero remainder.
proof fn lemma_decomp_zero(i: int)
    ensures
        decomp_items(i, 0).len() == 0,
    decreases 10 - i,
{
    if i < 10 {
        let f = unit_order(i).spec_nanos();
        assert(0int / f == 0) by {
            vstd::arithmetic::div_mod::lemma_div_of0(f);
        }
        assert(0int % f == 0) by {
            vstd::arithmetic::div_mod::lemma_mod_self_0(f);
            vstd::arithmetic::div_mod::lemma_small_mod(0, f as nat);
        }
        lemma_decomp_zero(i + 1);
    }
}

/// The text of a positive remainder's decomposition is one maximal run of
/// time-spans denoting exactly that remainder: every span is consumed,
/// nothing is left, and the spans sum back to the remainder.
#[verifier::rlimit(100)]
proof fn lemma_items_parse(i: int, rem: int)
    requires
        0 <= i < 10,
        1 <= rem,
        i == 0 ==> rem <= crate::duration::duration_cap(),
        i >= 1 ==> rem < unit_order(i - 1).spec_nanos(),
    ensures
        ({
            let txt = join_items(decomp_items(i, rem));
            &&& decomp_items(i, rem).len() >= 1
            &&& txt.len() >= 1
            &&& is_digit_char(txt[0])
            &&& !is_ws_char(txt.last())
            &&& spans_len(txt) == txt.len()
            &&& spans_sum(txt) == rem
        }),
    decreases 10 - i,
{
    let u = unit_order(i);
    let f = u.spec_nanos();
    let c = rem / f;
    let r = rem % f;
    vstd::arithmetic::div_mod::lemma_fundamental_div_mod(rem, f);
    vstd::arithmetic::div_mod::lemma_mod_division_less_than_divisor(rem, f);
    vstd::arithmetic::div_mod::lemma_div_pos_is_pos(rem, f);
    assert(c * f <= rem) by {
        vstd::arithmetic::mul::lemma_mul_is_commutative(c, f);
    }
    assert(c <= u64::MAX) by {
        if i == 0 {
            assert(f == crate::units::YEAR_NANOS);
            assert(rem / f < 1_000_000_000_000) by {
                assert(rem <= 18_446_744_073_709_551_615int * 1_000_000_000 + 999_999_999);
                assert(1_000_000_000_000int * 31_557_600_000_000_000
                    == 31_557_600_000_000_000_000_000_000_000int);
                assert(rem < f * 1_000_000_000_000) by {
                    vstd::arithmetic::mul::lemma_mul_is_commutative(f, 1_000_000_000_000);
                }
                vstd::arithmetic::div_mod::lemma_multiply_divide_lt(
                    rem,
                    f,
                    1_000_000_000_000,
                );
            }
        } else {
            vstd::arithmetic::div_mod::lemma_div_nonincreasing(rem, f);
        }
    }
    if c == 0 {
        assert(f * 0 == 0) by {
            vstd::arithmetic::mul::lemma_mul_basics(f);
        }
        assert(r == rem);
        assert(i < 9) by {
            if i == 9 {
                assert(f == 1);
                assert(rem / 1 == rem) by {
                    vstd::arithmetic::div_mod::lemma_div_basics(rem);
                }
            }
        }
        lemma_items_parse(i + 1, r);
        assert(decomp_items(i, rem) == decomp_items(i + 1, r));
    } else {
        let rest_items = decomp_items(i + 1, r);
        let items = decomp_items(i, rem);
        assert(items == seq![(u, c)] + rest_items);
        assert(items[0] == (u, c));
        assert(items.drop_first() =~= rest_items);
        lemma_item_shape(u, c as nat);
        let it = item_text(u, c as nat);
        if r == 0 {
            lemma_decomp_zero(i + 1);
            assert(items.len() == 1);
            let txt = join_items(items);
            assert(txt =~= it);
            lemma_span_item(u, c as nat, Seq::<char>::empty());
            assert(it + Seq::<char>::empty() =~= it);
            assert(spec_span(txt) == (SpanResult::Span {
                d: duration_from_ns(c * f),
                len: it.len() as nat,
            }));
            assert(txt.skip(it.len() as int) =~= Seq::<char>::empty());
            assert(spans_len(Seq::<char>::empty()) == 0);
            assert(spans_sum(Seq::<char>::empty()) == 0);
            assert(spans_len(txt) == txt.len());
            crate::duration::lemma_duration_from_ns(c * f);
            assert(rem == c * f);
            assert(c * f <= crate::duration::duration_cap());
            assert(spans_sum(txt) == rem);
        } else {
            assert(i < 9) by {
                if i == 9 {
                    assert(f == 1);
                    assert(r < 1);
                }
            }
            lemma_items_parse(i + 1, r);
            let rtxt = join_items(rest_items);
            let txt = join_items(items);
            assert(rest_items.len() >= 1);
            assert(items.len() >= 2);
            assert(txt == it + (seq![' '] + rtxt));
            let sep_rest = seq![' '] + rtxt;
            assert(sep_rest.len() >= 2);
            assert(sep_rest[0] == ' ');
            assert(sep_rest[1] == rtxt[0]);
            lemma_span_item(u, c as nat, sep_rest);
            assert(txt =~= it + sep_rest);
            assert(spec_span(txt) == (SpanResult::Span {
                d: duration_from_ns(c * f),
                len: (it.len() + 1) as nat,
            }));
            assert(txt.skip(it.len() as int + 1) =~= rtxt);
            assert(txt.len() == it.len() + 1 + rtxt.len());
            assert(spans_len(txt) == (it.len() + 1) + spans_len(rtxt));
            assert(spans_len(txt) == txt.len());
            crate::duration::lemma_duration_from_ns(c * f);
            assert(c * f <= rem <= crate::duration::duration_cap()) by {
                if i >= 1 {
                    assert(rem < unit_order(i - 1).spec_nanos());
                }
            }
            assert(spans_sum(txt) == c * f + spans_sum(rtxt));
            assert(spans_sum(txt) == rem);
            assert(txt[0] == it[0]);
            assert(txt.last() == rtxt.last());
        }
    }
}

/// Round-trip: formatting any well-formed duration and parsing the result
/// gives back exactly the same duration. In particular this holds for
/// every duration formed from whole values of a single unit.
pub proof fn lemma_format_parse_round_trip(d: Duration)
    requires
        d.wf(),
    ensures
        spec_parse(spec_format(d)) == (ParseOutcome::Parsed { d }),
{
    let total = d.total_nanos();
    assert(0 <= total <= crate::duration::duration_cap());
    if total == 0 {
        reveal_strlit("0s");
        reveal_strlit("s");
        let txt = "0s"@;
        assert(spec_format(d) == txt);
        lemma_dec_str_digits(0);
        assert(item_text(Unit::Seconds, 0) =~= txt);
        lemma_span_item(Unit::Seconds, 0, Seq::<char>::empty());
        assert(item_text(Unit::Seconds, 0) + Seq::<char>::empty() =~= txt);
        assert(0nat * Unit::Seconds.spec_nanos() == 0) by {
            vstd::arithmetic::mul::lemma_mul_basics(Unit::Seconds.spec_nanos());
        }
        assert(spec_span(txt) == (SpanResult::Span {
            d: duration_from_ns(0),
            len: 2nat,
        }));
        assert(!is_ws_char(txt[0]) && !is_ws_char(txt.last()));
        lemma_trim_nonws_ends(txt);
        assert(txt.skip(2) =~= Seq::<char>::empty());
        assert(spans_len(Seq::<char>::empty()) == 0);
        assert(spans_sum(Seq::<char>::empty()) == 0);
        assert(spans_len(txt) == 2);
        assert(spans_sum(txt) == 0) by {
            crate::duration::lemma_duration_from_ns(0);
        }
        assert(spec_trim(txt.skip(2)).len() == 0);
        assert(duration_from_ns(0) == d);
        assert(spec_parse(txt) == (ParseOutcome::Parsed { d }));
    } else {
        lemma_items_parse(0, total);
        let txt = join_items(decomp_items(0, total));
        assert(spec_format(d) == txt);
        lemma_trim_nonws_ends(txt);
        assert(spec_span(txt) matches SpanResult::Span { .. }) by {
            match spec_span(txt) {
                SpanResult::Fail { .. } => {
                    assert(spans_len(txt) == 0);
                    assert(false);
                },
                SpanResult::Span { .. } => {},
            }
        }
        assert(txt.skip(spans_len(txt) as int) =~= Seq::<char>::empty());
        assert(spec_trim(txt.skip(spans_len(txt) as int)).len() == 0);
        crate::duration::lemma_duration_from_ns(total);
        assert(duration_from_ns(total) == d) by {
            vstd::arithmetic::div_mod::lemma_fundamental_div_mod_converse(
                total,
                1_000_000_000,
                d.secs as int,
                d.nanos as int,
            );
        }
        assert(spec_parse(txt) == (ParseOutcome::Parsed { d }));
    }
}

/// The nanosecond total a list of time-spans denotes: each span's count
/// of its unit, saturated at the largest representable duration per span.
pub open spec fn list_sum(l: Seq<(Unit, int)>) -> int
    decreases l.len(),
{
    if l.len() == 0 {
        0
    } else {
        duration_from_ns(l[0].1 * l[0].0.spec_nanos()).total_nanos() + list_sum(l.drop_first())
    }
}

/// Every count in the list is a positive representable whole number.
pub open spec fn counts_ok(l: Seq<(Unit, int)>) -> bool {
    forall|k: int| 0 <= k < l.len() ==> 1 <= #[trigger] l[k].1 <= u64::MAX
}

/// Joining span lists inserts a single space between them.
proof fn lemma_join_concat(l1: Seq<(Unit, int)>, l2: Seq<(Unit, int)>)
    requires
        l1.len() >= 1,
        l2.len() >= 1,
    ensures
        join_items(l1 + l2) == join_items(l1) + seq![' '] + join_items(l2),
    decreases l1.len(),
{
    let l = l1 + l2;
    assert(l[0] == l1[0]);
    if l1.len() == 1 {
        assert(l.drop_first() =~= l2);
        assert(join_items(l1 + l2) =~= join_items(l1) + seq![' '] + join_items(l2));
    } else {
        assert(l.drop_first() =~= l1.drop_first() + l2);
        lemma_join_concat(l1.drop_first(), l2);
        assert(join_items(l1 + l2) =~= join_items(l1) + seq![' '] + join_items(l2));
    }
}

/// The text of a span list is one maximal run of time-spans denoting its
/// total: every span is consumed, nothing is left over.
proof fn lemma_list_parse(l: Seq<(Unit, int)>)
    requires
        l.len() >= 1,
        counts_ok(l),
    ensures
        ({
            let txt = join_items(l);
            &&& txt.len() >= 1
            &&& is_digit_char(txt[0])
            &&& !is_ws_char(txt.last())
            &&& spans_len(txt) == txt.len()
            &&& spans_sum(txt) == list_sum(l)
        }),
    decreases l.len(),
{
    let u = l[0].0;
    let c = l[0].1;
    assert(1 <= c <= u64::MAX);
    lemma_item_shape(u, c as nat);
    let it = item_text(u, c as nat);
    let txt = join_items(l);
    if l.len() == 1 {
        assert(txt == it);
        lemma_span_item(u, c as nat, Seq::<char>::empty());
        assert(it + Seq::<char>::empty() =~= it);
        assert(spec_span(txt) == (SpanResult::Span {
            d: duration_from_ns(c * u.spec_nanos()),
            len: it.len() as nat,
        }));
        assert(txt.skip(it.len() as int) =~= Seq::<char>::empty());
        assert(spans_len(Seq::<char>::empty()) == 0);
        assert(spans_sum(Seq::<char>::empty()) == 0);
        assert(spans_len(txt) == txt.len());
        assert(l.drop_first().len() == 0);
        assert(list_sum(l.drop_first()) == 0);
        assert(list_sum(l) == duration_from_ns(c * u.spec_nanos()).total_nanos());
        assert(spans_sum(txt) == list_sum(l));
    } else {
        let rest = l.drop_first();
        lemma_list_parse(rest);
        let rtxt = join_items(rest);
        assert(txt == it + (seq![' '] + rtxt));
        let sep_rest = seq![' '] + rtxt;
        assert(sep_rest[0] == ' ');
        assert(sep_rest[1] == rtxt[0]);
        lemma_span_item(u, c as nat, sep_rest);
        assert(txt =~= it + sep_rest);
        assert(spec_span(txt) == (SpanResult::Span {
            d: duration_from_ns(c * u.spec_nanos()),
            len: (it.len() + 1) as nat,
        }));
        assert(txt.skip(it.len() as int + 1) =~= rtxt);
        assert(txt.len() == it.len() + 1 + rtxt.len());
        assert(spans_len(txt) == (it.len() + 1) + spans_len(rtxt));
        assert(spans_len(txt) == txt.len());
        assert(spans_sum(txt) == duration_from_ns(c * u.spec_nanos()).total_nanos() + spans_sum(
            rtxt,
        ));
        assert(spans_sum(txt) == list_sum(l));
        assert(txt[0] == it[0]);
        assert(txt.last() == rtxt.last());
    }
}

/// Additivity: a span list parses to its saturated total, and parsing the
/// concatenation of two span lists equals the sum of parsing each list
/// individually. Here a span is written as a whole count followed by a
/// unit tag, the form the formatter itself emits.
pub proof fn lemma_additivity(l1: Seq<(Unit, int)>, l2: Seq<(Unit, int)>)
    requires
        l1.len() >= 1,
        l2.len() >= 1,
        counts_ok(l1),
        counts_ok(l2),
    ensures
        spec_parse(join_items(l1)) == (ParseOutcome::Parsed { d: duration_from_ns(list_sum(l1)) }),
        spec_parse(join_items(l2)) == (ParseOutcome::Parsed { d: duration_from_ns(list_sum(l2)) }),
        spec_parse(join_items(l1) + seq![' '] + join_items(l2)) == (ParseOutcome::Parsed {
            d: duration_from_ns(list_sum(l1) + list_sum(l2)),
        }),
{
    lemma_list_parse(l1);
    lemma_list_parse(l2);
    lemma_parse_of_span_run(l1);
    lemma_parse_of_span_run(l2);
    lemma_join_concat(l1, l2);
    assert(l1 + l2 =~= l1 + l2);
    assert(counts_ok(l1 + l2)) by {
        assert(forall|k: int|
            0 <= k < l1.len() ==> #[trigger] (l1 + l2)[k].1 == l1[k].1);
        assert(forall|k: int|
            l1.len() <= k < l1.len() + l2.len() ==> #[trigger] (l1 + l2)[k].1 == l2[
                k - l1.len()].1);
    }
    lemma_parse_of_span_run(l1 + l2);
    assert(list_sum(l1 + l2) == list_sum(l1) + list_sum(l2)) by {
        lemma_list_sum_concat(l1, l2);
    }
}

/// Span totals add over list concatenation.
proof fn lemma_list_sum_concat(l1: Seq<(Unit, int)>, l2: Seq<(Unit, int)>)
    ensures
        list_sum(l1 + l2) == list_sum(l1) + list_sum(l2),
    decreases l1.len(),
{
    if l1.len() == 0 {
        assert(l1 + l2 =~= l2);
    } else {
        assert((l1 + l2)[0] == l1[0]);
        assert((l1 + l2).drop_first() =~= l1.drop_first() + l2);
        lemma_list_sum_concat(l1.drop_first(), l2);
    }
}

/// The text of a span list parses in full, to the list's saturated total.
proof fn lemma_parse_of_span_run(l: Seq<(Unit, int)>)
    requires
        l.len() >= 1,
        counts_ok(l),
    ensures
        spec_parse(join_items(l)) == (ParseOutcome::Parsed { d: duration_from_ns(list_sum(l)) }),
{
    lemma_list_parse(l);
    let txt = join_items(l);
    lemma_trim_nonws_ends(txt);
    assert(spec_span(txt) matches SpanResult::Span { .. }) by {
        match spec_span(txt) {
            SpanResult::Fail { .. } => {
                assert(spans_len(txt) == 0);
                assert(false);
            },
            SpanResult::Span { .. } => {},
        }
    }
    assert(txt.skip(spans_len(txt) as int) =~= Seq::<char>::empty());
    assert(spec_trim(txt.skip(spans_len(txt) as int)).len() == 0);
}

} // verus!

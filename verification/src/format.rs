use crate::duration::Duration;
use crate::units::{unit_at, unit_order, Unit};
use vstd::prelude::*;
use vstd::string::{StrSliceExecFns, StringExecFns};

verus! {

/// The character of a decimal digit value.
pub open spec fn digit_char(d: int) -> char {
    if d == 0 {
        '0'
    } else if d == 1 {
        '1'
    } else if d == 2 {
        '2'
    } else if d == 3 {
        '3'
    } else if d == 4 {
        '4'
    } else if d == 5 {
        '5'
    } else if d == 6 {
        '6'
    } else if d == 7 {
        '7'
    } else if d == 8 {
        '8'
    } else {
        '9'
    }
}

/// The decimal digits of a number, most significant first.
pub open spec fn dec_str(n: nat) -> Seq<char>
    decreases n,
{
    if n < 10 {
        seq![digit_char(n as int)]
    } else {
        dec_str(n / 10).push(digit_char((n % 10) as int))
    }
}

/// The suffix a unit is written with: the full calendar word for years,
/// months, weeks and days, the fixed abbreviation for the rest.
pub open spec fn unit_label(u: Unit) -> Seq<char> {
    match u {
        Unit::Years => "year"@,
        Unit::Months => "month"@,
        Unit::Weeks => "week"@,
        Unit::Days => "day"@,
        Unit::Hours => "h"@,
        Unit::Minutes => "m"@,
        Unit::Seconds => "s"@,
        Unit::Millis => "ms"@,
        Unit::Micros => "us"@,
        Unit::Nanos => "ns"@,
    }
}

/// The pluralizing suffix: a trailing `s` exactly when a calendar word
/// has a count above one.
pub open spec fn plural_suffix(u: Unit, c: nat) -> Seq<char> {
    if u.spec_is_calendar() && c > 1 {
        seq!['s']
    } else {
        Seq::<char>::empty()
    }
}

/// One emitted item: the count, the unit's suffix, and the pluralizing
/// suffix.
pub open spec fn item_text(u: Unit, c: nat) -> Seq<char> {
    dec_str(c) + unit_label(u) + plural_suffix(u, c)
}

/// The items formatting emits: walking the units largest first, each
/// unit's whole count of the remaining time, skipping zero counts and
/// carrying the remainder to the next unit.
pub open spec fn decomp_items(i: int, rem: int) -> Seq<(Unit, int)>
    decreases 10 - i,
{
    if i >= 10 {
        Seq::empty()
    } else {
        let u = unit_order(i);
        let c = rem / u.spec_nanos();
        let r = rem % u.spec_nanos();
        if c > 0 {
            seq![(u, c)] + decomp_items(i + 1, r)
        } else {
            decomp_items(i + 1, r)
        }
    }
}

/// The emitted items joined with single spaces.
pub open spec fn join_items(items: Seq<(Unit, int)>) -> Seq<char>
    decreases items.len(),
{
    if items.len() == 0 {
        Seq::empty()
    } else {
        item_text(items[0].0, items[0].1 as nat) + (if items.len() == 1 {
            Seq::<char>::empty()
        } else {
            seq![' '] + join_items(items.drop_first())
        })
    }
}

/// The text a duration formats to: `0s` for the zero duration, otherwise
/// the nonzero unit counts of its largest-first decomposition, each with
/// its suffix, joined with single spaces.
pub open spec fn spec_format(d: Duration) -> Seq<char> {
    if d.total_nanos() == 0 {
        "0s"@
    } else {
        join_items(decomp_items(0, d.total_nanos()))
    }
}

/// A wrapper holding a duration together with its textual form.
#[derive(Clone, Debug)]
pub struct FormattedDuration(Duration);

impl View for FormattedDuration {
    type V = Duration;

    closed spec fn view(&self) -> Duration {
        self.0
    }
}

/// Wraps a duration for formatting.
pub fn format_duration(val: Duration) -> (r: FormattedDuration)
    ensures
        r@ == val,
{
    FormattedDuration(val)
}

/// The separator the next item carries: a single space once something has
/// been emitted and more will follow.
pub open spec fn sep_if(started: bool, items: Seq<(Unit, int)>) -> Seq<char> {
    if started && items.len() > 0 {
        seq![' ']
    } else {
        Seq::empty()
    }
}

/// Appends the decimal digits of `n`.
fn push_decimal(out: &mut String, n: u64)
    ensures
        final(out)@ == old(out)@ + dec_str(n as nat),
    decreases n,
{
    if n >= 10 {
        push_decimal(out, n / 10);
    }
    let d = (n % 10) as usize;
    let digits = "0123456789";
    proof {
        reveal_strlit("0123456789");
    }
    let ds = digits.substring_char(d, d + 1);
    out.append(ds);
    proof {
        assert(ds@ =~= seq![digit_char(d as int)]);
        if n < 10 {
            assert(out@ =~= old(out)@ + dec_str(n as nat));
        } else {
            assert(out@ =~= old(out)@ + dec_str(n as nat));
        }
    }
}

/// Appends `<count><name>` with a pluralizing `s` when the count exceeds
/// one, preceded by a space once something has been emitted; does nothing
/// for a zero count.
fn item_plural(out: &mut String, started: &mut bool, name: &str, value: u64)
    ensures
        *final(started) == (*old(started) || value > 0),
        value == 0 ==> final(out)@ == old(out)@,
        value > 0 ==> final(out)@ == old(out)@ + (if *old(started) {
            seq![' ']
        } else {
            Seq::<char>::empty()
        }) + dec_str(value as nat) + name@ + (if value > 1 {
            seq!['s']
        } else {
            Seq::<char>::empty()
        }),
{
    if value > 0 {
        if *started {
            out.append(" ");
            proof {
                reveal_strlit(" ");
                assert(" "@ =~= seq![' ']);
            }
        }
        push_decimal(out, value);
        out.append(name);
        if value > 1 {
            out.append("s");
            proof {
                reveal_strlit("s");
                assert("s"@ =~= seq!['s']);
            }
        }
        *started = true;
    }
}

/// Appends `<count><name>`, preceded by a space once something has been
/// emitted; does nothing for a zero count.
fn item(out: &mut String, started: &mut bool, name: &str, value: u64)
    ensures
        *final(started) == (*old(started) || value > 0),
        value == 0 ==> final(out)@ == old(out)@,
        value > 0 ==> final(out)@ == old(out)@ + (if *old(started) {
            seq![' ']
        } else {
            Seq::<char>::empty()
        }) + dec_str(value as nat) + name@,
{
    if value > 0 {
        if *started {
            out.append(" ");
            proof {
                reveal_strlit(" ");
                assert(" "@ =~= seq![' ']);
            }
        }
        push_decimal(out, value);
        out.append(name);
        *started = true;
    }
}

/// The suffix a unit is written with.
fn label_of(u: Unit) -> (s: &'static str)
    ensures
        s@ == unit_label(u),
{
    match u {
        Unit::Years => "year",
        Unit::Months => "month",
        Unit::Weeks => "week",
        Unit::Days => "day",
        Unit::Hours => "h",
        Unit::Minutes => "m",
        Unit::Seconds => "s",
        Unit::Millis => "ms",
        Unit::Micros => "us",
        Unit::Nanos => "ns",
    }
}

impl FormattedDuration {
    /// The duration being formatted.
    pub fn get_ref(&self) -> (r: &Duration)
        ensures
            *r == self@,
    {
        &self.0
    }

    /// Renders the duration as text: `0s` for the zero duration, otherwise
    /// each nonzero unit count of the largest-first decomposition with its
    /// suffix, space-separated, calendar words pluralized above one.
    #[verifier::rlimit(50)]
    pub fn to_string(&self) -> (s: String)
        ensures
            s@ == spec_format(self@),
    {
        let d = self.0;
        let total: u128 = (d.secs as u128) * 1_000_000_000 + (d.nanos as u128);
        if total == 0 {
            return String::from_str("0s");
        }
        let ghost gtotal = d.total_nanos();
        let mut out = String::new();
        let mut started = false;
        let mut rem = total;
        let mut i: usize = 0;
        proof {
            assert(Seq::<char>::empty() + sep_if(false, decomp_items(0, gtotal)) + join_items(
                decomp_items(0, gtotal),
            ) =~= join_items(decomp_items(0, gtotal)));
        }
        while i < 10
            invariant
                i <= 10,
                gtotal == total,
                total <= u64::MAX as u128 * 1_000_000_000 + u32::MAX as u128,
                i == 0 ==> rem == total,
                i >= 1 ==> rem < unit_order(i - 1).spec_nanos(),
                out@ + sep_if(started, decomp_items(i as int, rem as int)) + join_items(
                    decomp_items(i as int, rem as int),
                ) == join_items(decomp_items(0, gtotal)),
            decreases 10 - i,
        {
            let u = unit_at(i);
            let f = u.nanos_per();
            let c = rem / (f as u128);
            let r2 = rem % (f as u128);
            proof {
                vstd::arithmetic::div_mod::lemma_mod_division_less_than_divisor(
                    rem as int,
                    f as int,
                );
                vstd::arithmetic::div_mod::lemma_div_pos_is_pos(rem as int, f as int);
                if i == 0 {
                    assert(rem as int / f as int <= (u64::MAX as int * 1_000_000_000
                        + u32::MAX as int) / crate::units::YEAR_NANOS as int) by {
                        vstd::arithmetic::div_mod::lemma_div_is_ordered(
                            rem as int,
                            u64::MAX as int * 1_000_000_000 + u32::MAX as int,
                            f as int,
                        );
                    }
                } else {
                    assert(rem as int / f as int <= rem as int) by {
                        vstd::arithmetic::div_mod::lemma_div_nonincreasing(rem as int, f as int);
                    }
                }
            }
            let c64 = c as u64;
            let ghost items = decomp_items(i as int, rem as int);
            let ghost rest = decomp_items(i as int + 1, r2 as int);
            proof {
                if c > 0 {
                    assert(items == seq![(u, c as int)] + rest);
                    assert((seq![(u, c as int)] + rest)[0] == (u, c as int));
                    assert((seq![(u, c as int)] + rest).drop_first() =~= rest);
                } else {
                    assert(items == rest);
                }
            }
            let lbl = label_of(u);
            if u.is_calendar() {
                item_plural(&mut out, &mut started, lbl, c64);
            } else {
                item(&mut out, &mut started, lbl, c64);
            }
            proof {
                if c64 > 0 {
                    assert(item_text(u, c64 as nat) == dec_str(c64 as nat) + unit_label(u) + (
                    if u.spec_is_calendar() && c64 > 1 {
                        seq!['s']
                    } else {
                        Seq::<char>::empty()
                    }));
                    assert(join_items(items) == item_text(u, c64 as nat) + (if items.len() == 1 {
                        Seq::<char>::empty()
                    } else {
                        seq![' '] + join_items(rest)
                    }));
                    assert(items.len() == 1 <==> rest.len() == 0);
                    assert(out@ + sep_if(started, rest) + join_items(rest) =~= join_items(
                        decomp_items(0, gtotal),
                    ));
                } else {
                    assert(out@ + sep_if(started, rest) + join_items(rest) =~= join_items(
                        decomp_items(0, gtotal),
                    ));
                }
            }
            rem = r2;
            i = i + 1;
        }
        proof {
            assert(decomp_items(10, rem as int) =~= Seq::<(Unit, int)>::empty());
            assert(out@ =~= join_items(decomp_items(0, gtotal)));
        }
        out
    }
}

} // verus!

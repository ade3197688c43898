use crate::arith::{
    all_digits, digits_value, frac_floor, lemma_digits_value_bound, lemma_digits_value_concat,
    lemma_digits_value_lower, lemma_digits_value_zero, lemma_frac_floor, lemma_pow10_add,
    lemma_pow10_increases, lemma_pow10_pos, lemma_pow10_values, pow10,
};
use crate::duration::{duration_from_ns, Duration};
use crate::number::{
    digit_vals, lemma_digit_vals, lex_matches, tok_wf, LexNum, NumTok, EXP_CLAMP,
};
use crate::units::{Unit, YEAR_NANOS};
use vstd::arithmetic::div_mod::lemma_hoist_over_denominator;
use vstd::arithmetic::mul::{
    lemma_mul_inequality, lemma_mul_is_commutative, lemma_mul_is_distributive_add_other_way,
    lemma_mul_is_distributive_sub_other_way, lemma_mul_nonnegative, lemma_mul_upper_bound,
};
use vstd::prelude::*;

verus! {

/// The largest total-nanosecond value a `Duration` can hold.
pub const CAP_NANOS: u128 = 18_446_744_073_709_551_615_999_999_999;

/// The numeric-range analysis of a recognized literal: whether it passes
/// the range check, whether it is so small that it rounds to zero
/// nanoseconds whatever the unit, and otherwise its positional digits
/// around the decimal point together with the integer-part value.
pub struct NumParts {
    /// Whether the denoted magnitude passes the numeric-range check.
    pub ok: bool,
    /// Whether the magnitude rounds to zero nanoseconds for every unit.
    pub small: bool,
    /// The digits before the decimal point; at most twenty when in range.
    pub ints: Vec<u8>,
    /// The digits after the decimal point.
    pub fracs: Vec<u8>,
    /// The value of the digits before the decimal point.
    pub ival: u128,
}

/// What the analysis of a literal establishes about it.
pub open spec fn parts_match(p: NumParts, tok: NumTok) -> bool {
    &&& p.ok == tok.in_range()
    &&& (p.small ==> forall|u: Unit| tok.spec_span_ns(u) == 0)
    &&& (p.ok && !p.small ==> {
        &&& all_digits(p.ints@)
        &&& all_digits(p.fracs@)
        &&& p.ival == digits_value(p.ints@)
        &&& p.ival <= u64::MAX
        &&& (tok.scale() >= 0 ==> p.fracs@.len() == 0 && digits_value(p.ints@)
            == tok.mant_value() * pow10(tok.scale() as nat))
        &&& (tok.scale() < 0 ==> p.fracs@.len() == -tok.scale() && tok.mant_value()
            == digits_value(p.ints@) * pow10(p.fracs@.len()) + digits_value(p.fracs@))
    })
}

/// A zero mantissa denotes zero nanoseconds in every unit and always
/// passes the range check.
proof fn lemma_span_zero(tok: NumTok)
    requires
        tok.mant_value() == 0,
    ensures
        tok.in_range(),
        forall|u: Unit| tok.spec_span_ns(u) == 0,
{
    assert forall|u: Unit| tok.spec_span_ns(u) == 0 by {
        let p = tok.scale();
        let f = u.spec_nanos();
        if p >= 0 {
            assert(0 * pow10(p as nat) == 0) by {
                vstd::arithmetic::mul::lemma_mul_basics(pow10(p as nat));
            }
            assert(0 * f == 0) by {
                vstd::arithmetic::mul::lemma_mul_basics(f);
            }
        } else {
            lemma_pow10_pos((-p) as nat);
            assert(2 * 0 * f == 0) by {
                vstd::arithmetic::mul::lemma_mul_basics(f);
            }
            assert(0int / pow10((-p) as nat) == 0) by {
                vstd::arithmetic::div_mod::lemma_div_of0(pow10((-p) as nat));
            }
        }
    }
}

/// A literal whose positional integer part has twenty-one or more digits
/// exceeds the representable range.
proof fn lemma_too_big(m: int, l: int, p: int)
    requires
        l >= 1,
        pow10((l - 1) as nat) <= m,
        l + p >= 21,
    ensures
        p >= 0 ==> m * pow10(p as nat) > u64::MAX,
        p < 0 ==> m > u64::MAX * pow10((-p) as nat),
{
    lemma_pow10_values();
    if p >= 0 {
        lemma_pow10_add((l - 1) as nat, p as nat);
        lemma_pow10_pos(p as nat);
        // m * pow10(p) >= pow10(l - 1) * pow10(p) == pow10(l - 1 + p) >= pow10(20)
        lemma_mul_inequality(pow10((l - 1) as nat), m, pow10(p as nat));
        lemma_pow10_increases(20, (l - 1 + p) as nat);
    } else {
        let k = (-p) as nat;
        // l - 1 >= 20 + k, so pow10(l - 1) >= pow10(20) * pow10(k)
        lemma_pow10_add(20, k);
        lemma_pow10_increases((20 + k) as nat, (l - 1) as nat);
        lemma_pow10_pos(k);
        // u64::MAX * pow10(k) < pow10(20) * pow10(k) <= pow10(l - 1) <= m
        lemma_mul_inequality(u64::MAX + 1, pow10(20), pow10(k as nat));
        assert((u64::MAX + 1) * pow10(k) == u64::MAX * pow10(k) + pow10(k)) by {
            lemma_mul_is_distributive_add_other_way(pow10(k), u64::MAX as int, 1);
        }
    }
}

/// A positive literal whose positional integer part sits seventeen or more
/// places below the decimal point is in range and denotes zero nanoseconds
/// in every unit.
proof fn lemma_tiny(tok: NumTok, l: int)
    requires
        tok.mant_value() > 0,
        !tok.neg,
        l >= 1,
        tok.mant_value() < pow10(l as nat),
        l + tok.scale() <= -17,
    ensures
        tok.in_range(),
        forall|u: Unit| tok.spec_span_ns(u) == 0,
{
    let m = tok.mant_value();
    let p = tok.scale();
    let k = (-p) as nat;
    lemma_pow10_values();
    lemma_pow10_pos(l as nat);
    lemma_pow10_pos(k);
    // k >= l + 17, so pow10(k) >= pow10(l) * pow10(17)
    lemma_pow10_add(l as nat, 17);
    lemma_pow10_increases((l + 17) as nat, k);
    // in range: m < pow10(l) <= pow10(k) <= u64::MAX * pow10(k)
    lemma_pow10_increases(l as nat, k);
    assert(1 * pow10(k) <= u64::MAX * pow10(k)) by {
        lemma_mul_inequality(1, u64::MAX as int, pow10(k));
    }
    assert(tok.in_range());
    assert forall|u: Unit| tok.spec_span_ns(u) == 0 by {
        let f = u.spec_nanos();
        // 2 * m * f < pow10(l) * pow10(17) <= pow10(k)
        assert(2 * m * f <= 2 * m * YEAR_NANOS) by {
            lemma_mul_inequality(f, YEAR_NANOS as int, 2 * m);
            lemma_mul_is_commutative(2 * m, f);
            lemma_mul_is_commutative(2 * m, YEAR_NANOS as int);
        }
        assert(2 * m * YEAR_NANOS == m * (2 * YEAR_NANOS)) by {
            vstd::arithmetic::mul::lemma_mul_is_associative(2, m, YEAR_NANOS as int);
            vstd::arithmetic::mul::lemma_mul_is_commutative(2, m);
            vstd::arithmetic::mul::lemma_mul_is_associative(m, 2, YEAR_NANOS as int);
        }
        assert(m * (2 * YEAR_NANOS) <= (pow10(l as nat) - 1) * pow10(17)) by {
            lemma_mul_inequality(m, pow10(l as nat) - 1, 2 * YEAR_NANOS);
            lemma_mul_inequality(2 * YEAR_NANOS, pow10(17), pow10(l as nat) - 1);
            lemma_mul_is_commutative(pow10(l as nat) - 1, 2 * YEAR_NANOS);
            lemma_mul_is_commutative(pow10(l as nat) - 1, pow10(17));
        }
        assert((pow10(l as nat) - 1) * pow10(17) < pow10(l as nat) * pow10(17)) by {
            lemma_mul_is_distributive_sub_other_way(pow10(17), pow10(l as nat), 1);
            lemma_pow10_pos(17);
        }
        assert(2 * m * f < pow10(k));
        assert((2 * m * f) / pow10(k) == 0) by {
            vstd::arithmetic::div_mod::lemma_basic_div(2 * m * f, pow10(k));
            lemma_mul_nonnegative(2 * m, f);
        }
    }
}

/// Over the positional decomposition `m == i * pow10(k) + fr` with
/// `fr < pow10(k)`, the range check on the denoted value is exactly the
/// check on the integer part, with equality allowed only when the fraction
/// is zero.
proof fn lemma_band_range(m: int, i: int, fr: int, k: nat)
    requires
        m == i * pow10(k) + fr,
        0 <= fr < pow10(k),
        0 <= i,
    ensures
        (m <= u64::MAX * pow10(k)) <==> (i < u64::MAX || (i == u64::MAX && fr == 0)),
{
    let pk = pow10(k);
    lemma_pow10_pos(k);
    if i < u64::MAX {
        // m <= (u64::MAX - 1) * pk + pk - 1 < u64::MAX * pk
        lemma_mul_inequality(i, u64::MAX - 1, pk);
        assert((u64::MAX - 1) * pk == u64::MAX * pk - pk) by {
            lemma_mul_is_distributive_sub_other_way(pk, u64::MAX as int, 1);
        }
    } else if i == u64::MAX {
    } else {
        // i >= u64::MAX + 1, so m > u64::MAX * pk
        lemma_mul_inequality(u64::MAX + 1, i, pk);
        assert((u64::MAX + 1) * pk == u64::MAX * pk + pk) by {
            lemma_mul_is_distributive_add_other_way(pk, u64::MAX as int, 1);
        }
    }
}

/// The nanosecond count of a span over the positional decomposition: with
/// integer part `i`, fraction digits `fs` and factor `f`, the span is
/// `(2 i f + frac_floor(fs, 2 f) + 1) / 2`.
proof fn lemma_span_formula(tok: NumTok, u: Unit, i: int, fs: Seq<u8>)
    requires
        all_digits(fs),
        0 <= i,
        tok.scale() >= 0 ==> fs.len() == 0 && i == tok.mant_value() * pow10(tok.scale() as nat),
        tok.scale() < 0 ==> fs.len() == -tok.scale() && tok.mant_value() == i * pow10(fs.len())
            + digits_value(fs),
    ensures
        tok.spec_span_ns(u) == (2 * i * u.spec_nanos() + frac_floor(fs, 2 * u.spec_nanos()) + 1)
            / 2,
        0 <= tok.spec_span_ns(u),
{
    let f = u.spec_nanos();
    let p = tok.scale();
    let m = tok.mant_value();
    lemma_frac_floor(fs, 2 * f);
    if p >= 0 {
        assert(frac_floor(fs, 2 * f) == 0) by {
            assert(fs =~= Seq::<u8>::empty());
        }
        assert(2 * i * f == 2 * (i * f)) by {
            vstd::arithmetic::mul::lemma_mul_is_associative(2, i, f);
        }
        assert((2 * (i * f) + 1) / 2 == i * f);
        assert(m * pow10(p as nat) * f == i * f);
        lemma_mul_nonnegative(i, f);
    } else {
        let k = fs.len();
        let pk = pow10(k);
        let fr = digits_value(fs);
        lemma_pow10_pos(k);
        lemma_digits_value_bound(fs);
        // 2 m f == (2 i f) * pk + (fr * (2 f))
        assert(2 * m * f == (2 * i * f) * pk + fr * (2 * f)) by {
            assert(2 * m == 2 * (i * pk) + 2 * fr) by {
                lemma_mul_is_distributive_add_other_way(2, i * pk, fr);
            }
            assert((2 * (i * pk) + 2 * fr) * f == (2 * (i * pk)) * f + (2 * fr) * f) by {
                lemma_mul_is_distributive_add_other_way(f, 2 * (i * pk), 2 * fr);
            }
            assert((2 * (i * pk)) * f == (2 * i * f) * pk) by {
                vstd::arithmetic::mul::lemma_mul_is_associative(2, i, pk);
                vstd::arithmetic::mul::lemma_mul_is_associative(2 * i, pk, f);
                vstd::arithmetic::mul::lemma_mul_is_commutative(pk, f);
                vstd::arithmetic::mul::lemma_mul_is_associative(2 * i, f, pk);
            }
            assert((2 * fr) * f == fr * (2 * f)) by {
                vstd::arithmetic::mul::lemma_mul_is_associative(2, fr, f);
                vstd::arithmetic::mul::lemma_mul_is_commutative(2, fr);
                vstd::arithmetic::mul::lemma_mul_is_associative(fr, 2, f);
            }
        }
        // divide by pk: the multiple hoists out
        assert((2 * m * f) / pk == 2 * i * f + (fr * (2 * f)) / pk) by {
            lemma_mul_nonnegative(fr, 2 * f);
            lemma_mul_nonnegative(2 * i, f);
            lemma_hoist_over_denominator(fr * (2 * f), 2 * i * f, pk as nat);
            assert((2 * i * f) * pk == pk * (2 * i * f)) by {
                lemma_mul_is_commutative(2 * i * f, pk);
            }
        }
        assert(frac_floor(fs, 2 * f) == fr * (2 * f) / pk);
        vstd::arithmetic::div_mod::lemma_div_pos_is_pos(2 * m * f, pk);
        lemma_mul_nonnegative(2 * m, f);
        lemma_mul_nonnegative(2 * i, f);
    }
}

/// A run of zero digits.
pub open spec fn zero_seq(n: nat) -> Seq<u8> {
    Seq::new(n, |i: int| 0u8)
}

/// Dropping leading zero digits keeps the denoted value.
proof fn lemma_strip_zeros(dv: Seq<u8>, z: int)
    requires
        all_digits(dv),
        0 <= z <= dv.len(),
        forall|i: int| 0 <= i < z ==> dv[i] == 0,
    ensures
        digits_value(dv) == digits_value(dv.skip(z)),
{
    let head = dv.take(z);
    let tail = dv.skip(z);
    assert(dv =~= head + tail);
    lemma_digits_value_concat(head, tail);
    assert(all_digits(head));
    lemma_digits_value_zero(head);
    assert(digits_value(head) == 0);
    assert(0 * pow10(tail.len()) == 0) by {
        vstd::arithmetic::mul::lemma_mul_basics(pow10(tail.len()));
    }
}

/// Appending zero digits multiplies the denoted value by ten per digit.
proof fn lemma_zero_tail(s: Seq<u8>, c: int)
    requires
        0 <= c <= s.len(),
        forall|i: int| s.len() - c <= i < s.len() ==> s[i] == 0,
    ensures
        digits_value(s) == digits_value(s.take(s.len() - c)) * pow10(c as nat),
{
    let head = s.take(s.len() - c);
    let tail = s.skip(s.len() - c);
    assert(s =~= head + tail);
    lemma_digits_value_concat(head, tail);
    assert(all_digits(tail)) by {
        assert(forall|i: int| 0 <= i < tail.len() ==> tail[i] == s[s.len() - c + i]);
    }
    lemma_digits_value_zero(tail);
}

/// Appends the elements of `v` between `from` and `to` onto `out`.
fn push_range(out: &mut Vec<u8>, v: &Vec<u8>, from: usize, to: usize)
    requires
        from <= to <= v@.len(),
    ensures
        final(out)@ == old(out)@ + v@.subrange(from as int, to as int),
{
    let mut idx = from;
    proof {
        assert(out@ =~= old(out)@ + v@.subrange(from as int, from as int));
    }
    while idx < to
        invariant
            from <= idx <= to <= v@.len(),
            out@ == old(out)@ + v@.subrange(from as int, idx as int),
        decreases to - idx,
    {
        out.push(v[idx]);
        proof {
            assert(v@.subrange(from as int, idx + 1) =~= v@.subrange(from as int, idx as int).push(
                v@[idx as int],
            ));
            assert(out@ =~= old(out)@ + v@.subrange(from as int, idx + 1));
        }
        idx = idx + 1;
    }
}

/// Appends `count` zero digits onto `out`.
fn push_zeros(out: &mut Vec<u8>, count: usize)
    ensures
        final(out)@ == old(out)@ + zero_seq(count as nat),
{
    let mut c: usize = 0;
    proof {
        assert(out@ =~= old(out)@ + zero_seq(0));
    }
    while c < count
        invariant
            c <= count,
            out@ == old(out)@ + zero_seq(c as nat),
        decreases count - c,
    {
        out.push(0);
        proof {
            assert(zero_seq((c + 1) as nat) =~= zero_seq(c as nat).push(0u8));
            assert(out@ =~= old(out)@ + zero_seq((c + 1) as nat));
        }
        c = c + 1;
    }
}

/// The value a digit vector denotes; it fits easily when there are at most
/// twenty digits.
fn digits_to_value(v: &Vec<u8>) -> (x: u128)
    requires
        all_digits(v@),
        v@.len() <= 20,
    ensures
        x == digits_value(v@),
{
    proof {
        lemma_pow10_values();
    }
    let n = v.len();
    let mut x: u128 = 0;
    let mut idx: usize = 0;
    proof {
        assert(v@.take(0) =~= Seq::<u8>::empty());
    }
    while idx < n
        invariant
            idx <= n,
            n == v@.len() <= 20,
            all_digits(v@),
            x == digits_value(v@.take(idx as int)),
            0 <= digits_value(v@.take(idx as int)) < pow10(idx as nat),
            pow10(20) == 100_000_000_000_000_000_000,
        decreases n - idx,
    {
        proof {
            lemma_digits_value_bound(v@.take(idx as int));
            assert(v@.take(idx + 1).drop_last() =~= v@.take(idx as int));
            assert(v@.take(idx + 1).last() == v@[idx as int]);
            lemma_digits_value_bound(v@.take(idx + 1));
            lemma_pow10_increases((idx + 1) as nat, 20);
        }
        x = x * 10 + (v[idx] as u128);
        idx = idx + 1;
    }
    proof {
        assert(v@.take(n as int) =~= v@);
    }
    x
}

/// Whether every digit from `from` on is zero.
fn all_zero_from(v: &Vec<u8>, from: usize) -> (b: bool)
    requires
        from <= v@.len(),
    ensures
        b == (forall|i: int| from <= i < v@.len() ==> v@[i] == 0),
{
    let n = v.len();
    let mut idx = from;
    while idx < n
        invariant
            from <= idx <= n,
            n == v@.len(),
            forall|i: int| from <= i < idx ==> v@[i] == 0,
        decreases n - idx,
    {
        if v[idx] != 0 {
            return false;
        }
        idx = idx + 1;
    }
    true
}

/// Computes `frac_floor` of the fraction digits against the doubled
/// factor `c`, scanning from the least significant digit.
fn frac_floor_of(fracs: &Vec<u8>, c: u64) -> (g: u64)
    requires
        all_digits(fracs@),
        c <= 2 * YEAR_NANOS,
    ensures
        g == frac_floor(fracs@, c as int),
        g <= c,
{
    let n = fracs.len();
    let mut g: u64 = 0;
    let mut idx = n;
    proof {
        assert(fracs@.skip(n as int) =~= Seq::<u8>::empty());
        lemma_frac_floor(fracs@.skip(n as int), c as int);
    }
    while idx > 0
        invariant
            idx <= n,
            n == fracs@.len(),
            all_digits(fracs@),
            c <= 2 * YEAR_NANOS,
            g == frac_floor(fracs@.skip(idx as int), c as int),
            g <= c,
        decreases idx,
    {
        idx = idx - 1;
        let d = fracs[idx];
        let ghost pre = fracs@.skip(idx as int);
        proof {
            assert(pre[0] == fracs@[idx as int]);
            assert(pre.skip(1) =~= fracs@.skip(idx + 1));
            lemma_frac_floor(pre, c as int);
        }
        g = (d as u64 * c + g) / 10;
    }
    proof {
        assert(fracs@.skip(0) =~= fracs@);
    }
    g
}

/// Analyzes a recognized literal: decides the numeric-range check and,
/// when the magnitude neither fails it nor rounds to zero, splits its
/// digits positionally around the decimal point.
#[verifier::rlimit(100)]
pub fn analyze_number(l: &LexNum, Ghost(tok): Ghost<NumTok>) -> (p: NumParts)
    requires
        lex_matches(*l, tok),
        tok_wf(tok),
    ensures
        parts_match(p, tok),
{
    let ghost dv = l.mant@;
    let ghost m = tok.mant_value();
    let ghost etrue = digits_value(digit_vals(tok.exp));
    proof {
        lemma_digit_vals(tok.mant);
        lemma_digit_vals(tok.exp);
        lemma_digits_value_bound(digit_vals(tok.exp));
        lemma_digits_value_bound(dv);
        assert(all_digits(dv));
        assert(m == digits_value(dv));
    }
    let n = l.mant.len();
    let mut z: usize = 0;
    while z < n && l.mant[z] == 0
        invariant
            z <= n,
            n == l.mant@.len(),
            forall|i: int| 0 <= i < z ==> l.mant@[i] == 0,
        decreases n - z,
    {
        z = z + 1;
    }
    if z == n {
        proof {
            lemma_digits_value_zero(dv);
            lemma_span_zero(tok);
        }
        return NumParts { ok: true, small: true, ints: Vec::new(), fracs: Vec::new(), ival: 0 };
    }
    // the mantissa is nonzero: its significant digits start at `z`
    let ghost sig = dv.skip(z as int);
    let lsig = n - z;
    proof {
        lemma_strip_zeros(dv, z as int);
        assert(forall|i: int| 0 <= i < sig.len() ==> sig[i] == dv[z + i]);
        assert(sig[0] == dv[z as int] && sig[0] >= 1);
        lemma_digits_value_lower(sig);
        lemma_digits_value_bound(sig);
        lemma_pow10_pos((lsig - 1) as nat);
        assert(m >= pow10((lsig - 1) as nat));
        assert(m >= 1);
    }
    if l.neg {
        return NumParts { ok: false, small: false, ints: Vec::new(), fracs: Vec::new(), ival: 0 };
    }
    let sexp: i128 = if l.exp_neg {
        -(l.exp_clamped as i128)
    } else {
        l.exp_clamped as i128
    };
    let pe: i128 = sexp - (l.frac_len as i128);
    let ghost ptrue = tok.scale();
    proof {
        assert(l.exp_clamped <= EXP_CLAMP);
        if l.exp_clamped < EXP_CLAMP {
            assert(etrue == l.exp_clamped);
            assert(pe == ptrue);
        } else {
            assert(etrue >= EXP_CLAMP);
            if l.exp_neg {
                assert(ptrue <= pe);
            } else {
                assert(ptrue >= pe);
            }
        }
    }
    let intlen: i128 = (lsig as i128) + pe;
    if intlen >= 21 {
        proof {
            assert(l.exp_clamped == EXP_CLAMP && l.exp_neg ==> false);
            assert(lsig as int + ptrue >= 21);
            lemma_too_big(m, lsig as int, ptrue);
        }
        return NumParts { ok: false, small: false, ints: Vec::new(), fracs: Vec::new(), ival: 0 };
    }
    if intlen <= -17 {
        proof {
            assert(l.exp_clamped == EXP_CLAMP && !l.exp_neg ==> false);
            assert(lsig as int + ptrue <= -17);
            lemma_tiny(tok, lsig as int);
        }
        return NumParts { ok: true, small: true, ints: Vec::new(), fracs: Vec::new(), ival: 0 };
    }
    proof {
        // inside the band the clamp cannot have been reached
        assert(pe == ptrue);
    }
    let mut ints: Vec<u8> = Vec::new();
    let mut fracs: Vec<u8> = Vec::new();
    if pe >= 0 {
        let pz = pe as usize;
        push_range(&mut ints, &l.mant, z, n);
        push_zeros(&mut ints, pz);
        proof {
            assert(ints@ =~= sig + zero_seq(pz as nat));
            assert(all_digits(ints@));
            assert(forall|i: int|
                ints@.len() - pz <= i < ints@.len() ==> ints@[i] == 0);
            lemma_zero_tail(ints@, pz as int);
            assert(ints@.take(ints@.len() - pz) =~= sig);
            assert(digits_value(ints@) == m * pow10(pz as nat));
            assert(fracs@ =~= Seq::<u8>::empty());
        }
    } else {
        if -pe < lsig as i128 {
            let k = (-pe) as usize;
            push_range(&mut ints, &l.mant, z, n - k);
            push_range(&mut fracs, &l.mant, n - k, n);
            proof {
                assert(sig =~= ints@ + fracs@);
                lemma_digits_value_concat(ints@, fracs@);
                assert(all_digits(ints@) && all_digits(fracs@));
                assert(fracs@.len() == k == -ptrue);
            }
        } else {
            let pad = ((-pe) - (lsig as i128)) as usize;
            push_zeros(&mut fracs, pad);
            push_range(&mut fracs, &l.mant, z, n);
            proof {
                assert(fracs@ =~= zero_seq(pad as nat) + sig);
                assert(all_digits(zero_seq(pad as nat)));
                lemma_digits_value_concat(zero_seq(pad as nat), sig);
                lemma_digits_value_zero(zero_seq(pad as nat));
                assert(0 * pow10(sig.len()) == 0) by {
                    vstd::arithmetic::mul::lemma_mul_basics(pow10(sig.len()));
                }
                assert(digits_value(fracs@) == m);
                assert(all_digits(fracs@));
                assert(ints@ =~= Seq::<u8>::empty());
                assert(digits_value(ints@) == 0);
                assert(0 * pow10(fracs@.len()) == 0) by {
                    vstd::arithmetic::mul::lemma_mul_basics(pow10(fracs@.len()));
                }
                assert(fracs@.len() == -ptrue);
            }
        }
    }
    let ival = digits_to_value(&ints);
    let fzero = all_zero_from(&fracs, 0);
    let ok = ival < u64::MAX as u128 || (ival == u64::MAX as u128 && fzero);
    proof {
        lemma_digits_value_bound(fracs@);
        lemma_digits_value_zero(fracs@);
        if ptrue >= 0 {
            assert(fzero);
            assert(ok == (m * pow10(ptrue as nat) <= u64::MAX));
        } else {
            lemma_band_range(m, digits_value(ints@), digits_value(fracs@), fracs@.len());
            assert(fzero <==> digits_value(fracs@) == 0);
            assert(ok == (m <= u64::MAX * pow10((-ptrue) as nat)));
        }
        assert(ok == tok.in_range());
    }
    NumParts { ok, small: false, ints, fracs, ival }
}

/// Converts an in-range literal to the duration of its magnitude in the
/// given unit, rounding the sub-nanosecond part half-up and saturating at
/// the largest representable duration.
pub fn convert_parts(p: &NumParts, u: Unit, Ghost(tok): Ghost<NumTok>) -> (d: Duration)
    requires
        parts_match(*p, tok),
        p.ok,
    ensures
        d == duration_from_ns(tok.spec_span_ns(u)),
        d.wf(),
{
    proof {
        lemma_pow10_values();
    }
    if p.small {
        proof {
            assert(tok.spec_span_ns(u) == 0);
            assert(duration_from_ns(0) == (Duration { secs: 0u64, nanos: 0u32 }));
        }
        return Duration::new(0, 0);
    }
    let f = u.nanos_per();
    let c2 = 2 * f;
    let g = frac_floor_of(&p.fracs, c2);
    let iv = p.ival;
    proof {
        assert(2 * (iv as int) * (f as int) <= 2 * (u64::MAX as int) * (YEAR_NANOS as int))
            by (nonlinear_arith)
            requires
                0 <= iv <= u64::MAX,
                0 < f <= YEAR_NANOS,
        ;
    }
    let span: u128 = (2 * iv * (f as u128) + (g as u128) + 1) / 2;
    proof {
        lemma_span_formula(tok, u, iv as int, p.fracs@);
        assert(2 * (iv as int) * (f as int) == (2 * iv * (f as u128)) as int) by (nonlinear_arith);
        assert(span == tok.spec_span_ns(u));
    }
    if span > CAP_NANOS {
        proof {
            assert(duration_from_ns(span as int) == (Duration {
                secs: u64::MAX,
                nanos: 999_999_999u32,
            }));
        }
        Duration::new(u64::MAX, 999_999_999)
    } else {
        let secs = (span / 1_000_000_000) as u64;
        let nanos = (span % 1_000_000_000) as u32;
        proof {
            vstd::arithmetic::div_mod::lemma_mod_division_less_than_divisor(
                span as int,
                1_000_000_000,
            );
            vstd::arithmetic::div_mod::lemma_div_pos_is_pos(span as int, 1_000_000_000);
            assert(span as int / 1_000_000_000 <= CAP_NANOS as int / 1_000_000_000) by {
                vstd::arithmetic::div_mod::lemma_div_is_ordered(
                    span as int,
                    CAP_NANOS as int,
                    1_000_000_000,
                );
            }
        }
        Duration::new(secs, nanos)
    }
}

} // verus!

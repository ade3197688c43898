use crate::arith::{digits_value, pow10};
use crate::scan::{digit_of, digits_prefix_len, is_digit_char, lemma_digits_prefix, spec_digit_val};
use vstd::prelude::*;
use vstd::string::StrSliceExecFns;

verus! {

/// Clamping bound for exponent accumulation. Any exponent at or above it
/// behaves identically: the literal is out of range when the mantissa is
/// nonzero and the exponent positive, and denotes a value rounding to zero
/// when the exponent is negative.
pub const EXP_CLAMP: u128 = 1_000_000_000_000_000_000_000_000_000_000;

/// An exponent value with the clamping applied.
pub open spec fn clamp_exp(e: int) -> int {
    if e > EXP_CLAMP {
        EXP_CLAMP as int
    } else {
        e
    }
}

/// The digit values of a character sequence, with zero standing in for any
/// character that is not a digit.
#[verifier::opaque]
pub open spec fn digit_vals(s: Seq<char>) -> Seq<u8> {
    s.map_values(
        |c: char|
            (if is_digit_char(c) {
                spec_digit_val(c)
            } else {
                0
            }) as u8,
    )
}

/// Basic facts about `digit_vals`.
pub proof fn lemma_digit_vals(s: Seq<char>)
    ensures
        digit_vals(s).len() == s.len(),
        crate::arith::all_digits(digit_vals(s)),
        forall|i: int| 0 <= i < s.len() ==> digit_vals(s)[i] == (if is_digit_char(s[i]) {
            spec_digit_val(s[i])
        } else {
            0
        }),
{
    reveal(digit_vals);
}

/// `digit_vals` distributes over concatenation.
pub proof fn lemma_digit_vals_concat(a: Seq<char>, b: Seq<char>)
    ensures
        digit_vals(a + b) == digit_vals(a) + digit_vals(b),
{
    reveal(digit_vals);
    assert(digit_vals(a + b) =~= digit_vals(a) + digit_vals(b));
}

/// `digit_vals` distributes over appending one character.
pub proof fn lemma_digit_vals_snoc(s: Seq<char>, c: char)
    ensures
        digit_vals(s.push(c)) == digit_vals(s).push(
            (if is_digit_char(c) {
                spec_digit_val(c)
            } else {
                0
            }) as u8,
        ),
{
    reveal(digit_vals);
    assert(digit_vals(s.push(c)) =~= digit_vals(s).push(
        (if is_digit_char(c) {
            spec_digit_val(c)
        } else {
            0
        }) as u8,
    ));
}

/// The digit values of the empty text.
pub proof fn lemma_digit_vals_empty()
    ensures
        digit_vals(Seq::<char>::empty()) == Seq::<u8>::empty(),
        digits_value(Seq::<u8>::empty()) == 0,
{
    reveal(digit_vals);
    assert(digit_vals(Seq::<char>::empty()) =~= Seq::<u8>::empty());
}

/// A recognized non-negative decimal literal: an optional sign, mantissa
/// digits with an optional decimal point, and an optional exponent. The
/// denoted magnitude is `mant` read as an integer, scaled by ten to the
/// power `exp_value() - frac_len`.
pub ghost struct NumTok {
    /// Whether a leading minus sign was present.
    pub neg: bool,
    /// All mantissa digits, integer part then fraction, in order.
    pub mant: Seq<char>,
    /// How many trailing elements of `mant` sit after the decimal point.
    pub frac_len: nat,
    /// Whether the exponent carried a minus sign.
    pub exp_neg: bool,
    /// The exponent digits; empty when no exponent was recognized.
    pub exp: Seq<char>,
    /// Characters consumed from the input.
    pub len: nat,
}

impl NumTok {
    /// The mantissa digits read as an integer.
    pub open spec fn mant_value(self) -> int {
        digits_value(digit_vals(self.mant))
    }

    /// The signed exponent value.
    pub open spec fn exp_value(self) -> int {
        if self.exp_neg {
            -digits_value(digit_vals(self.exp))
        } else {
            digits_value(digit_vals(self.exp))
        }
    }

    /// The power of ten scaling the mantissa integer: the literal denotes
    /// `mant_value() * 10^scale()`.
    pub open spec fn scale(self) -> int {
        self.exp_value() - self.frac_len
    }

    /// Whether the denoted magnitude passes the numeric-range check: zero
    /// always does; otherwise the literal must be unsigned and denote at
    /// most `u64::MAX`.
    pub open spec fn in_range(self) -> bool {
        self.mant_value() == 0 || (!self.neg && if self.scale() >= 0 {
            self.mant_value() * pow10(self.scale() as nat) <= u64::MAX
        } else {
            self.mant_value() <= u64::MAX * pow10((-self.scale()) as nat)
        })
    }

    /// The denoted magnitude converted to whole nanoseconds of the given
    /// unit, rounding the sub-nanosecond part half-up: with magnitude `v`
    /// and factor `f`, this is the floor of `v * f + 1/2`.
    pub open spec fn spec_span_ns(self, u: crate::units::Unit) -> int {
        let m = self.mant_value();
        let p = self.scale();
        let f = u.spec_nanos();
        if p >= 0 {
            m * pow10(p as nat) * f
        } else {
            ((2 * m * f) / pow10((-p) as nat) + 1) / 2
        }
    }
}

/// The digit sequences of a recognized literal really hold digits, and the
/// fraction is part of the mantissa.
pub open spec fn tok_wf(tok: NumTok) -> bool {
    &&& tok.mant.len() >= 1
    &&& tok.frac_len <= tok.mant.len()
    &&& forall|i: int| 0 <= i < tok.mant.len() ==> is_digit_char(tok.mant[i])
    &&& forall|i: int| 0 <= i < tok.exp.len() ==> is_digit_char(tok.exp[i])
}

/// How many characters an exponent part occupies at the start of the text:
/// `e` or `E`, an optional sign, then at least one digit; zero when no
/// such part is present (the exponent marker is then left unconsumed).
#[verifier::opaque]
pub open spec fn lex_exp_len(s: Seq<char>) -> nat {
    if s.len() > 0 && (s[0] == 'e' || s[0] == 'E') {
        let has_sign = s.len() > 1 && (s[1] == '+' || s[1] == '-');
        let ep: nat = if has_sign {
            2
        } else {
            1
        };
        let el = digits_prefix_len(s.skip(ep as int));
        if el > 0 {
            ep + el
        } else {
            0
        }
    } else {
        0
    }
}

/// Attaches an optional exponent to a recognized mantissa. `used` is the
/// number of characters the sign and mantissa consumed.
#[verifier::opaque]
pub open spec fn lex_tail(s: Seq<char>, neg: bool, mant: Seq<char>, fl: nat, used: nat) -> NumTok {
    let es = s.skip(used as int);
    let el = lex_exp_len(es);
    if el > 0 {
        let has_sign = es.len() > 1 && (es[1] == '+' || es[1] == '-');
        let ep: int = if has_sign {
            2
        } else {
            1
        };
        NumTok {
            neg,
            mant,
            frac_len: fl,
            exp_neg: es.len() > 1 && es[1] == '-',
            exp: es.subrange(ep, el as int),
            len: used + el,
        }
    } else {
        NumTok { neg, mant, frac_len: fl, exp_neg: false, exp: Seq::empty(), len: used }
    }
}

/// Recognizes a decimal literal at the start of the text: an optional
/// sign, then either digits with an optional fraction or a point followed
/// by digits, then an optional exponent. The longest such prefix is taken.
#[verifier::opaque]
pub open spec fn lex_number(s: Seq<char>) -> Option<NumTok> {
    let has_sign = s.len() > 0 && (s[0] == '+' || s[0] == '-');
    let neg = s.len() > 0 && s[0] == '-';
    let p0: nat = if has_sign {
        1
    } else {
        0
    };
    let r0 = s.skip(p0 as int);
    let il = digits_prefix_len(r0);
    if il > 0 {
        let has_dot = r0.len() > il && r0[il as int] == '.';
        if has_dot {
            let fl = digits_prefix_len(r0.skip(il as int + 1));
            let mant = r0.subrange(0, il as int) + r0.subrange(
                il as int + 1,
                il as int + 1 + fl as int,
            );
            Some(lex_tail(s, neg, mant, fl, (p0 + il + 1 + fl) as nat))
        } else {
            Some(lex_tail(s, neg, r0.subrange(0, il as int), 0, (p0 + il) as nat))
        }
    } else {
        if r0.len() > 0 && r0[0] == '.' {
            let fl = digits_prefix_len(r0.skip(1));
            if fl > 0 {
                Some(lex_tail(s, neg, r0.subrange(1, 1 + fl as int), fl, (p0 + 1 + fl) as nat))
            } else {
                None
            }
        } else {
            None
        }
    }
}

/// The exponent part stays within the text and holds digits, whatever
/// mantissa it is attached to.
proof fn lemma_lex_tail_props(s: Seq<char>, neg: bool, mant: Seq<char>, fl: nat, used: nat)
    requires
        used <= s.len(),
    ensures
        ({
            let tok = lex_tail(s, neg, mant, fl, used);
            &&& used <= tok.len <= s.len()
            &&& tok.neg == neg
            &&& tok.mant == mant
            &&& tok.frac_len == fl
            &&& forall|i: int| 0 <= i < tok.exp.len() ==> is_digit_char(tok.exp[i])
        }),
{
    reveal(lex_tail);
    reveal(lex_exp_len);
    let es = s.skip(used as int);
    let el = lex_exp_len(es);
    if el > 0 {
        let has_sign = es.len() > 1 && (es[1] == '+' || es[1] == '-');
        let ep: int = if has_sign {
            2
        } else {
            1
        };
        lemma_digits_prefix(es.skip(ep));
        assert(forall|i: int| 0 <= i < es.skip(ep).len() ==> #[trigger] es.skip(ep)[i] == es[ep + i]);
        assert(el <= es.len());
        let tok = lex_tail(s, neg, mant, fl, used);
        assert(forall|i: int| 0 <= i < tok.exp.len() ==> tok.exp[i] == es[ep + i]);
    }
}

/// Structural facts about a recognized literal: it consumes at least one
/// character and no more than the text, its digit sequences really hold
/// digits, and the fraction is part of the mantissa.
pub proof fn lemma_lex_number_props(s: Seq<char>)
    ensures
        lex_number(s) matches Some(tok) ==> 1 <= tok.len <= s.len() && tok_wf(tok),
{
    reveal(lex_number);
    if lex_number(s) is Some {
        let has_sign = s.len() > 0 && (s[0] == '+' || s[0] == '-');
        let neg = s.len() > 0 && s[0] == '-';
        let p0: int = if has_sign {
            1
        } else {
            0
        };
        let r0 = s.skip(p0);
        let il = digits_prefix_len(r0) as int;
        lemma_digits_prefix(r0);
        if il > 0 {
            let has_dot = r0.len() > il && r0[il] == '.';
            if has_dot {
                let fl = digits_prefix_len(r0.skip(il + 1));
                lemma_digits_prefix(r0.skip(il + 1));
                assert(forall|i: int|
                    0 <= i < r0.skip(il + 1).len() ==> #[trigger] r0.skip(il + 1)[i] == r0[il + 1 + i]);
                let mant = r0.subrange(0, il) + r0.subrange(il + 1, il + 1 + fl);
                assert(forall|i: int| 0 <= i < mant.len() ==> is_digit_char(mant[i])) by {
                    assert(forall|i: int| 0 <= i < il ==> mant[i] == r0[i]);
                    assert(forall|i: int|
                        il <= i < mant.len() ==> mant[i] == r0.skip(il + 1)[i - il]);
                }
                lemma_lex_tail_props(s, neg, mant, fl, (p0 + il + 1 + fl) as nat);
            } else {
                let mant = r0.subrange(0, il);
                assert(forall|i: int| 0 <= i < mant.len() ==> is_digit_char(mant[i]));
                lemma_lex_tail_props(s, neg, mant, 0, (p0 + il) as nat);
            }
        } else {
            let fl = digits_prefix_len(r0.skip(1));
            lemma_digits_prefix(r0.skip(1));
            assert(forall|i: int| 0 <= i < r0.skip(1).len() ==> #[trigger] r0.skip(1)[i] == r0[1 + i]);
            let mant = r0.subrange(1, 1 + fl as int);
            assert(forall|i: int| 0 <= i < mant.len() ==> is_digit_char(mant[i])) by {
                assert(forall|i: int| 0 <= i < fl ==> mant[i] == r0.skip(1)[i]);
            }
            lemma_lex_tail_props(s, neg, mant, fl, (p0 + 1 + fl) as nat);
        }
    }
}

/// The executable form of a recognized literal: the mantissa as digit
/// values, and the exponent accumulated with `EXP_CLAMP` applied.
pub struct LexNum {
    /// Whether a leading minus sign was present.
    pub neg: bool,
    /// All mantissa digit values, integer part then fraction, in order.
    pub mant: Vec<u8>,
    /// How many trailing elements of `mant` sit after the decimal point.
    pub frac_len: usize,
    /// Whether the exponent carried a minus sign.
    pub exp_neg: bool,
    /// The exponent value, clamped at `EXP_CLAMP`.
    pub exp_clamped: u128,
    /// Characters consumed from the input.
    pub len: usize,
}

/// The executable literal faithfully represents the recognized one.
pub open spec fn lex_matches(l: LexNum, tok: NumTok) -> bool {
    &&& l.neg == tok.neg
    &&& l.mant@ == digit_vals(tok.mant)
    &&& l.frac_len == tok.frac_len
    &&& l.exp_neg == tok.exp_neg
    &&& l.exp_clamped == clamp_exp(digits_value(digit_vals(tok.exp)))
    &&& l.len == tok.len
}

/// What `lex_number_at` promises: exactly the literal the grammar
/// recognizes at that position, or nothing where the grammar fails.
pub open spec fn lex_ensures(s: Seq<char>, r: Option<LexNum>) -> bool {
    match lex_number(s) {
        Some(tok) => r matches Some(l) && lex_matches(l, tok),
        None => r is None,
    }
}

/// Whether the character at `i` is a decimal digit.
fn is_digit_at(t: &str, tlen: usize, i: usize) -> (b: bool)
    requires
        tlen == t@.len(),
        i < tlen,
    ensures
        b == is_digit_char(t@[i as int]),
{
    digit_of(t.get_char(i)).is_some()
}

/// Consumes the digits at `pos`, appending their values to `out`.
fn take_digits(t: &str, tlen: usize, pos: usize, out: &mut Vec<u8>) -> (n: usize)
    requires
        tlen == t@.len(),
        pos <= tlen,
    ensures
        n == digits_prefix_len(t@.skip(pos as int)),
        pos + n <= tlen,
        final(out)@ == old(out)@ + digit_vals(t@.subrange(pos as int, pos + n)),
{
    let mut i = pos;
    proof {
        assert(t@.subrange(pos as int, pos as int) =~= Seq::<char>::empty());
        lemma_digit_vals_empty();
        assert(out@ =~= old(out)@ + digit_vals(t@.subrange(pos as int, pos as int)));
    }
    while i < tlen && is_digit_at(t, tlen, i)
        invariant
            pos <= i <= tlen,
            tlen == t@.len(),
            digits_prefix_len(t@.skip(pos as int)) == i - pos + digits_prefix_len(
                t@.skip(i as int),
            ),
            out@ == old(out)@ + digit_vals(t@.subrange(pos as int, i as int)),
        decreases tlen - i,
    {
        let c = t.get_char(i);
        let v = match digit_of(c) {
            Some(v) => v,
            None => 0,
        };
        out.push(v);
        proof {
            assert(t@.skip(i as int).skip(1) =~= t@.skip(i as int + 1));
            assert(t@.subrange(pos as int, i + 1) =~= t@.subrange(pos as int, i as int).push(
                t@[i as int],
            ));
            lemma_digit_vals_snoc(t@.subrange(pos as int, i as int), t@[i as int]);
            assert(out@ =~= old(out)@ + digit_vals(t@.subrange(pos as int, i + 1)));
        }
        i = i + 1;
    }
    assert(digits_prefix_len(t@.skip(i as int)) == 0);
    i - pos
}

/// Consumes the digits at `pos`, reading them as an exponent value with
/// `EXP_CLAMP` applied.
fn take_exp_digits(t: &str, tlen: usize, pos: usize) -> (r: (usize, u128))
    requires
        tlen == t@.len(),
        pos <= tlen,
    ensures
        r.0 == digits_prefix_len(t@.skip(pos as int)),
        pos + r.0 <= tlen,
        r.1 == clamp_exp(digits_value(digit_vals(t@.subrange(pos as int, pos + r.0)))),
{
    let mut i = pos;
    let mut e: u128 = 0;
    proof {
        assert(t@.subrange(pos as int, pos as int) =~= Seq::<char>::empty());
        lemma_digit_vals_empty();
    }
    while i < tlen && is_digit_at(t, tlen, i)
        invariant
            pos <= i <= tlen,
            tlen == t@.len(),
            digits_prefix_len(t@.skip(pos as int)) == i - pos + digits_prefix_len(
                t@.skip(i as int),
            ),
            e == clamp_exp(digits_value(digit_vals(t@.subrange(pos as int, i as int)))),
            0 <= digits_value(digit_vals(t@.subrange(pos as int, i as int))),
        decreases tlen - i,
    {
        let c = t.get_char(i);
        let v = match digit_of(c) {
            Some(v) => v,
            None => 0,
        };
        let ghost seen = digit_vals(t@.subrange(pos as int, i as int));
        let t2 = e * 10 + (v as u128);
        let e2 = if t2 > EXP_CLAMP {
            EXP_CLAMP
        } else {
            t2
        };
        proof {
            assert(t@.skip(i as int).skip(1) =~= t@.skip(i as int + 1));
            assert(t@.subrange(pos as int, i + 1) =~= t@.subrange(pos as int, i as int).push(
                t@[i as int],
            ));
            lemma_digit_vals_snoc(t@.subrange(pos as int, i as int), t@[i as int]);
            assert(digit_vals(t@.subrange(pos as int, i + 1)) =~= seen.push(v));
            assert(seen.push(v).drop_last() =~= seen);
            assert(digits_value(seen.push(v)) == digits_value(seen) * 10 + v);
            assert(e2 == clamp_exp(digits_value(seen.push(v))));
        }
        e = e2;
        i = i + 1;
    }
    assert(digits_prefix_len(t@.skip(i as int)) == 0);
    (i - pos, e)
}

/// The mantissa characters at their positions in the input: the integer
/// digits, then, after the decimal point when one is present, the fraction
/// digits.
pub open spec fn mant_chars(t: Seq<char>, i: int, il: int, dot: bool, fl: int) -> Seq<char> {
    t.subrange(i, i + il) + t.subrange(
        i + il + (if dot {
            1int
        } else {
            0
        }),
        i + il + (if dot {
            1int
        } else {
            0
        }) + fl,
    )
}

/// A recognized mantissa pins the literal down: the grammar recognizes
/// exactly the token built from the scanned positions. `pos` is the start,
/// `i` the position after the optional sign, `il` the integer digits,
/// `dot` whether a decimal point follows them, `fl` the fraction digits,
/// and `j` the position after the whole mantissa.
#[verifier::rlimit(50)]
proof fn lemma_lex_mant(
    t: Seq<char>,
    pos: int,
    i: int,
    il: int,
    dot: bool,
    fl: int,
    j: int,
    neg: bool,
)
    requires
        0 <= pos <= i <= t.len(),
        i - pos <= 1,
        (i == pos + 1) <==> (pos < t.len() && (t[pos] == '+' || t[pos] == '-')),
        neg == (pos < t.len() && t[pos] == '-'),
        il == digits_prefix_len(t.skip(i)),
        i + il <= t.len(),
        dot ==> i + il < t.len() && t[i + il] == '.' && fl == digits_prefix_len(
            t.skip(i + il + 1),
        ) && j == i + il + 1 + fl,
        !dot ==> fl == 0 && j == i + il && !(i + il < t.len() && t[i + il] == '.'),
        il > 0 || (dot && fl > 0),
        il == 0 ==> dot,
        j <= t.len(),
    ensures
        lex_number(t.skip(pos)) == Some(
            lex_tail(
                t.skip(pos),
                neg,
                mant_chars(t, i, il, dot, fl),
                fl as nat,
                (j - pos) as nat,
            ),
        ),
{
    reveal(lex_number);
    let s = t.skip(pos);
    let p0: int = i - pos;
    let r0 = s.skip(p0);
    assert(r0 =~= t.skip(i));
    assert(forall|k: int| 0 <= k < r0.len() ==> r0[k] == t[i + k]);
    if il > 0 {
        if dot {
            assert(r0.len() > il && r0[il] == '.');
            assert(r0.skip(il + 1) =~= t.skip(i + il + 1));
            assert(r0.subrange(0, il) + r0.subrange(il + 1, il + 1 + fl) =~= mant_chars(
                t,
                i,
                il,
                dot,
                fl,
            ));
        } else {
            assert(!(r0.len() > il && r0[il] == '.'));
            assert(r0.subrange(0, il) =~= mant_chars(t, i, il, dot, fl));
        }
    } else {
        assert(r0.len() > 0 && r0[0] == '.');
        assert(r0.skip(1) =~= t.skip(i + 1));
        assert(fl == digits_prefix_len(r0.skip(1)));
        assert(r0.subrange(1, 1 + fl) =~= mant_chars(t, i, il, dot, fl));
    }
}

/// What the optional exponent adds to a recognized mantissa: the token
/// fields it fixes, whatever the mantissa was. When `eok` holds, an
/// exponent part was recognized, with its first digit at `ek` and `el`
/// digits; otherwise none is recognizable at `j`.
#[verifier::rlimit(50)]
proof fn lemma_lex_exp(
    t: Seq<char>,
    pos: int,
    j: int,
    eok: bool,
    ek: int,
    el: int,
    neg: bool,
    mant: Seq<char>,
    fl: nat,
)
    requires
        0 <= pos <= j <= t.len(),
        eok ==> j < t.len() && (t[j] == 'e' || t[j] == 'E') && (ek == j + 1 || ek == j + 2) && ((
        ek == j + 2) <==> (j + 1 < t.len() && (t[j + 1] == '+' || t[j + 1] == '-'))) && el
            == digits_prefix_len(t.skip(ek)) && el > 0 && ek + el <= t.len(),
        !eok ==> lex_exp_len(t.skip(j)) == 0,
    ensures
        ({
            let tok = lex_tail(t.skip(pos), neg, mant, fl, (j - pos) as nat);
            &&& tok.neg == neg
            &&& tok.mant == mant
            &&& tok.frac_len == fl
            &&& eok ==> tok.exp_neg == (j + 1 < t.len() && t[j + 1] == '-') && tok.exp
                == t.subrange(ek, ek + el) && tok.len == ek + el - pos
            &&& !eok ==> tok.exp_neg == false && tok.exp == Seq::<char>::empty() && tok.len == j
                - pos
        }),
{
    reveal(lex_tail);
    reveal(lex_exp_len);
    let s = t.skip(pos);
    let used: int = j - pos;
    let es = s.skip(used);
    assert(es =~= t.skip(j));
    assert(forall|k: int| 0 <= k < es.len() ==> es[k] == t[j + k]);
    if eok {
        let ep: int = ek - j;
        assert(es.skip(ep) =~= t.skip(ek));
        assert(lex_exp_len(es) == ep + el);
        assert(es.subrange(ep, ep + el) =~= t.subrange(ek, ek + el));
    }
}

/// The result of scanning a mantissa: the sign, the collected digit
/// values, whether a decimal point was consumed, the fraction length, and
/// the position after the mantissa.
struct MantScan {
    /// Whether a sign character was consumed.
    sign: bool,
    /// Whether a leading minus sign was present.
    neg: bool,
    /// All mantissa digit values, integer part then fraction, in order.
    mant: Vec<u8>,
    /// The number of integer digits.
    il: usize,
    /// Whether a decimal point was consumed.
    dot: bool,
    /// The number of fraction digits.
    fl: usize,
    /// The position after the mantissa.
    end: usize,
}

/// What a successful mantissa scan starting at `pos` established.
spec fn mant_scan_ok(t: Seq<char>, tlen: int, pos: int, m: MantScan) -> bool {
    let i = pos + (if m.sign {
        1int
    } else {
        0
    });
    &&& pos <= i <= tlen
    &&& (m.sign <==> (pos < tlen && (t[pos] == '+' || t[pos] == '-')))
    &&& m.neg == (pos < tlen && t[pos] == '-')
    &&& m.il == digits_prefix_len(t.skip(i))
    &&& i + m.il <= tlen
    &&& (m.dot ==> i + m.il < tlen && t[i + m.il] == '.' && m.fl == digits_prefix_len(
        t.skip(i + m.il + 1),
    ) && m.end == i + m.il + 1 + m.fl)
    &&& (!m.dot ==> m.fl == 0 && m.end == i + m.il && !(i + m.il < tlen && t[i + m.il] == '.'))
    &&& (m.il > 0 || (m.dot && m.fl > 0))
    &&& (m.il == 0 ==> m.dot)
    &&& m.end <= tlen
    &&& m.mant@ == digit_vals(t.subrange(i, i + m.il)) + digit_vals(
        t.subrange(
            i + m.il + (if m.dot {
                1int
            } else {
                0
            }),
            i + m.il + (if m.dot {
                1int
            } else {
                0
            }) + m.fl,
        ),
    )
}

/// Scans the sign and mantissa of a literal at `pos`; fails exactly where
/// the literal grammar fails, since an exponent part is always optional.
fn lex_mantissa_at(t: &str, tlen: usize, pos: usize) -> (r: Option<MantScan>)
    requires
        tlen == t@.len(),
        pos <= tlen,
    ensures
        r matches Some(m) ==> mant_scan_ok(t@, tlen as int, pos as int, m),
        r is None ==> lex_number(t@.skip(pos as int)) is None,
{
    let mut i = pos;
    let mut sign = false;
    let mut neg = false;
    if i < tlen {
        let c = t.get_char(i);
        if c == '+' || c == '-' {
            sign = true;
            neg = c == '-';
            i = i + 1;
        }
    }
    let ghost r0 = t@.skip(pos as int).skip(i - pos);
    proof {
        assert(r0 =~= t@.skip(i as int));
    }
    let mut mant: Vec<u8> = Vec::new();
    let il = take_digits(t, tlen, i, &mut mant);
    let mut dot = false;
    let mut fl: usize = 0;
    let mut j = i + il;
    if il == 0 {
        if j < tlen && t.get_char(j) == '.' {
            dot = true;
            fl = take_digits(t, tlen, j + 1, &mut mant);
            if fl == 0 {
                proof {
                    reveal(lex_number);
                    assert(r0.len() > 0 && r0[0] == '.');
                    assert(r0.skip(1) =~= t@.skip(j + 1));
                    assert(digits_prefix_len(r0.skip(1)) == 0);
                    assert(lex_number(t@.skip(pos as int)) is None);
                }
                return None;
            }
            j = j + 1 + fl;
        } else {
            proof {
                reveal(lex_number);
                if r0.len() > 0 && r0[0] == '.' {
                    assert(j < tlen && t@[j as int] == '.');
                    assert(false);
                }
                assert(lex_number(t@.skip(pos as int)) is None);
            }
            return None;
        }
    } else {
        if j < tlen && t.get_char(j) == '.' {
            dot = true;
            fl = take_digits(t, tlen, j + 1, &mut mant);
            j = j + 1 + fl;
        }
    }
    proof {
        if !dot {
            assert(t@.subrange(i + il, i + il as int) =~= Seq::<char>::empty());
            lemma_digit_vals_empty();
            assert(mant@ =~= digit_vals(t@.subrange(i as int, i + il)) + digit_vals(
                t@.subrange(i + il, i + il as int),
            ));
        }
    }
    Some(MantScan { sign, neg, mant, il, dot, fl, end: j })
}

/// The result of scanning for an optional exponent part at a position.
struct ExpScan {
    /// Whether an exponent part was recognized.
    ok: bool,
    /// Whether the exponent carried a minus sign.
    neg: bool,
    /// The exponent value, clamped at `EXP_CLAMP`.
    clamped: u128,
    /// The position of the first exponent digit.
    digits_at: usize,
    /// The number of exponent digits.
    digits_len: usize,
}

/// What an exponent scan at `j` established.
spec fn exp_scan_ok(t: Seq<char>, tlen: int, j: int, e: ExpScan) -> bool {
    &&& (e.ok ==> j < tlen && (t[j] == 'e' || t[j] == 'E') && (e.digits_at == j + 1
        || e.digits_at == j + 2) && ((e.digits_at == j + 2) <==> (j + 1 < tlen && (t[j + 1] == '+'
        || t[j + 1] == '-'))) && e.neg == (j + 1 < tlen && t[j + 1] == '-') && e.digits_len
        == digits_prefix_len(t.skip(e.digits_at as int)) && e.digits_len > 0 && e.digits_at
        + e.digits_len <= tlen && e.clamped == clamp_exp(
        digits_value(digit_vals(t.subrange(e.digits_at as int, e.digits_at + e.digits_len))),
    ))
    &&& (!e.ok ==> lex_exp_len(t.skip(j)) == 0 && e.neg == false && e.clamped == 0)
}

/// Scans for an optional exponent part at `j`: `e` or `E`, an optional
/// sign, then at least one digit; consumes nothing when they do not all
/// follow.
fn lex_exponent_at(t: &str, tlen: usize, j: usize) -> (e: ExpScan)
    requires
        tlen == t@.len(),
        j <= tlen,
    ensures
        exp_scan_ok(t@, tlen as int, j as int, e),
{
    if j < tlen {
        let c = t.get_char(j);
        if c == 'e' || c == 'E' {
            let mut k = j + 1;
            let mut eneg = false;
            if k < tlen {
                let c2 = t.get_char(k);
                if c2 == '+' || c2 == '-' {
                    eneg = c2 == '-';
                    k = k + 1;
                }
            }
            let (eln, ev) = take_exp_digits(t, tlen, k);
            if eln > 0 {
                return ExpScan { ok: true, neg: eneg, clamped: ev, digits_at: k, digits_len: eln };
            }
            proof {
                reveal(lex_exp_len);
                assert(t@.skip(j as int).skip(k - j) =~= t@.skip(k as int));
                assert(forall|m: int|
                    0 <= m < t@.skip(j as int).len() ==> t@.skip(j as int)[m] == t@[j + m]);
                assert(lex_exp_len(t@.skip(j as int)) == 0);
            }
        } else {
            proof {
                reveal(lex_exp_len);
                assert(t@.skip(j as int)[0] == t@[j as int]);
                assert(lex_exp_len(t@.skip(j as int)) == 0);
            }
        }
    } else {
        proof {
            reveal(lex_exp_len);
            assert(t@.skip(j as int).len() == 0);
            assert(lex_exp_len(t@.skip(j as int)) == 0);
        }
    }
    ExpScan { ok: false, neg: false, clamped: 0, digits_at: j, digits_len: 0 }
}

/// Recognizes a decimal literal at position `pos`, following the grammar
/// of `lex_number` exactly.
pub fn lex_number_at(t: &str, tlen: usize, pos: usize) -> (r: Option<LexNum>)
    requires
        tlen == t@.len(),
        pos <= tlen,
    ensures
        lex_ensures(t@.skip(pos as int), r),
{
    let m = match lex_mantissa_at(t, tlen, pos) {
        Some(m) => m,
        None => {
            return None;
        },
    };
    let e = lex_exponent_at(t, tlen, m.end);
    let len_total = if e.ok {
        e.digits_at + e.digits_len - pos
    } else {
        m.end - pos
    };
    proof {
        let i: int = pos + (if m.sign {
            1int
        } else {
            0
        });
        lemma_lex_mant(t@, pos as int, i, m.il as int, m.dot, m.fl as int, m.end as int, m.neg);
        let smant = mant_chars(t@, i, m.il as int, m.dot, m.fl as int);
        lemma_lex_exp(
            t@,
            pos as int,
            m.end as int,
            e.ok,
            e.digits_at as int,
            e.digits_len as int,
            m.neg,
            smant,
            m.fl as nat,
        );
        lemma_digit_vals_concat(
            t@.subrange(i, i + m.il),
            t@.subrange(
                i + m.il + (if m.dot {
                    1int
                } else {
                    0
                }),
                i + m.il + (if m.dot {
                    1int
                } else {
                    0
                }) + m.fl,
            ),
        );
        if !e.ok {
            lemma_digit_vals_empty();
        }
    }
    Some(
        LexNum {
            neg: m.neg,
            mant: m.mant,
            frac_len: m.fl,
            exp_neg: e.neg,
            exp_clamped: e.clamped,
            len: len_total,
        },
    )
}

} // verus!

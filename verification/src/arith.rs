use vstd::arithmetic::div_mod::{
    lemma_div_denominator, lemma_div_is_ordered, lemma_div_pos_is_pos,
    lemma_hoist_over_denominator, lemma_mod_division_less_than_divisor,
};
use vstd::arithmetic::mul::{
    lemma_mul_inequality, lemma_mul_is_distributive_add_other_way, lemma_mul_strict_inequality,
    lemma_mul_strictly_positive,
};
use vstd::prelude::*;

verus! {

/// Ten raised to the given power.
pub open spec fn pow10(n: nat) -> int
    decreases n,
{
    if n == 0 {
        1
    } else {
        10 * pow10((n - 1) as nat)
    }
}

/// Powers of ten are positive.
pub proof fn lemma_pow10_pos(n: nat)
    ensures
        pow10(n) >= 1,
    decreases n,
{
    if n > 0 {
        lemma_pow10_pos((n - 1) as nat);
    }
}

/// Powers of ten multiply when exponents add.
pub proof fn lemma_pow10_add(a: nat, b: nat)
    ensures
        pow10(a + b) == pow10(a) * pow10(b),
    decreases a,
{
    if a == 0 {
        assert(pow10(0) == 1);
    } else {
        lemma_pow10_add((a - 1) as nat, b);
        assert(pow10(a + b) == 10 * pow10((a + b - 1) as nat));
        assert(10 * (pow10((a - 1) as nat) * pow10(b)) == (10 * pow10((a - 1) as nat)) * pow10(
            b,
        )) by {
            vstd::arithmetic::mul::lemma_mul_is_associative(10, pow10((a - 1) as nat), pow10(b));
        }
    }
}

/// Powers of ten grow with the exponent.
pub proof fn lemma_pow10_increases(a: nat, b: nat)
    requires
        a <= b,
    ensures
        pow10(a) <= pow10(b),
    decreases b,
{
    if a < b {
        lemma_pow10_increases(a, (b - 1) as nat);
        lemma_pow10_pos((b - 1) as nat);
    }
}

/// Concrete values of the small powers of ten that the proofs need.
pub proof fn lemma_pow10_values()
    ensures
        pow10(0) == 1,
        pow10(1) == 10,
        pow10(9) == 1_000_000_000,
        pow10(17) == 100_000_000_000_000_000,
        pow10(19) == 10_000_000_000_000_000_000,
        pow10(20) == 100_000_000_000_000_000_000,
{
    reveal_with_fuel(pow10, 21);
    assert(pow10(5) == 100_000);
    assert(pow10(10) == 10_000_000_000);
    assert(pow10(15) == 1_000_000_000_000_000);
    assert(pow10(17) == 100_000_000_000_000_000);
    assert(pow10(19) == 10_000_000_000_000_000_000);
    assert(pow10(20) == 100_000_000_000_000_000_000);
}

/// The number a sequence of decimal digit values denotes, most significant
/// digit first.
pub open spec fn digits_value(s: Seq<u8>) -> int
    decreases s.len(),
{
    if s.len() == 0 {
        0
    } else {
        digits_value(s.drop_last()) * 10 + s.last()
    }
}

/// Every element is an actual digit value.
pub open spec fn all_digits(s: Seq<u8>) -> bool {
    forall|i: int| 0 <= i < s.len() ==> s[i] < 10
}

/// A digit sequence denotes a value below ten to its length.
pub proof fn lemma_digits_value_bound(s: Seq<u8>)
    requires
        all_digits(s),
    ensures
        0 <= digits_value(s) < pow10(s.len()),
    decreases s.len(),
{
    if s.len() == 0 {
    } else {
        lemma_digits_value_bound(s.drop_last());
        lemma_pow10_pos((s.len() - 1) as nat);
        assert(pow10(s.len()) == 10 * pow10((s.len() - 1) as nat));
    }
}

/// Concatenating digit sequences scales the head by ten to the tail length.
pub proof fn lemma_digits_value_concat(a: Seq<u8>, b: Seq<u8>)
    ensures
        digits_value(a + b) == digits_value(a) * pow10(b.len()) + digits_value(b),
    decreases b.len(),
{
    if b.len() == 0 {
        assert(a + b =~= a);
    } else {
        lemma_digits_value_concat(a, b.drop_last());
        assert((a + b).drop_last() =~= a + b.drop_last());
        assert((a + b).last() == b.last());
        assert(digits_value(a + b) == (digits_value(a) * pow10((b.len() - 1) as nat)
            + digits_value(b.drop_last())) * 10 + b.last());
        assert(pow10(b.len()) == 10 * pow10((b.len() - 1) as nat));
        assert(digits_value(a) * pow10((b.len() - 1) as nat) * 10 == digits_value(a) * pow10(
            b.len(),
        )) by {
            vstd::arithmetic::mul::lemma_mul_is_associative(
                digits_value(a),
                pow10((b.len() - 1) as nat),
                10,
            );
        }
    }
}

/// A digit sequence denotes zero exactly when all its digits are zero.
pub proof fn lemma_digits_value_zero(s: Seq<u8>)
    requires
        all_digits(s),
    ensures
        (digits_value(s) == 0) <==> (forall|i: int| 0 <= i < s.len() ==> s[i] == 0),
    decreases s.len(),
{
    if s.len() > 0 {
        lemma_digits_value_zero(s.drop_last());
        lemma_digits_value_bound(s.drop_last());
        if digits_value(s) == 0 {
            assert(digits_value(s.drop_last()) == 0 && s.last() == 0);
            assert(forall|i: int| 0 <= i < s.len() - 1 ==> s.drop_last()[i] == s[i]);
        } else {
            if forall|i: int| 0 <= i < s.len() ==> s[i] == 0 {
                assert(forall|i: int|
                    0 <= i < s.len() - 1 ==> s.drop_last()[i] == s[i] && s[i] == 0);
                assert(s.last() == 0);
                assert(false);
            }
        }
    }
}

/// A digit sequence with a nonzero leading digit denotes at least ten to
/// one less than its length.
pub proof fn lemma_digits_value_lower(s: Seq<u8>)
    requires
        all_digits(s),
        s.len() > 0,
        s[0] >= 1,
    ensures
        digits_value(s) >= pow10((s.len() - 1) as nat),
{
    let head = seq![s[0]];
    let tail = s.skip(1);
    assert(s =~= head + tail);
    lemma_digits_value_concat(head, tail);
    lemma_digits_value_bound(tail);
    assert(head.drop_last() =~= Seq::<u8>::empty());
    assert(digits_value(Seq::<u8>::empty()) == 0);
    assert(head.last() == s[0]);
    assert(digits_value(head) == s[0]);
    assert(digits_value(head) * pow10(tail.len()) >= 1 * pow10(tail.len())) by {
        lemma_pow10_pos(tail.len());
        lemma_mul_inequality(1, s[0] as int, pow10(tail.len()));
    }
}

/// The floor of `0.d1 d2 ... dk * c`, described as a right-to-left
/// recurrence over the fraction digits.
pub open spec fn frac_floor(s: Seq<u8>, c: int) -> int
    decreases s.len(),
{
    if s.len() == 0 {
        0
    } else {
        (s[0] * c + frac_floor(s.skip(1), c)) / 10
    }
}

/// The recurrence computes the floor of the scaled fraction exactly:
/// `frac_floor(s, c)` is `digits_value(s) * c` divided by ten to the
/// length of `s`, rounded toward zero.
pub proof fn lemma_frac_floor(s: Seq<u8>, c: int)
    requires
        all_digits(s),
        c >= 0,
    ensures
        frac_floor(s, c) == digits_value(s) * c / pow10(s.len()),
        0 <= frac_floor(s, c) <= c,
    decreases s.len(),
{
    if s.len() == 0 {
    } else {
        let tail = s.skip(1);
        let p1 = pow10(tail.len());
        lemma_frac_floor(tail, c);
        lemma_pow10_pos(tail.len());
        let head = seq![s[0]];
        assert(s =~= head + tail);
        lemma_digits_value_concat(head, tail);
        assert(head.drop_last() =~= Seq::<u8>::empty());
        assert(digits_value(Seq::<u8>::empty()) == 0);
        assert(head.last() == s[0]);
        assert(digits_value(head) == s[0]);
        assert(digits_value(s) == s[0] * p1 + digits_value(tail));
        let m = digits_value(s) * c;
        assert(m == s[0] * p1 * c + digits_value(tail) * c) by {
            lemma_mul_is_distributive_add_other_way(c, s[0] * p1, digits_value(tail));
        }
        assert(pow10(s.len()) == 10 * p1);
        lemma_digits_value_bound(tail);
        vstd::arithmetic::mul::lemma_mul_nonnegative(digits_value(tail), c);
        vstd::arithmetic::mul::lemma_mul_nonnegative(s[0] * p1, c);
        // m / (10 * p1) == (m / p1) / 10
        lemma_div_denominator(m, p1, 10);
        assert(m / p1 == s[0] * c + digits_value(tail) * c / p1) by {
            assert(s[0] * p1 * c == (s[0] * c) * p1) by {
                vstd::arithmetic::mul::lemma_mul_is_associative(s[0] as int, p1, c);
                vstd::arithmetic::mul::lemma_mul_is_associative(s[0] as int, c, p1);
                vstd::arithmetic::mul::lemma_mul_is_commutative(p1, c);
            }
            lemma_hoist_over_denominator(digits_value(tail) * c, s[0] * c, p1 as nat);
        }
        assert(m / (p1 * 10) == m / (10 * p1));
        assert(frac_floor(s, c) == digits_value(s) * c / pow10(s.len()));
        // bounds: digits_value(tail) * c / p1 <= c because digits_value(tail) < p1
        assert(digits_value(tail) * c / p1 <= c) by {
            lemma_mul_inequality(digits_value(tail), p1 - 1, c);
            assert((p1 - 1) * c <= p1 * c - c) by {
                vstd::arithmetic::mul::lemma_mul_is_distributive_sub_other_way(
                    c,
                    p1,
                    1,
                );
            }
            if digits_value(tail) * c / p1 > c {
                assert(digits_value(tail) * c >= (c + 1) * p1) by {
                    vstd::arithmetic::div_mod::lemma_fundamental_div_mod(
                        digits_value(tail) * c,
                        p1,
                    );
                    lemma_mul_inequality(c + 1, digits_value(tail) * c / p1, p1);
                    vstd::arithmetic::mul::lemma_mul_is_commutative(
                        digits_value(tail) * c / p1,
                        p1,
                    );
                    vstd::arithmetic::div_mod::lemma_mod_division_less_than_divisor(
                        digits_value(tail) * c,
                        p1,
                    );
                }
                assert((c + 1) * p1 == c * p1 + p1) by {
                    lemma_mul_is_distributive_add_other_way(p1, c, 1);
                }
                assert(c * p1 == p1 * c) by {
                    vstd::arithmetic::mul::lemma_mul_is_commutative(c, p1);
                }
                assert(false);
            }
            vstd::arithmetic::div_mod::lemma_div_pos_is_pos(digits_value(tail) * c, p1);
        }
        assert((s[0] * c + frac_floor(tail, c)) / 10 <= (9 * c + c) / 10) by {
            lemma_mul_inequality(s[0] as int, 9, c);
            lemma_div_is_ordered(s[0] * c + frac_floor(tail, c), 9 * c + c, 10);
        }
        assert((9 * c + c) / 10 == c);
        vstd::arithmetic::div_mod::lemma_div_pos_is_pos(
            s[0] * c + frac_floor(tail, c),
            10,
        );
    }
}

} // verus!

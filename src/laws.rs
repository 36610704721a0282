//! Properties of correctly rounded parsing that relate several inputs.
use vstd::prelude::*;
use crate::bignum::{lemma_pow_adds, lemma_pow_positive, pow};
use crate::format::{denominator, lemma_denominator_positive, numerator, Format};
use crate::parse::{decimal_digits, decimal_exponent, digits_value};

verus! {

/// `k` ASCII zero digits.
pub open spec fn zeros(k: nat) -> Seq<u8> {
    Seq::new(k, |i: int| 48u8)
}

proof fn lemma_compare_scaled(c: nat, a: nat, b: nat)
    requires
        c > 0,
    ensures
        (c * a < c * b) == (a < b),
        (c * a == c * b) == (a == b),
        (c * a > c * b) == (a > b),
{
    if a < b {
        assert(c * a < c * b) by (nonlinear_arith)
            requires
                c > 0,
                a < b,
        ;
    } else if a > b {
        assert(c * a > c * b) by (nonlinear_arith)
            requires
                c > 0,
                a > b,
        ;
    }
}

/// Zero rounds to the zero pattern, whatever the exponent.
pub proof fn lemma_zero_identity(format: Format, exponent: i32)
    requires
        format.wf(),
    ensures
        format.rounded(
            decimal_digits(Seq::<u8>::empty(), Seq::<u8>::empty()),
            decimal_exponent(Seq::<u8>::empty(), exponent),
        ) == 0,
{
    let e = Seq::<u8>::empty();
    let x = decimal_exponent(e, exponent);
    assert(e + e =~= e);
    assert(decimal_digits(e, e) == 0);
    format.lemma_zero_rounds_to_zero(x);
    format.lemma_rounded(0, x, 0);
}

/// A decimal equal to the value of a finite pattern rounds to that pattern.
pub proof fn lemma_exact_value(format: Format, d: nat, x: int, b: nat)
    requires
        format.wf(),
        b < format.infinity,
        format.twice_decimal(d, x) == 2 * format.units(b) * denominator(x),
    ensures
        format.rounded(d, x) == b,
{
    let dn = denominator(x);
    lemma_denominator_positive(x);
    format.lemma_units_between_midpoints(b);
    lemma_compare_scaled(dn, 2 * format.units(b), format.twice_midpoint(b));
    assert(dn * (2 * format.units(b)) == 2 * format.units(b) * dn) by (nonlinear_arith);
    assert(dn * format.twice_midpoint(b) == format.twice_midpoint_scaled(b, x)) by (nonlinear_arith)
        requires
            format.twice_midpoint_scaled(b, x) == format.twice_midpoint(b) * dn,
    ;
    if b > 0 {
        let c = (b - 1) as nat;
        format.lemma_units_between_midpoints(c);
        assert(c + 1 == b);
        lemma_compare_scaled(dn, format.twice_midpoint(c), 2 * format.units(b));
        assert(dn * format.twice_midpoint(c) == format.twice_midpoint_scaled(c, x))
            by (nonlinear_arith)
            requires
                format.twice_midpoint_scaled(c, x) == format.twice_midpoint(c) * dn,
        ;
    }
    assert(format.rounds_to(d, x, b));
    format.lemma_rounded(d, x, b);
}

/// A decimal exactly halfway between two consecutive patterns rounds to the
/// even one of the two.
pub proof fn lemma_ties_to_even(format: Format, d: nat, x: int, b: nat)
    requires
        format.wf(),
        b < format.infinity,
        format.twice_decimal(d, x) == format.twice_midpoint_scaled(b, x),
    ensures
        format.rounded(d, x) == if b % 2 == 0 {
            b
        } else {
            b + 1
        },
{
    if b % 2 == 0 {
        if b > 0 {
            format.lemma_midpoint_scaled_monotone((b - 1) as nat, b, x);
        }
        assert(format.rounds_to(d, x, b));
        format.lemma_rounded(d, x, b);
    } else {
        let c = b + 1;
        if c < format.infinity {
            format.lemma_midpoint_scaled_monotone(b, c, x);
        }
        assert(format.rounds_to(d, x, c));
        format.lemma_rounded(d, x, c);
    }
}

proof fn lemma_digits_zeros(s: Seq<u8>, k: nat)
    ensures
        digits_value(s + zeros(k)) == digits_value(s) * pow(10, k),
    decreases k,
{
    if k == 0 {
        assert(s + zeros(0) =~= s);
        assert(pow(10, 0) == 1);
    } else {
        let t = s + zeros(k);
        assert(t.drop_last() =~= s + zeros((k - 1) as nat));
        lemma_digits_zeros(s, (k - 1) as nat);
        assert(digits_value(s) * pow(10, (k - 1) as nat) * 10 == digits_value(s) * (10 * pow(
            10,
            (k - 1) as nat,
        ))) by (nonlinear_arith);
    }
}

/// Multiplying the digits by `10^k` and lowering the exponent by `k` scales
/// both sides of every comparison in `rounds_to` by one positive factor.
proof fn lemma_shift_digits(format: Format, d: nat, x: int, k: nat, b: nat)
    requires
        format.wf(),
        format.rounds_to(d, x, b),
    ensures
        format.rounds_to(d * pow(10, k), x - k, b),
{
    let d2 = d * pow(10, k);
    let x2 = x - k;
    let p = pow(2, (format.units_exponent + 1) as nat);
    // the common factor
    let c: nat = if x2 >= 0 {
        1
    } else if x >= 0 {
        pow(10, (k - x) as nat)
    } else {
        pow(10, k)
    };
    if x2 >= 0 {
        lemma_pow_adds(10, k, (x - k) as nat);
        assert(k + (x - k) as nat == x as nat);
        assert(d * pow(10, k) * pow(10, (x - k) as nat) == d * (pow(10, k) * pow(10, (x - k) as nat)))
            by (nonlinear_arith);
        assert(numerator(d2, x2) == numerator(d, x));
        assert(denominator(x2) == denominator(x));
    } else if x >= 0 {
        lemma_pow_positive(10, (k - x) as nat);
        lemma_pow_adds(10, x as nat, (k - x) as nat);
        assert(x as nat + (k - x) as nat == k);
        assert(d * pow(10, k) == c * (d * pow(10, x as nat))) by (nonlinear_arith)
            requires
                pow(10, k) == pow(10, x as nat) * c,
        ;
        assert(numerator(d2, x2) == c * numerator(d, x));
        assert(denominator(x2) == c * denominator(x));
    } else {
        lemma_pow_positive(10, k);
        lemma_pow_adds(10, k, (-x) as nat);
        assert(k + (-x) as nat == (-x2) as nat);
        assert(d * pow(10, k) == pow(10, k) * d) by (nonlinear_arith);
        assert(numerator(d2, x2) == c * numerator(d, x));
        assert(denominator(x2) == c * denominator(x));
    }
    assert(c > 0);
    let n1 = numerator(d, x);
    let dn = denominator(x);
    assert(format.twice_decimal(d2, x2) == c * format.twice_decimal(d, x)) by (nonlinear_arith)
        requires
            format.twice_decimal(d2, x2) == numerator(d2, x2) * p,
            format.twice_decimal(d, x) == n1 * p,
            numerator(d2, x2) == c * n1,
    ;
    assert forall|e: nat| #[trigger]
        format.twice_midpoint_scaled(e, x2) == c * format.twice_midpoint_scaled(e, x) by {
        let m = format.twice_midpoint(e);
        assert(m * (c * dn) == c * (m * dn)) by (nonlinear_arith);
    }
    lemma_compare_scaled(c, format.twice_decimal(d, x), format.twice_midpoint_scaled(b, x));
    if b > 0 {
        lemma_compare_scaled(
            c,
            format.twice_decimal(d, x),
            format.twice_midpoint_scaled((b - 1) as nat, x),
        );
    }
}

/// Appending zero digits to the fraction does not change the result.
pub proof fn lemma_trailing_zeros(
    format: Format,
    integer: Seq<u8>,
    fraction: Seq<u8>,
    exponent: i32,
    k: nat,
)
    requires
        format.wf(),
    ensures
        format.rounded(
            decimal_digits(integer, fraction + zeros(k)),
            decimal_exponent(fraction + zeros(k), exponent),
        ) == format.rounded(decimal_digits(integer, fraction), decimal_exponent(fraction, exponent)),
{
    let d = decimal_digits(integer, fraction);
    let x = decimal_exponent(fraction, exponent);
    assert(integer + (fraction + zeros(k)) =~= (integer + fraction) + zeros(k));
    lemma_digits_zeros(integer + fraction, k);
    assert(decimal_exponent(fraction + zeros(k), exponent) == x - k);
    format.lemma_rounded_rounds_to(d, x);
    let r = format.rounded(d, x);
    lemma_shift_digits(format, d, x, k, r);
    format.lemma_rounded(d * pow(10, k), x - k, r);
}

/// A smaller decimal never rounds to a larger pattern: where
/// `d1 * 10^x1 < d2 * 10^x2`, the first rounds to a pattern at most the second's.
pub proof fn lemma_monotone(format: Format, d1: nat, x1: int, d2: nat, x2: int)
    requires
        format.wf(),
        numerator(d1, x1) * denominator(x2) < numerator(d2, x2) * denominator(x1),
    ensures
        format.rounded(d1, x1) <= format.rounded(d2, x2),
{
    format.lemma_rounded_rounds_to(d1, x1);
    format.lemma_rounded_rounds_to(d2, x2);
    let r1 = format.rounded(d1, x1);
    let r2 = format.rounded(d2, x2);
    if r1 > r2 {
        let p = pow(2, (format.units_exponent + 1) as nat);
        lemma_pow_positive(2, (format.units_exponent + 1) as nat);
        lemma_denominator_positive(x1);
        lemma_denominator_positive(x2);
        let n1 = numerator(d1, x1);
        let n2 = numerator(d2, x2);
        let dn1 = denominator(x1);
        let dn2 = denominator(x2);
        let m = format.twice_midpoint(r2);
        let m1 = format.twice_midpoint((r1 - 1) as nat);
        if r2 < (r1 - 1) as nat {
            format.lemma_midpoint_monotone(r2, (r1 - 1) as nat);
        }
        assert(m <= m1);
        // the second decimal lies at or below the midpoint after r2
        assert(n2 * p <= m * dn2);
        // the first lies at or above the midpoint before r1
        assert(n1 * p >= m1 * dn1);
        assert(n1 * p * dn2 >= n2 * p * dn1) by (nonlinear_arith)
            requires
                n2 * p <= m * dn2,
                n1 * p >= m1 * dn1,
                m <= m1,
                dn1 > 0,
                dn2 > 0,
        ;
        assert(n1 * dn2 >= n2 * dn1) by (nonlinear_arith)
            requires
                n1 * p * dn2 >= n2 * p * dn1,
                p > 0,
        ;
    }
}

} // verus!

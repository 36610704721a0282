//! Binary interchange formats, the values of their bit patterns, and what it
//! means for a bit pattern to be the correctly rounded image of a decimal.
use vstd::prelude::*;
use crate::bignum::{lemma_pow_positive, pow};
use vstd::arithmetic::div_mod::{lemma_fundamental_div_mod, lemma_fundamental_div_mod_converse};

verus! {

/// A binary floating-point format, described by the widths of its fields.
///
/// Bit patterns of non-negative values are handled as integers: the pattern
/// `b` has exponent field `b / hidden` and fraction field `b % hidden`.
/// Patterns `0 ..= infinity` are ordered like the values they encode, and
/// `infinity` itself stands for the first power of two past the largest
/// finite value.
#[derive(Clone, Copy, Debug)]
pub struct Format {
    /// Width of the stored fraction field.
    pub mantissa_bits: u32,
    /// Width of the biased exponent field.
    pub exponent_bits: u32,
    /// `2^mantissa_bits`: the implicit leading bit of normal values.
    pub hidden: u64,
    /// The bit pattern of positive infinity.
    pub infinity: u64,
    /// The smallest subnormal is `2^-units_exponent`.
    pub units_exponent: u32,
}

impl Format {
    pub open spec fn wf(self) -> bool {
        &&& 1 <= self.mantissa_bits <= 52
        &&& 2 <= self.exponent_bits <= 11
        &&& self.hidden == pow(2, self.mantissa_bits as nat)
        &&& self.hidden <= 0x10_0000_0000_0000
        &&& self.infinity == (pow(2, self.exponent_bits as nat) - 1) * self.hidden
        &&& self.infinity <= 0x7ff0_0000_0000_0000
        &&& self.units_exponent == pow(2, (self.exponent_bits - 1) as nat) - 1
            + self.mantissa_bits - 1
        &&& self.units_exponent <= 1074
        &&& self.units_exponent + 2 < pow(2, self.exponent_bits as nat)
    }

    /// The significand of pattern `b`, an integer.
    pub open spec fn significand(self, b: nat) -> nat {
        if b / (self.hidden as nat) == 0 {
            b % (self.hidden as nat)
        } else {
            (b % (self.hidden as nat) + self.hidden) as nat
        }
    }

    /// The power of two that scales the significand of `b`, over the smallest subnormal.
    pub open spec fn scale(self, b: nat) -> nat {
        if b / (self.hidden as nat) == 0 {
            0
        } else {
            (b / (self.hidden as nat) - 1) as nat
        }
    }

    /// The value of pattern `b`, in units of the smallest subnormal.
    pub open spec fn units(self, b: nat) -> nat {
        self.significand(b) * pow(2, self.scale(b))
    }

    /// Twice the midpoint between pattern `b` and its successor, in units of
    /// the smallest subnormal.
    pub open spec fn twice_midpoint(self, b: nat) -> nat {
        (2 * self.significand(b) + 1) * pow(2, self.scale(b))
    }

    /// Twice the decimal `d * 10^x`, in units of the smallest subnormal,
    /// multiplied by `denominator(x)`.
    pub open spec fn twice_decimal(self, d: nat, x: int) -> nat {
        numerator(d, x) * pow(2, (self.units_exponent + 1) as nat)
    }

    /// Twice the midpoint after `b`, on the scale of `twice_decimal`.
    pub open spec fn twice_midpoint_scaled(self, b: nat, x: int) -> nat {
        self.twice_midpoint(b) * denominator(x)
    }

    /// `d * 10^x` does not lie above the rounding interval of `b`: it is below
    /// the midpoint after `b`, or on it with `b` even, or `b` is infinity.
    pub open spec fn not_above(self, d: nat, x: int, b: nat) -> bool {
        ||| b == self.infinity
        ||| self.twice_decimal(d, x) < self.twice_midpoint_scaled(b, x)
        ||| (self.twice_decimal(d, x) == self.twice_midpoint_scaled(b, x) && b % 2 == 0)
    }

    /// `d * 10^x` does not lie below the rounding interval of `b`: it is above
    /// the midpoint before `b`, or on it with `b` even, or `b` is zero.
    pub open spec fn not_below(self, d: nat, x: int, b: nat) -> bool {
        ||| b == 0
        ||| self.twice_decimal(d, x) > self.twice_midpoint_scaled((b - 1) as nat, x)
        ||| (self.twice_decimal(d, x) == self.twice_midpoint_scaled((b - 1) as nat, x) && b % 2
            == 0)
    }

    /// `b` is the round-to-nearest, ties-to-even image of `d * 10^x`, where
    /// values at or past the midpoint between the largest finite value and
    /// the next power of two become infinity.
    pub open spec fn rounds_to(self, d: nat, x: int, b: nat) -> bool {
        &&& b <= self.infinity
        &&& self.not_below(d, x, b)
        &&& self.not_above(d, x, b)
    }

    /// The value of a pattern lies strictly between the midpoint before it
    /// and the midpoint after it.
    pub proof fn lemma_units_between_midpoints(self, c: nat)
        requires
            self.wf(),
        ensures
            2 * self.units(c) < self.twice_midpoint(c),
            self.twice_midpoint(c) < 2 * self.units(c + 1),
    {
        let h = self.hidden as int;
        lemma_pow_positive(2, self.mantissa_bits as nat);
        lemma_pow_positive(2, self.scale(c));
        let p0 = pow(2, self.scale(c));
        let s0 = self.significand(c);
        assert(2 * (s0 * p0) < (2 * s0 + 1) * p0) by (nonlinear_arith)
            requires
                p0 > 0,
        ;
        lemma_fundamental_div_mod(c as int, h);
        let q = c as int / h;
        let f = c as int % h;
        if f + 1 < h {
            assert(c + 1 == q * h + (f + 1)) by (nonlinear_arith)
                requires
                    c == h * q + f,
            ;
            lemma_fundamental_div_mod_converse(c + 1 as int, h, q, f + 1);
            assert(self.significand(c + 1) == s0 + 1);
            assert(self.scale(c + 1) == self.scale(c));
            assert((2 * s0 + 1) * p0 < 2 * ((s0 + 1) * p0)) by (nonlinear_arith)
                requires
                    p0 > 0,
            ;
            assert(self.twice_midpoint(c) < 2 * self.units(c + 1));
        } else {
            assert(c + 1 == (q + 1) * h + 0) by (nonlinear_arith)
                requires
                    c == h * q + f,
                    f + 1 == h,
            ;
            lemma_fundamental_div_mod_converse(c + 1 as int, h, q + 1, 0);
            assert(self.significand(c + 1) == h);
            if q >= 1 {
                assert(pow(2, q as nat) == 2 * p0);
                assert((2 * (f + h) + 1) * p0 < 2 * (h * (2 * p0))) by (nonlinear_arith)
                    requires
                        f == h - 1,
                        p0 > 0,
                ;
                assert(self.twice_midpoint(c) == (2 * (f + h) + 1) * p0);
                assert(self.units(c + 1) == h * (2 * p0));
                assert(self.twice_midpoint(c) < 2 * self.units(c + 1));
            } else {
                assert(pow(2, 0) == 1);
                assert(self.twice_midpoint(c) == (2 * f + 1) * 1);
                assert(self.units(c + 1) == h * 1);
                assert(self.twice_midpoint(c) < 2 * self.units(c + 1));
            }
        }
    }

    /// Pattern zero has value zero, and the midpoint after it is half a unit.
    pub proof fn lemma_zero_pattern(self)
        requires
            self.wf(),
        ensures
            self.significand(0) == 0,
            self.scale(0) == 0,
            self.units(0) == 0,
            self.twice_midpoint(0) == 1,
    {
        let h = self.hidden as nat;
        lemma_pow_positive(2, self.mantissa_bits as nat);
        assert(0nat / h == 0 && 0nat % h == 0) by (nonlinear_arith)
            requires
                h > 0,
        ;
        assert(pow(2, 0) == 1);
    }

    /// Zero rounds to pattern zero, whatever the exponent.
    pub proof fn lemma_zero_rounds_to_zero(self, x: int)
        requires
            self.wf(),
        ensures
            self.rounds_to(0, x, 0),
    {
        self.lemma_zero_pattern();
        lemma_denominator_positive(x);
        let dn = denominator(x);
        assert(numerator(0, x) == 0);
        assert(self.twice_decimal(0, x) == 0);
        assert(self.twice_midpoint_scaled(0, x) == 1 * dn);
    }

    /// The pattern that `d * 10^x` rounds to.
    pub open spec fn rounded(self, d: nat, x: int) -> nat {
        choose|b: nat| self.rounds_to(d, x, b)
    }

    /// The midpoints between consecutive patterns increase strictly.
    pub proof fn lemma_midpoint_step(self, b: nat)
        requires
            self.wf(),
        ensures
            self.twice_midpoint(b) < self.twice_midpoint(b + 1),
    {
        let h = self.hidden as int;
        lemma_pow_positive(2, self.mantissa_bits as nat);
        lemma_fundamental_div_mod(b as int, h);
        let q = b as int / h;
        let f = b as int % h;
        if f + 1 < h {
            assert(b + 1 == q * h + (f + 1)) by (nonlinear_arith)
                requires
                    b == h * q + f,
            ;
            lemma_fundamental_div_mod_converse(b + 1 as int, h, q, f + 1);
            let p = pow(2, self.scale(b));
            lemma_pow_positive(2, self.scale(b));
            let sg = self.significand(b);
            assert(self.significand(b + 1) == sg + 1);
            assert(self.scale(b + 1) == self.scale(b));
            assert((2 * sg + 1) * p < (2 * (sg + 1) + 1) * p) by (nonlinear_arith)
                requires
                    p > 0,
            ;
            assert(self.twice_midpoint(b + 1) == (2 * (sg + 1) + 1) * p);
            assert(self.twice_midpoint(b) < self.twice_midpoint(b + 1));
        } else {
            assert(b + 1 == (q + 1) * h + 0) by (nonlinear_arith)
                requires
                    b == h * q + f,
                    f + 1 == h,
            ;
            lemma_fundamental_div_mod_converse(b + 1 as int, h, q + 1, 0);
            if q >= 1 {
                let p = pow(2, (q - 1) as nat);
                lemma_pow_positive(2, (q - 1) as nat);
                assert(pow(2, q as nat) == 2 * p);
                assert((2 * (f + h) + 1) * p < (2 * h + 1) * (2 * p)) by (nonlinear_arith)
                    requires
                        f == h - 1,
                        p > 0,
                ;
                assert(self.significand(b) == f + h);
                assert(self.scale(b) == q - 1);
                assert(self.significand(b + 1) == h);
                assert(self.scale(b + 1) == q);
                assert(self.twice_midpoint(b) == (2 * (f + h) + 1) * p);
                assert(self.twice_midpoint(b + 1) == (2 * h + 1) * (2 * p));
                assert(self.twice_midpoint(b) < self.twice_midpoint(b + 1));
            } else {
                assert(pow(2, 0) == 1);
                assert(self.significand(b) == f);
                assert(self.scale(b) == 0);
                assert(self.significand(b + 1) == h);
                assert(self.scale(b + 1) == 0);
                assert(self.twice_midpoint(b) == (2 * f + 1) * 1);
                assert(self.twice_midpoint(b + 1) == (2 * h + 1) * 1);
                assert((2 * f + 1) * 1 < (2 * h + 1) * 1) by (nonlinear_arith)
                    requires
                        f < h,
                ;
                assert(self.twice_midpoint(b) < self.twice_midpoint(b + 1));
            }
        }
    }

    pub proof fn lemma_midpoint_monotone(self, b: nat, c: nat)
        requires
            self.wf(),
            b < c,
        ensures
            self.twice_midpoint(b) < self.twice_midpoint(c),
        decreases c - b,
    {
        self.lemma_midpoint_step(b);
        if b + 1 < c {
            self.lemma_midpoint_monotone(b + 1, c);
        }
    }

    pub proof fn lemma_midpoint_scaled_monotone(self, b: nat, c: nat, x: int)
        requires
            self.wf(),
            b < c,
        ensures
            self.twice_midpoint_scaled(b, x) < self.twice_midpoint_scaled(c, x),
    {
        self.lemma_midpoint_monotone(b, c);
        lemma_denominator_positive(x);
        let dn = denominator(x);
        assert(self.twice_midpoint(b) * dn < self.twice_midpoint(c) * dn) by (nonlinear_arith)
            requires
                self.twice_midpoint(b) < self.twice_midpoint(c),
                dn > 0,
        ;
    }

    /// At most one pattern is the rounding of a decimal.
    pub proof fn lemma_rounds_to_unique(self, d: nat, x: int, b: nat, c: nat)
        requires
            self.wf(),
            self.rounds_to(d, x, b),
            self.rounds_to(d, x, c),
        ensures
            b == c,
    {
        if b < c {
            self.lemma_rounds_to_ordered(d, x, b, c);
        } else if c < b {
            self.lemma_rounds_to_ordered(d, x, c, b);
        }
    }

    proof fn lemma_rounds_to_ordered(self, d: nat, x: int, b: nat, c: nat)
        requires
            self.wf(),
            b <= c,
            self.rounds_to(d, x, b),
            self.rounds_to(d, x, c),
        ensures
            b == c,
    {
        if b < c && b < (c - 1) as nat {
            self.lemma_midpoint_scaled_monotone(b, (c - 1) as nat, x);
        }
    }

    /// Some pattern at or below `b` is the rounding of `d * 10^x`.
    proof fn lemma_rounds_to_exists_below(self, d: nat, x: int, b: nat)
        requires
            self.wf(),
            b <= self.infinity,
            self.not_above(d, x, b),
        ensures
            exists|c: nat| self.rounds_to(d, x, c),
        decreases b,
    {
        if b == 0 || !self.not_above(d, x, (b - 1) as nat) {
            assert(self.rounds_to(d, x, b));
        } else {
            self.lemma_rounds_to_exists_below(d, x, (b - 1) as nat);
        }
    }

    /// `rounded` is the one pattern that `rounds_to` holds of.
    pub proof fn lemma_rounded(self, d: nat, x: int, b: nat)
        requires
            self.wf(),
            self.rounds_to(d, x, b),
        ensures
            self.rounded(d, x) == b,
    {
        let c = self.rounded(d, x);
        self.lemma_rounds_to_unique(d, x, b, c);
    }

    /// `rounded` always picks a pattern that `d * 10^x` rounds to.
    pub proof fn lemma_rounded_rounds_to(self, d: nat, x: int)
        requires
            self.wf(),
        ensures
            self.rounds_to(d, x, self.rounded(d, x)),
    {
        self.lemma_rounds_to_exists_below(d, x, self.infinity as nat);
    }

    /// IEEE 754 binary32.
    pub fn binary32() -> (r: Format)
        ensures
            r.wf(),
            r.mantissa_bits == 23,
            r.exponent_bits == 8,
    {
        proof {
            reveal_with_fuel(pow, 24);
            assert(pow(2, 8) == 256);
        }
        Format {
            mantissa_bits: 23,
            exponent_bits: 8,
            hidden: 0x80_0000,
            infinity: 0x7f80_0000,
            units_exponent: 149,
        }
    }

    /// IEEE 754 binary64.
    pub fn binary64() -> (r: Format)
        ensures
            r.wf(),
            r.mantissa_bits == 52,
            r.exponent_bits == 11,
    {
        proof {
            reveal_with_fuel(pow, 53);
            assert(pow(2, 11) == 2048);
        }
        Format {
            mantissa_bits: 52,
            exponent_bits: 11,
            hidden: 0x10_0000_0000_0000,
            infinity: 0x7ff0_0000_0000_0000,
            units_exponent: 1074,
        }
    }
}

/// The numerator of `d * 10^x` over `denominator(x)`.
pub open spec fn numerator(d: nat, x: int) -> nat {
    if x >= 0 {
        d * pow(10, x as nat)
    } else {
        d
    }
}

pub proof fn lemma_denominator_positive(x: int)
    ensures
        denominator(x) > 0,
{
    if x < 0 {
        lemma_pow_positive(10, (-x) as nat);
    }
}

/// The power of ten that divides a decimal with exponent `x`.
pub open spec fn denominator(x: int) -> nat {
    if x >= 0 {
        1
    } else {
        pow(10, (-x) as nat)
    }
}

} // verus!

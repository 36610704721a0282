//! Parse decimal digit strings to the bit pattern of the nearest float.
use vstd::prelude::*;
use crate::bignum::{from_u64, mul_small_add, pow, value};
use crate::rounding::{fast_path, round_decimal};
use crate::format::Format;

verus! {

/// An ASCII decimal digit.
pub open spec fn is_digit(c: u8) -> bool {
    48 <= c <= 57
}

pub open spec fn all_digits(s: Seq<u8>) -> bool {
    forall|i: int| 0 <= i < s.len() ==> is_digit(#[trigger] s[i])
}

/// The natural number written by the ASCII decimal digits `s`.
pub open spec fn digits_value(s: Seq<u8>) -> nat
    decreases s.len(),
{
    if s.len() == 0 {
        0
    } else {
        digits_value(s.drop_last()) * 10 + (s.last() - 48) as nat
    }
}

/// The numeric value of one ASCII decimal digit.
pub fn to_digit(c: u8) -> (r: u32)
    requires
        is_digit(c),
    ensures
        r == c - 48,
{
    (c - 48) as u32
}

/// `value * 10 + digit`, or `None` where that exceeds `u64::MAX`.
pub fn add_digit(value: u64, digit: u32) -> (r: Option<u64>)
    ensures
        value * 10 + digit <= u64::MAX ==> r == Some((value * 10 + digit) as u64),
        value * 10 + digit > u64::MAX ==> r is None,
{
    let v: u128 = (value as u128) * 10 + (digit as u128);
    if v <= u64::MAX as u128 {
        Some(v as u64)
    } else {
        None
    }
}

proof fn lemma_digits_step(s: Seq<u8>, i: int)
    requires
        0 <= i < s.len(),
    ensures
        digits_value(s.take(i + 1)) == digits_value(s.take(i)) * 10 + (s[i] - 48) as nat,
{
    assert(s.take(i + 1).drop_last() =~= s.take(i));
}

proof fn lemma_digits_prefix(s: Seq<u8>, k: int)
    requires
        0 <= k <= s.len(),
    ensures
        digits_value(s.take(k)) <= digits_value(s),
    decreases s.len(),
{
    if k < s.len() {
        let t = s.drop_last();
        assert(t.take(k) =~= s.take(k));
        lemma_digits_prefix(t, k);
    } else {
        assert(s.take(k) =~= s);
    }
}

/// Accumulates the digits of `integer` then `fraction` into a `u64`, and
/// counts the digits left over from the first one that would overflow it.
///
/// The result `(mantissa, truncated)` has `mantissa` equal to the number
/// written by all digits but the last `truncated`; where `truncated` is not
/// zero, taking one more digit would exceed `u64::MAX`.
pub fn parse_mantissa(integer: &[u8], fraction: &[u8]) -> (r: (u64, usize))
    requires
        all_digits(integer@),
        all_digits(fraction@),
        integer@.len() + fraction@.len() <= usize::MAX,
    ensures
        r.1 <= integer@.len() + fraction@.len(),
        r.0 == digits_value((integer@ + fraction@).take(integer@.len() + fraction@.len() - r.1)),
        r.1 > 0 ==> digits_value(
            (integer@ + fraction@).take(integer@.len() + fraction@.len() - r.1 + 1),
        ) > u64::MAX,
{
    let ghost all = integer@ + fraction@;
    let mut value: u64 = 0;
    let mut i: usize = 0;
    proof {
        assert(all.take(0) =~= Seq::<u8>::empty());
    }
    while i < integer.len()
        invariant
            i <= integer@.len(),
            all == integer@ + fraction@,
            all_digits(integer@),
            integer@.len() + fraction@.len() <= usize::MAX,
            value == digits_value(all.take(i as int)),
        decreases integer@.len() - i,
    {
        let c = integer[i];
        assert(is_digit(integer@[i as int]));
        proof {
            assert(all[i as int] == c);
            lemma_digits_step(all, i as int);
        }
        match add_digit(value, to_digit(c)) {
            Some(v) => value = v,
            None => return (value, (integer.len() - i) + fraction.len()),
        }
        i = i + 1;
    }
    let mut j: usize = 0;
    while j < fraction.len()
        invariant
            j <= fraction@.len(),
            i == integer@.len(),
            all == integer@ + fraction@,
            all_digits(fraction@),
            integer@.len() + fraction@.len() <= usize::MAX,
            value == digits_value(all.take(i + j)),
        decreases fraction@.len() - j,
    {
        let c = fraction[j];
        assert(is_digit(fraction@[j as int]));
        proof {
            assert(all[i + j] == c);
            lemma_digits_step(all, i + j);
        }
        match add_digit(value, to_digit(c)) {
            Some(v) => value = v,
            None => return (value, fraction.len() - j),
        }
        j = j + 1;
    }
    proof {
        assert(all.take(i + j) =~= all);
    }
    (value, 0)
}

proof fn lemma_digits_bound(s: Seq<u8>)
    requires
        all_digits(s),
    ensures
        digits_value(s) < pow(10, s.len()),
    decreases s.len(),
{
    if s.len() > 0 {
        let t = s.drop_last();
        assert(all_digits(t)) by {
            assert forall|i: int| 0 <= i < t.len() implies is_digit(#[trigger] t[i]) by {
                assert(t[i] == s[i]);
            }
        }
        assert(is_digit(s[s.len() - 1]));
        lemma_digits_bound(t);
        assert(digits_value(t) * 10 + 9 < 10 * pow(10, t.len())) by (nonlinear_arith)
            requires
                digits_value(t) < pow(10, t.len()),
        ;
    }
}

/// The power of ten that scales the digits of `integer` and `fraction`,
/// read as one integer, back to the decimal they write.
pub fn scaled_exponent(exponent: i32, fraction_len: usize) -> (r: i128)
    ensures
        r == exponent - fraction_len,
{
    exponent as i128 - fraction_len as i128
}

/// All digits of `integer` then `fraction`, read as one integer.
fn digits_to_limbs(integer: &[u8], fraction: &[u8]) -> (r: Vec<u32>)
    requires
        all_digits(integer@),
        all_digits(fraction@),
    ensures
        value(r@) == digits_value(integer@ + fraction@),
{
    let ghost all = integer@ + fraction@;
    let mut r: Vec<u32> = Vec::new();
    let mut i: usize = 0;
    proof {
        assert(all.take(0) =~= Seq::<u8>::empty());
    }
    while i < integer.len()
        invariant
            i <= integer@.len(),
            all == integer@ + fraction@,
            all_digits(integer@),
            value(r@) == digits_value(all.take(i as int)),
        decreases integer@.len() - i,
    {
        assert(is_digit(integer@[i as int]));
        proof {
            assert(all[i as int] == integer@[i as int]);
            lemma_digits_step(all, i as int);
        }
        r = mul_small_add(&r, 10, to_digit(integer[i]));
        i = i + 1;
    }
    let mut j: usize = 0;
    while j < fraction.len()
        invariant
            j <= fraction@.len(),
            i == integer@.len(),
            all == integer@ + fraction@,
            all_digits(fraction@),
            value(r@) == digits_value(all.take(i + j)),
        decreases fraction@.len() - j,
    {
        assert(is_digit(fraction@[j as int]));
        proof {
            assert(all[i + j] == fraction@[j as int]);
            lemma_digits_step(all, i + j);
        }
        r = mul_small_add(&r, 10, to_digit(fraction[j]));
        j = j + 1;
    }
    proof {
        assert(all.take(i + j) =~= all);
    }
    r
}

/// The digits of `integer` then `fraction`, read as one integer: the
/// decimal `integer.fraction * 10^exponent` is this times
/// `10^decimal_exponent(fraction, exponent)`.
pub open spec fn decimal_digits(integer: Seq<u8>, fraction: Seq<u8>) -> nat {
    digits_value(integer + fraction)
}

/// The power of ten that goes with `decimal_digits`.
pub open spec fn decimal_exponent(fraction: Seq<u8>, exponent: i32) -> int {
    exponent - fraction.len()
}

/// The bit pattern of the float in `format` nearest to the decimal
/// `integer.fraction * 10^exponent`, ties going to the even pattern and
/// values past the largest finite one going to infinity.
pub fn parse_float(integer: &[u8], fraction: &[u8], exponent: i32, format: Format) -> (r: u64)
    requires
        all_digits(integer@),
        all_digits(fraction@),
        integer@.len() + fraction@.len() <= usize::MAX,
        format.wf(),
    ensures
        r == format.rounded(decimal_digits(integer@, fraction@), decimal_exponent(fraction@, exponent)),
        format.rounds_to(
            decimal_digits(integer@, fraction@),
            decimal_exponent(fraction@, exponent),
            r as nat,
        ),
        decimal_digits(integer@, fraction@) == 0 ==> r == 0,
{
    let ghost all = integer@ + fraction@;
    let ghost n = all.len();
    let (mantissa, truncated) = parse_mantissa(integer, fraction);
    let x = scaled_exponent(exponent, fraction.len());
    let r: u64 = if mantissa == 0 {
        proof {
            if truncated > 0 {
                let k = n - truncated;
                lemma_digits_step(all, k);
                assert(false);
            }
            assert(all.take(n as int) =~= all);
            format.lemma_zero_rounds_to_zero(x as int);
        }
        0
    } else if truncated == 0 {
        proof {
            assert(all.take(n as int) =~= all);
            lemma_digits_bound(all);
        }
        match fast_path(mantissa, x, format) {
            Some(b) => {
                proof {
                    format.lemma_rounded_rounds_to(mantissa as nat, x as int);
                }
                b
            },
            None => round_decimal(format, &from_u64(mantissa), x, integer.len() + fraction.len()),
        }
    } else {
        // The mantissa lost digits: round from the whole digit string.
        proof {
            lemma_digits_prefix(all, n - truncated);
            lemma_digits_bound(all);
        }
        let d = digits_to_limbs(integer, fraction);
        round_decimal(format, &d, x, integer.len() + fraction.len())
    };
    proof {
        format.lemma_rounded(decimal_digits(integer@, fraction@), x as int, r as nat);
    }
    r
}

} // verus!

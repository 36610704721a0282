//! Rounding an exact decimal, held as a natural number of limbs and a power
//! of ten, to the nearest pattern of a binary format.
use vstd::prelude::*;
use crate::bignum::{
    compare, from_u64, lemma_pow_adds, lemma_pow_monotone, lemma_pow_positive, mul_small_add, pow,
    value,
};
use crate::format::{denominator, numerator, Format};
use crate::laws::lemma_exact_value;
use vstd::arithmetic::div_mod::lemma_fundamental_div_mod_converse;

verus! {

/// `a * base^n`, taking `big == base^k` at a time while it fits.
fn mul_pow(a: &Vec<u32>, base: u32, n: u128, big: u32, k: u128) -> (r: Vec<u32>)
    requires
        k >= 1,
        big == pow(base as nat, k as nat),
    ensures
        value(r@) == value(a@) * pow(base as nat, n as nat),
{
    let mut r: Vec<u32> = a.clone();
    let mut done: u128 = 0;
    proof {
        assert(r@ =~= a@);
        assert(pow(base as nat, 0) == 1);
        assert(value(a@) * 1 == value(a@));
    }
    while n - done >= k
        invariant
            done <= n,
            k >= 1,
            big == pow(base as nat, k as nat),
            value(r@) == value(a@) * pow(base as nat, done as nat),
        decreases n - done,
    {
        r = mul_small_add(&r, big, 0);
        proof {
            lemma_pow_adds(base as nat, done as nat, k as nat);
            assert(value(a@) * pow(base as nat, done as nat) * pow(base as nat, k as nat) == value(a@)
                * (pow(base as nat, done as nat) * pow(base as nat, k as nat))) by (nonlinear_arith);
        }
        done = done + k;
    }
    while done < n
        invariant
            done <= n,
            value(r@) == value(a@) * pow(base as nat, done as nat),
        decreases n - done,
    {
        r = mul_small_add(&r, base, 0);
        proof {
            assert(pow(base as nat, (done + 1) as nat) == base * pow(base as nat, done as nat));
            assert(value(a@) * pow(base as nat, done as nat) * base == value(a@) * (base * pow(
                base as nat,
                done as nat,
            ))) by (nonlinear_arith);
        }
        done = done + 1;
    }
    r
}

/// The largest powers of two and ten that fit in a limb.
proof fn lemma_limb_powers()
    ensures
        pow(2, 31) == 0x8000_0000,
        pow(10, 9) == 1_000_000_000,
{
    reveal_with_fuel(pow, 32);
}

fn mul_pow2(a: &Vec<u32>, n: u128) -> (r: Vec<u32>)
    ensures
        value(r@) == value(a@) * pow(2, n as nat),
{
    proof {
        lemma_limb_powers();
    }
    mul_pow(a, 2, n, 0x8000_0000, 31)
}

fn mul_pow10(a: &Vec<u32>, n: u128) -> (r: Vec<u32>)
    ensures
        value(r@) == value(a@) * pow(10, n as nat),
{
    proof {
        lemma_limb_powers();
    }
    mul_pow(a, 10, n, 1_000_000_000, 9)
}

/// Whether `d * 10^x` lies at or below the rounding interval of pattern `b`,
/// given `twice` holding `format.twice_decimal(d, x)`.
fn not_above(format: Format, twice: &Vec<u32>, b: u64, x: i128, Ghost(d): Ghost<nat>) -> (r: bool)
    requires
        format.wf(),
        b <= format.infinity,
        x > i128::MIN,
        value(twice@) == format.twice_decimal(d, x as int),
    ensures
        r == format.not_above(d, x as int, b as nat),
{
    if b == format.infinity {
        return true;
    }
    let field = b / format.hidden;
    let frac = b % format.hidden;
    let sig: u64 = if field == 0 {
        frac
    } else {
        frac + format.hidden
    };
    let shift: u64 = if field == 0 {
        0
    } else {
        field - 1
    };
    let den_exp: u128 = if x < 0 {
        (0 - x) as u128
    } else {
        0
    };
    let mid = mul_pow10(&mul_pow2(&from_u64(2 * sig + 1), shift as u128), den_exp);
    proof {
        assert(sig == format.significand(b as nat));
        assert(shift == format.scale(b as nat));
        if x >= 0 {
            assert(pow(10, 0) == 1);
        }
        assert(denominator(x as int) == pow(10, den_exp as nat));
        assert(value(mid@) == format.twice_midpoint_scaled(b as nat, x as int));
    }
    let c = compare(twice, &mid);
    c == -1 || (c == 0 && b % 2 == 0)
}

proof fn lemma_pow2_below_pow10(j: nat)
    ensures
        pow(2, 3 * j) <= pow(10, j),
    decreases j,
{
    if j > 0 {
        lemma_pow2_below_pow10((j - 1) as nat);
        let a = pow(2, (3 * (j - 1)) as nat);
        assert(pow(2, 3 * j) == 2 * pow(2, (3 * j - 1) as nat));
        assert(pow(2, (3 * j - 1) as nat) == 2 * pow(2, (3 * j - 2) as nat));
        assert(pow(2, (3 * j - 2) as nat) == 2 * a);
        assert(8 * a <= 10 * pow(10, (j - 1) as nat)) by (nonlinear_arith)
            requires
                a <= pow(10, (j - 1) as nat),
        ;
    }
}

proof fn lemma_small_powers()
    ensures
        pow(2, 1) == 2,
        pow(2, 11) == 2048,
        pow(2, 54) == 0x40_0000_0000_0000,
{
    reveal_with_fuel(pow, 55);
}

/// Twice the midpoint below infinity is at most `2^2100`.
proof fn lemma_top_midpoint(format: Format)
    requires
        format.wf(),
    ensures
        format.twice_midpoint((format.infinity - 1) as nat) <= pow(2, 2100),
{
    let h = format.hidden as int;
    let inf = format.infinity as int;
    let b = (inf - 1) as nat;
    let k = pow(2, format.exponent_bits as nat) as int;
    lemma_small_powers();
    lemma_pow_positive(2, format.mantissa_bits as nat);
    lemma_pow_monotone(2, format.exponent_bits as nat, 11);
    lemma_pow_monotone(2, 1, format.exponent_bits as nat);
    assert(inf - 1 == (k - 2) * h + (h - 1)) by (nonlinear_arith)
        requires
            inf == (k - 1) * h,
    ;
    lemma_fundamental_div_mod_converse(inf - 1, h, k - 2, h - 1);
    let sig = format.significand(b);
    let sc = format.scale(b);
    assert(sc <= 2046);
    assert(2 * sig + 1 <= 0x40_0000_0000_0000);
    lemma_pow_monotone(2, sc, 2046);
    lemma_pow_adds(2, 54, 2046);
    let m = format.twice_midpoint(b);
    assert(m <= pow(2, 54) * pow(2, 2046)) by (nonlinear_arith)
        requires
            m == (2 * sig + 1) * pow(2, sc),
            2 * sig + 1 <= pow(2, 54),
            pow(2, sc) <= pow(2, 2046),
    ;
}

/// A decimal of at least `10^800` rounds to infinity in every format.
proof fn lemma_huge_is_infinity(format: Format, d: nat, x: int)
    requires
        format.wf(),
        d >= 1,
        x >= 800,
    ensures
        format.rounds_to(d, x, format.infinity as nat),
{
    let b = (format.infinity - 1) as nat;
    lemma_top_midpoint(format);
    let m = format.twice_midpoint(b);
    // the decimal is at least 10^x >= 2^(3x) > 2^2100
    lemma_pow2_below_pow10(x as nat);
    lemma_pow_monotone(2, 2101, (3 * x) as nat);
    assert(pow(2, 2101) == 2 * pow(2, 2100));
    lemma_pow_positive(2, 2100);
    let p = pow(2, (format.units_exponent + 1) as nat);
    lemma_pow_positive(2, (format.units_exponent + 1) as nat);
    let t = format.twice_decimal(d, x);
    assert(t >= pow(10, x as nat)) by (nonlinear_arith)
        requires
            t == d * pow(10, x as nat) * p,
            d >= 1,
            p >= 1,
    ;
    assert(format.twice_midpoint_scaled(b, x) == m * 1);
    assert(format.not_below(d, x, format.infinity as nat));
}

/// A decimal below `10^-400` rounds to zero in every format.
proof fn lemma_tiny_is_zero(format: Format, d: nat, x: int, n: nat)
    requires
        format.wf(),
        d < pow(10, n),
        x + n <= -400,
    ensures
        format.rounds_to(d, x, 0),
{
    let j = (-x - n) as nat;
    let p = pow(2, (format.units_exponent + 1) as nat);
    lemma_pow2_below_pow10(j);
    lemma_pow_monotone(2, (format.units_exponent + 1) as nat, 3 * j);
    lemma_pow_adds(10, n, j);
    assert(n + j == (-x) as nat);
    lemma_pow_positive(2, (format.units_exponent + 1) as nat);
    let t = format.twice_decimal(d, x);
    assert(t < pow(10, n) * pow(10, j)) by (nonlinear_arith)
        requires
            t == d * p,
            d < pow(10, n),
            p <= pow(10, j),
            p > 0,
    ;
    format.lemma_zero_pattern();
    assert(format.twice_midpoint_scaled(0, x) == pow(10, (-x) as nat));
}

/// The correctly rounded pattern of `value(d) * 10^x`, found by bisection
/// over the ordered patterns `0 ..= infinity`. `d` has at most `n` decimal
/// digits; decimals of at least `10^800` or below `10^-400` are settled
/// without big arithmetic, which bounds the work by the digit count.
pub fn round_decimal(format: Format, d: &Vec<u32>, x: i128, n: usize) -> (r: u64)
    requires
        format.wf(),
        x > i128::MIN,
        0 < value(d@) < pow(10, n as nat),
    ensures
        format.rounds_to(value(d@), x as int, r as nat),
{
    let ghost dv = value(d@);
    if x >= 800 {
        proof {
            lemma_huge_is_infinity(format, dv, x as int);
        }
        return format.infinity;
    }
    if x + n as i128 <= -400 {
        proof {
            lemma_tiny_is_zero(format, dv, x as int, n as nat);
        }
        return 0;
    }
    let up: u128 = if x >= 0 {
        x as u128
    } else {
        0
    };
    let twice = mul_pow2(&mul_pow10(d, up), (format.units_exponent + 1) as u128);
    proof {
        if x < 0 {
            assert(pow(10, 0) == 1);
            assert(dv * 1 == dv);
        }
        assert(value(twice@) == format.twice_decimal(dv, x as int));
    }
    let mut lo: u64 = 0;
    let mut hi: u64 = format.infinity;
    while lo < hi
        invariant
            format.wf(),
            x > i128::MIN,
            lo <= hi <= format.infinity,
            value(twice@) == format.twice_decimal(dv, x as int),
            format.not_above(dv, x as int, hi as nat),
            lo == 0 || !format.not_above(dv, x as int, (lo - 1) as nat),
        decreases hi - lo,
    {
        let mid = lo + (hi - lo) / 2;
        if not_above(format, &twice, mid, x, Ghost(dv)) {
            hi = mid;
        } else {
            lo = mid + 1;
        }
    }
    lo
}

/// The pattern of `mantissa * 10^exponent` where that is an integer below
/// `2 * format.hidden`, so that the format holds it exactly; `None` otherwise.
pub fn fast_path(mantissa: u64, exponent: i128, format: Format) -> (r: Option<u64>)
    requires
        format.wf(),
    ensures
        r is Some <==> (mantissa > 0 && exponent >= 0 && mantissa * pow(10, exponent as nat) < 2
            * format.hidden),
        r matches Some(b) ==> b == format.rounded(mantissa as nat, exponent as int),
{
    let h = format.hidden;
    if mantissa == 0 || exponent < 0 || mantissa >= 2 * h {
        proof {
            if mantissa >= 2 * h && exponent >= 0 {
                lemma_pow_monotone(10, 0, exponent as nat);
                assert(pow(10, 0) == 1);
                assert(mantissa * pow(10, exponent as nat) >= mantissa) by (nonlinear_arith)
                    requires
                        pow(10, exponent as nat) >= 1,
                ;
            }
        }
        return None;
    }
    // the integer value, while it stays below 2 * hidden
    let mut n: u64 = mantissa;
    let mut i: u128 = 0;
    let e = exponent as u128;
    proof {
        assert(pow(10, 0) == 1);
    }
    while i < e
        invariant
            format.wf(),
            h == format.hidden,
            i <= e,
            e == exponent,
            n == mantissa * pow(10, i as nat),
            0 < n < 2 * h,
        decreases e - i,
    {
        let next = n * 10;
        proof {
            assert(pow(10, (i + 1) as nat) == 10 * pow(10, i as nat));
            assert(next == mantissa * pow(10, (i + 1) as nat)) by (nonlinear_arith)
                requires
                    next == n * 10,
                    n == mantissa * pow(10, i as nat),
                    pow(10, (i + 1) as nat) == 10 * pow(10, i as nat),
            ;
        }
        if next >= 2 * h {
            proof {
                lemma_pow_monotone(10, (i + 1) as nat, e as nat);
                assert(mantissa * pow(10, (i + 1) as nat) <= mantissa * pow(10, e as nat))
                    by (nonlinear_arith)
                    requires
                        pow(10, (i + 1) as nat) <= pow(10, e as nat),
                ;
            }
            return None;
        }
        n = next;
        i = i + 1;
    }
    let b = encode_integer(n, format);
    proof {
        let p = pow(2, (format.units_exponent + 1) as nat);
        assert(pow(10, 0) == 1);
        assert(n * 1 == n);
        assert(format.twice_decimal(n as nat, 0) == format.twice_decimal(mantissa as nat, exponent as int));
        assert(denominator(0) == denominator(exponent as int));
        assert(format.rounds_to(n as nat, 0, b as nat)) by {
            format.lemma_rounded_rounds_to(n as nat, 0);
        }
        assert(format.rounds_to(mantissa as nat, exponent as int, b as nat));
        format.lemma_rounded(mantissa as nat, exponent as int, b as nat);
    }
    Some(b)
}

/// The pattern whose value is the integer `n`, for `0 < n < 2 * hidden`.
fn encode_integer(n: u64, format: Format) -> (r: u64)
    requires
        format.wf(),
        0 < n < 2 * format.hidden,
    ensures
        r < format.infinity,
        format.units(r as nat) == n * pow(2, format.units_exponent as nat),
        r == format.rounded(n as nat, 0),
{
    let h = format.hidden;
    let ghost k = format.units_exponent as nat;
    let mut sig: u64 = n;
    let mut s: u32 = format.units_exponent;
    proof {
        lemma_pow_positive(2, format.mantissa_bits as nat);
        lemma_pow_monotone(2, format.mantissa_bits as nat, k);
        lemma_pow_adds(2, 0, k);
        assert(pow(2, 0) == 1);
        assert((k - s) as nat == 0);
        assert(1 * n == n);
    }
    while sig < h
        invariant
            format.wf(),
            h == format.hidden,
            k == format.units_exponent,
            s <= k,
            0 < sig < 2 * h,
            pow(2, (k - s) as nat) * n == sig,
            h <= pow(2, k),
        decreases s,
    {
        proof {
            if s == 0 {
                assert(sig >= h) by (nonlinear_arith)
                    requires
                        pow(2, k) * n == sig,
                        n >= 1,
                        h <= pow(2, k),
                ;
            }
            assert(pow(2, (k - s + 1) as nat) == 2 * pow(2, (k - s) as nat));
            assert(pow(2, (k - s + 1) as nat) * n == 2 * sig) by (nonlinear_arith)
                requires
                    pow(2, (k - s + 1) as nat) == 2 * pow(2, (k - s) as nat),
                    pow(2, (k - s) as nat) * n == sig,
            ;
        }
        sig = sig * 2;
        s = s - 1;
    }
    proof {
        // units of the result: sig * 2^s == n * 2^k
        lemma_pow_adds(2, (k - s) as nat, s as nat);
        assert((k - s) as nat + s as nat == k);
        assert(sig * pow(2, s as nat) == n * pow(2, k)) by (nonlinear_arith)
            requires
                pow(2, (k - s) as nat) * n == sig,
                pow(2, k) == pow(2, (k - s) as nat) * pow(2, s as nat),
        ;
        assert((s as u64 + 1) * h <= 1075 * 0x10_0000_0000_0000) by (nonlinear_arith)
            requires
                s <= 1074,
                h <= 0x10_0000_0000_0000,
        ;
    }
    let r = (s as u64 + 1) * h + (sig - h);
    proof {
        let q = s + 1;
        let big = pow(2, format.exponent_bits as nat);
        lemma_fundamental_div_mod_converse(r as int, h as int, q as int, (sig - h) as int);
        assert(format.significand(r as nat) == sig);
        assert(format.scale(r as nat) == s);
        assert(r < (q + 1) * h) by (nonlinear_arith)
            requires
                r == q * h + (sig - h),
                sig < 2 * h,
        ;
        assert((q + 1) * h <= (big - 1) * h) by (nonlinear_arith)
            requires
                q + 1 <= big - 1,
                h > 0,
        ;
        assert(format.twice_decimal(n as nat, 0) == 2 * format.units(r as nat) * denominator(0))
            by {
            assert(pow(10, 0) == 1);
            assert(n * 1 == n);
            assert(numerator(n as nat, 0) == n);
            assert(pow(2, k + 1) == 2 * pow(2, k));
            assert(n * (2 * pow(2, k)) == 2 * (n * pow(2, k)) * 1) by (nonlinear_arith);
        }
        lemma_exact_value(format, n as nat, 0, r as nat);
    }
    r
}

} // verus!

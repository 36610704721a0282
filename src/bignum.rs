//! Arbitrary-precision natural numbers held as little-endian 32-bit limbs.
use vstd::prelude::*;

verus! {

/// `b` raised to the power `e`.
pub open spec fn pow(b: nat, e: nat) -> nat
    decreases e,
{
    if e == 0 {
        1
    } else {
        b * pow(b, (e - 1) as nat)
    }
}

/// The radix of one limb.
pub open spec fn radix() -> nat {
    0x1_0000_0000
}

/// The limb at index `k`, zero past the end.
pub open spec fn limb(s: Seq<u32>, k: int) -> nat {
    if 0 <= k < s.len() {
        s[k] as nat
    } else {
        0
    }
}

/// The value of the lowest `n` limbs of `s`.
pub open spec fn limbs_value(s: Seq<u32>, n: nat) -> nat
    decreases n,
{
    if n == 0 {
        0
    } else {
        limbs_value(s, (n - 1) as nat) + limb(s, n - 1) * pow(radix(), (n - 1) as nat)
    }
}

/// The natural number that a limb sequence stands for.
pub open spec fn value(s: Seq<u32>) -> nat {
    limbs_value(s, s.len())
}

pub proof fn lemma_pow_positive(b: nat, e: nat)
    requires
        b > 0,
    ensures
        pow(b, e) > 0,
    decreases e,
{
    if e > 0 {
        lemma_pow_positive(b, (e - 1) as nat);
        assert(b * pow(b, (e - 1) as nat) > 0) by (nonlinear_arith)
            requires
                b > 0,
                pow(b, (e - 1) as nat) > 0,
        ;
    }
}

pub proof fn lemma_pow_adds(b: nat, e1: nat, e2: nat)
    ensures
        pow(b, e1 + e2) == pow(b, e1) * pow(b, e2),
    decreases e2,
{
    if e2 == 0 {
        assert(pow(b, e1) * 1 == pow(b, e1));
    } else {
        lemma_pow_adds(b, e1, (e2 - 1) as nat);
        assert((e1 + e2 - 1) as nat == e1 + (e2 - 1) as nat);
        assert(pow(b, e1 + e2) == b * pow(b, (e1 + e2 - 1) as nat));
        assert(b * (pow(b, e1) * pow(b, (e2 - 1) as nat)) == pow(b, e1) * (b * pow(b, (e2 - 1) as nat)))
            by (nonlinear_arith);
    }
}

pub proof fn lemma_pow_monotone(b: nat, e1: nat, e2: nat)
    requires
        b > 0,
        e1 <= e2,
    ensures
        pow(b, e1) <= pow(b, e2),
{
    lemma_pow_adds(b, e1, (e2 - e1) as nat);
    lemma_pow_positive(b, (e2 - e1) as nat);
    lemma_pow_positive(b, e1);
    assert(pow(b, e1) * pow(b, (e2 - e1) as nat) >= pow(b, e1)) by (nonlinear_arith)
        requires
            pow(b, (e2 - e1) as nat) >= 1,
            pow(b, e1) >= 1,
    ;
    assert(e1 + (e2 - e1) as nat == e2);
}

proof fn lemma_limbs_value_agree(s: Seq<u32>, t: Seq<u32>, n: nat)
    requires
        forall|k: int| 0 <= k < n ==> limb(s, k) == limb(t, k),
    ensures
        limbs_value(s, n) == limbs_value(t, n),
    decreases n,
{
    if n > 0 {
        lemma_limbs_value_agree(s, t, (n - 1) as nat);
    }
}

proof fn lemma_limbs_value_bound(s: Seq<u32>, n: nat)
    ensures
        limbs_value(s, n) < pow(radix(), n),
    decreases n,
{
    if n > 0 {
        let p = pow(radix(), (n - 1) as nat);
        lemma_limbs_value_bound(s, (n - 1) as nat);
        let l = limb(s, n - 1);
        assert(l < radix());
        assert(limbs_value(s, (n - 1) as nat) + l * p < radix() * p) by (nonlinear_arith)
            requires
                limbs_value(s, (n - 1) as nat) < p,
                l + 1 <= radix(),
        ;
    }
}

/// Limbs past the end count as zero.
proof fn lemma_limbs_value_past_end(s: Seq<u32>, n: nat)
    requires
        n >= s.len(),
    ensures
        limbs_value(s, n) == value(s),
    decreases n,
{
    if n > s.len() {
        lemma_limbs_value_past_end(s, (n - 1) as nat);
        assert(limb(s, n - 1) == 0);
        assert(limbs_value(s, n) == limbs_value(s, (n - 1) as nat) + 0 * pow(radix(), (n - 1) as nat));
    }
}

/// The two limbs of a 64-bit value.
pub fn from_u64(x: u64) -> (r: Vec<u32>)
    ensures
        value(r@) == x,
{
    let lo = (x % 0x1_0000_0000) as u32;
    let hi = (x / 0x1_0000_0000) as u32;
    let mut r: Vec<u32> = Vec::new();
    r.push(lo);
    r.push(hi);
    proof {
        assert(r@[0] == lo);
        assert(r@[1] == hi);
        assert(limbs_value(r@, 0) == 0);
        assert(pow(radix(), 0) == 1);
        assert(limb(r@, 0) == lo);
        assert(limbs_value(r@, 1) == limbs_value(r@, 0) + limb(r@, 0) * pow(radix(), 0));
        assert(limbs_value(r@, 1) == lo);
        assert(pow(radix(), 1) == radix()) by {
            assert(pow(radix(), 0) == 1);
        }
        assert(value(r@) == lo + hi * radix());
    }
    r
}

/// `a * m + c`, for a single-limb factor `m` and addend `c`.
pub fn mul_small_add(a: &Vec<u32>, m: u32, c: u32) -> (r: Vec<u32>)
    ensures
        value(r@) == value(a@) * m + c,
        r@.len() <= a@.len() + 1,
{
    let mut r: Vec<u32> = Vec::new();
    let mut carry: u64 = c as u64;
    let mut i: usize = 0;
    proof {
        assert(pow(radix(), 0) == 1);
        assert(limbs_value(a@, 0) == 0);
        assert(limbs_value(r@, 0) == 0);
        assert(0 * (m as nat) == 0);
    }
    while i < a.len()
        invariant
            i <= a@.len(),
            r@.len() == i,
            carry < radix(),
            limbs_value(r@, i as nat) + carry * pow(radix(), i as nat) == limbs_value(a@, i as nat)
                * m + c,
        decreases a@.len() - i,
    {
        let ai: u32 = a[i];
        assert((ai as u64) * (m as u64) + carry <= 0xffff_ffff * 0xffff_ffff + 0xffff_ffff)
            by (nonlinear_arith)
            requires
                ai <= 0xffff_ffff,
                m <= 0xffff_ffff,
                carry <= 0xffff_ffff,
        ;
        let t: u64 = (ai as u64) * (m as u64) + carry;
        let lo = (t % 0x1_0000_0000) as u32;
        let hi: u64 = t / 0x1_0000_0000;
        let ghost old_r = r@;
        r.push(lo);
        proof {
            let p = pow(radix(), i as nat);
            let ni = (i + 1) as nat;
            assert(pow(radix(), ni) == radix() * p);
            lemma_limbs_value_agree(r@, old_r, i as nat);
            assert(limbs_value(r@, ni) == limbs_value(old_r, i as nat) + lo * p);
            assert(limbs_value(a@, ni) == limbs_value(a@, i as nat) + a[i as int] * p);
            assert(t == lo + hi * radix());
            assert(limbs_value(old_r, i as nat) + lo * p + hi * (radix() * p) == limbs_value(
                a@,
                i as nat,
            ) * m + c + a[i as int] * p * m) by (nonlinear_arith)
                requires
                    limbs_value(old_r, i as nat) + carry * p == limbs_value(a@, i as nat) * m + c,
                    t == a[i as int] * m + carry,
                    t == lo + hi * radix(),
            ;
            assert((limbs_value(a@, i as nat) + a[i as int] * p) * m == limbs_value(a@, i as nat) * m
                + a[i as int] * p * m) by (nonlinear_arith);
            assert(hi < radix());
        }
        carry = hi;
        i = i + 1;
    }
    proof {
        lemma_limbs_value_past_end(a@, i as nat);
    }
    if carry > 0 {
        let ghost old_r = r@;
        r.push(carry as u32);
        proof {
            lemma_limbs_value_agree(r@, old_r, i as nat);
        }
    }
    r
}

/// Three-way comparison: -1, 0 or 1 as `a` is below, equal to or above `b`.
pub fn compare(a: &Vec<u32>, b: &Vec<u32>) -> (r: i8)
    ensures
        r == -1 <==> value(a@) < value(b@),
        r == 0 <==> value(a@) == value(b@),
        r == 1 <==> value(a@) > value(b@),
{
    let n: usize = if a.len() > b.len() {
        a.len()
    } else {
        b.len()
    };
    let mut res: i8 = 0;
    let mut i: usize = 0;
    while i < n
        invariant
            i <= n,
            n == a@.len() || n == b@.len(),
            n >= a@.len(),
            n >= b@.len(),
            res == -1 <==> limbs_value(a@, i as nat) < limbs_value(b@, i as nat),
            res == 0 <==> limbs_value(a@, i as nat) == limbs_value(b@, i as nat),
            res == 1 <==> limbs_value(a@, i as nat) > limbs_value(b@, i as nat),
        decreases n - i,
    {
        let x: u32 = if i < a.len() {
            a[i]
        } else {
            0
        };
        let y: u32 = if i < b.len() {
            b[i]
        } else {
            0
        };
        proof {
            let p = pow(radix(), i as nat);
            lemma_limbs_value_bound(a@, i as nat);
            lemma_limbs_value_bound(b@, i as nat);
            let va = limbs_value(a@, i as nat);
            let vb = limbs_value(b@, i as nat);
            assert(limb(a@, i as int) == x);
            assert(limb(b@, i as int) == y);
            if x < y {
                assert(va + x * p < vb + y * p) by (nonlinear_arith)
                    requires
                        va < p,
                        x + 1 <= y,
                ;
            } else if x > y {
                assert(va + x * p > vb + y * p) by (nonlinear_arith)
                    requires
                        vb < p,
                        y + 1 <= x,
                ;
            }
        }
        if x < y {
            res = -1;
        } else if x > y {
            res = 1;
        }
        i = i + 1;
    }
    proof {
        lemma_limbs_value_past_end(a@, n as nat);
        lemma_limbs_value_past_end(b@, n as nat);
    }
    res
}

} // verus!

//! Powers of two, ceiling logarithms and rounding shifts on naturals.

use vstd::arithmetic::power2::{
    lemma2_to64, lemma2_to64_rest, lemma_pow2_adds, lemma_pow2_pos,
    lemma_pow2_strictly_increases, lemma_pow2_unfold, pow2,
};
use vstd::prelude::*;

verus! {

/// The least `l` with `n <= 2^l`; zero for `n <= 1`.
pub open spec fn ceil_log2(n: nat) -> nat
    decreases n,
{
    if n <= 1 {
        0
    } else {
        1 + ceil_log2((n + 1) / 2)
    }
}

/// `n * 2^k` rounded to the nearest integer, a half rounded up.
pub open spec fn round_shift(n: nat, k: int) -> nat {
    if k >= 0 {
        n * pow2(k as nat)
    } else {
        (n + pow2((-k - 1) as nat)) as nat / pow2((-k) as nat)
    }
}

/// `l` is the ceiling logarithm of `n` once `2^(l-1) < n <= 2^l`.
pub proof fn lemma_ceil_log2_unique(n: nat, l: nat)
    requires
        n <= pow2(l),
        l > 0 ==> pow2((l - 1) as nat) < n,
    ensures
        ceil_log2(n) == l,
    decreases l,
{
    lemma2_to64();
    if l == 0 {
    } else {
        lemma_pow2_pos((l - 1) as nat);
        lemma_pow2_unfold(l);
        if l >= 2 {
            lemma_pow2_unfold((l - 1) as nat);
        }
        lemma_ceil_log2_unique((n + 1) / 2, (l - 1) as nat);
    }
}

/// The ceiling logarithm brackets its argument between two powers of two.
pub proof fn lemma_ceil_log2_bounds(n: nat)
    requires
        n >= 1,
    ensures
        n <= pow2(ceil_log2(n)),
        ceil_log2(n) > 0 ==> pow2((ceil_log2(n) - 1) as nat) < n,
    decreases n,
{
    lemma2_to64();
    if n > 1 {
        let h = (n + 1) / 2;
        lemma_ceil_log2_bounds(h);
        let l = ceil_log2(h);
        lemma_pow2_unfold(l + 1);
        if l > 0 {
            lemma_pow2_unfold(l);
        }
    }
}

/// The ceiling logarithm of a number that is at most `2^l` is at most `l`.
pub proof fn lemma_ceil_log2_le(n: nat, l: nat)
    requires
        n <= pow2(l),
    ensures
        ceil_log2(n) <= l,
{
    if n >= 1 {
        lemma_ceil_log2_bounds(n);
        let c = ceil_log2(n);
        if c > l && c - 1 > l {
            lemma_pow2_strictly_increases(l, (c - 1) as nat);
        }
    }
}

/// Scaling by `k - ceil_log2(n)` binary places lands in `[2^(k-1), 2^k]`.
pub proof fn lemma_round_shift_range(n: nat, k: nat)
    requires
        n >= 1,
        k >= 1,
    ensures
        pow2((k - 1) as nat) <= round_shift(n, k - ceil_log2(n)) <= pow2(k),
{
    let l = ceil_log2(n);
    lemma_ceil_log2_bounds(n);
    lemma_pow2_unfold(k);
    let lo = pow2((k - 1) as nat);
    if l <= k {
        let s = (k - l) as nat;
        let p = pow2(s);
        lemma_pow2_pos(s);
        lemma_pow2_adds(l, s);
        assert(n * p <= pow2(l) * p) by (nonlinear_arith)
            requires
                n <= pow2(l),
                p > 0,
        ;
        if l > 0 {
            lemma_pow2_adds((l - 1) as nat, s);
            let q = pow2((l - 1) as nat);
            assert(q * p < n * p) by (nonlinear_arith)
                requires
                    q < n,
                    p > 0,
            ;
        } else {
            // n == 1 and the product is 2^k itself
            lemma2_to64();
            assert(n == 1);
            lemma_pow2_strictly_increases((k - 1) as nat, k);
        }
    } else {
        let s = (l - k) as nat;
        let d = pow2(s);
        let h = pow2((s - 1) as nat);
        lemma_pow2_pos((s - 1) as nat);
        lemma_pow2_unfold(s);
        lemma_pow2_adds(k, s);
        lemma_pow2_adds((k - 1) as nat, s);
        let hi = pow2(k);
        // n + h <= hi * d + h < (hi + 1) * d
        assert((n + h) as nat / d <= hi) by (nonlinear_arith)
            requires
                n <= hi * d,
                d == 2 * h,
                h > 0,
        ;
        // n > lo * d, hence n + h >= lo * d
        assert((n + h) as nat / d >= lo) by (nonlinear_arith)
            requires
                n > lo * d,
                d == 2 * h,
                h > 0,
        ;
    }
}

/// `a * 2^s` rounded to the nearest integer, a half rounded to the even
/// neighbour.
pub open spec fn round_even_shift(a: nat, s: int) -> nat {
    if s >= 0 {
        a * pow2(s as nat)
    } else {
        let d = pow2((-s) as nat);
        let q = a / d;
        let r = a % d;
        if 2 * r > d || (2 * r == d && q % 2 == 1) {
            q + 1
        } else {
            q
        }
    }
}

/// Rounding away `s` binary places is off by at most half a unit of the last
/// place kept: `n - round_shift(n, -s) * 2^s` lies in `[-2^(s-1), 2^(s-1))`.
pub proof fn lemma_round_shift_error(n: nat, s: nat)
    requires
        s >= 1,
    ensures
        -pow2((s - 1) as nat) <= n - round_shift(n, -s) * pow2(s) < pow2((s - 1) as nat),
{
    let d = pow2(s);
    let h = pow2((s - 1) as nat);
    lemma_pow2_unfold(s);
    lemma_pow2_pos((s - 1) as nat);
    let r = (n + h) as nat / d;
    assert(round_shift(n, -s) == r);
    vstd::arithmetic::div_mod::lemma_fundamental_div_mod((n + h) as int, d as int);
    vstd::arithmetic::div_mod::lemma_mod_bound((n + h) as int, d as int);
    assert(r * d == d * r) by (nonlinear_arith);
}

/// `2^k` as a machine integer.
pub fn pow2_u64(k: u32) -> (r: u64)
    requires
        k <= 63,
    ensures
        r == pow2(k as nat),
{
    let mut r: u64 = 1;
    let mut i: u32 = 0;
    proof {
        lemma2_to64();
    }
    while i < k
        invariant
            i <= k <= 63,
            r == pow2(i as nat),
        decreases k - i,
    {
        proof {
            lemma_pow2_unfold((i + 1) as nat);
            vstd::bits::lemma_u64_pow2_no_overflow((i + 1) as nat);
        }
        r = r * 2;
        i = i + 1;
    }
    r
}

/// The ceiling logarithm of a machine integer.
pub fn ceil_log2_u64(n: u64) -> (l: u32)
    requires
        n <= 0x8000_0000_0000_0000,
    ensures
        l == ceil_log2(n as nat),
        l <= 63,
        n <= pow2(l as nat),
        l > 0 ==> pow2((l - 1) as nat) < n,
{
    let mut l: u32 = 0;
    let mut p: u64 = 1;
    proof {
        lemma2_to64();
        lemma2_to64_rest();
    }
    while p < n
        invariant
            l <= 63,
            p == pow2(l as nat),
            l > 0 ==> pow2((l - 1) as nat) < n,
            n <= 0x8000_0000_0000_0000,
            pow2(63) == 0x8000_0000_0000_0000,
        decreases 64 - l,
    {
        proof {
            lemma_pow2_unfold((l + 1) as nat);
        }
        p = p * 2;
        l = l + 1;
    }
    proof {
        lemma_ceil_log2_unique(n as nat, l as nat);
    }
    l
}

/// The rounding shift of a machine integer.
pub fn round_shift_u64(n: u64, k: i32) -> (r: u64)
    requires
        -63 <= k <= 63,
        k >= 0 ==> n * pow2(k as nat) <= u64::MAX,
        k < 0 ==> n + pow2((-k - 1) as nat) <= u64::MAX,
    ensures
        r == round_shift(n as nat, k as int),
{
    if k >= 0 {
        let p = pow2_u64(k as u32);
        n * p
    } else {
        let h = pow2_u64((-k - 1) as u32);
        let d = pow2_u64((-k) as u32);
        proof {
            lemma_pow2_pos((-k) as nat);
        }
        (n + h) / d
    }
}


/// The even-rounding shift of a machine integer.
pub fn round_even_shift_u64(a: u64, s: i32) -> (r: u64)
    requires
        -62 <= s <= 62,
        s >= 0 ==> a * pow2(s as nat) <= u64::MAX,
        a < u64::MAX,
    ensures
        r == round_even_shift(a as nat, s as int),
        s < 0 ==> r <= a / 2 + 1,
{
    if s >= 0 {
        let p = pow2_u64(s as u32);
        a * p
    } else {
        let d = pow2_u64((-s) as u32);
        proof {
            lemma_pow2_pos((-s) as nat);
            lemma2_to64_rest();
            if -s < 62 {
                lemma_pow2_strictly_increases((-s) as nat, 62);
            }
        }
        let q = a / d;
        let r = a % d;
        proof {
            lemma_pow2_unfold((-s) as nat);
            lemma_pow2_pos((-s - 1) as nat);
            vstd::arithmetic::div_mod::lemma_div_is_ordered_by_denominator(a as int, 2, d as int);
        }
        proof {
            lemma_pow2_unfold((-s) as nat);
            lemma_pow2_pos((-s - 1) as nat);
            vstd::arithmetic::div_mod::lemma_div_is_ordered_by_denominator(a as int, 2, d as int);
        }
        if 2 * r > d || (2 * r == d && q % 2 == 1) {
            q + 1
        } else {
            q
        }
    }
}

} // verus!

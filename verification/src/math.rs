//! Small integer helpers.
use vstd::arithmetic::power2::{lemma_pow2_strictly_increases, lemma2_to64, pow2};
use vstd::prelude::*;

verus! {

/// `a / b`, rounded up.
pub open spec fn ceil_div(a: int, b: int) -> int {
    (a + b - 1) / b
}

/// `a / b` rounded up, as `u32::div_ceil` computes it.
pub fn div_ceil(a: u32, b: u32) -> (r: u32)
    requires
        b > 0,
    ensures
        r == ceil_div(a as int, b as int),
{
    let q = a / b;
    if a % b != 0 {
        assert(q + 1 == ceil_div(a as int, b as int)) by (nonlinear_arith)
            requires
                q == a / b,
                a % b != 0,
                b > 0,
        ;
        assert(q < 0xffff_ffff) by (nonlinear_arith)
            requires
                q == a / b,
                a % b != 0,
                b > 0,
                a <= 0xffff_ffff,
        ;
        q + 1
    } else {
        assert(q == ceil_div(a as int, b as int)) by (nonlinear_arith)
            requires
                q == a / b,
                a % b == 0,
                b > 0,
        ;
        q
    }
}

/// `2^e` as a 64-bit value.
pub fn pow2_u64(e: u32) -> (r: u64)
    requires
        e < 64,
    ensures
        r == pow2(e as nat),
        r > 0,
{
    proof {
        lemma2_to64();
        vstd::arithmetic::power2::lemma_pow2_pos(e as nat);
    }
    let mut r: u64 = 1;
    let mut i: u32 = 0;
    while i < e
        invariant
            i <= e < 64,
            r == pow2(i as nat),
        decreases e - i,
    {
        proof {
            lemma2_to64();
            vstd::arithmetic::power2::lemma_pow2_adds(i as nat, 1);
            if i + 1 < 64 {
                lemma_pow2_strictly_increases(i as nat + 1, 64);
            }
        }
        r = r * 2;
        i = i + 1;
    }
    r
}

/// `x / 2^e`, rounded up.
pub fn div_ceil_pow2(x: u32, e: u32) -> (r: u32)
    requires
        e < 64,
    ensures
        r == ceil_div(x as int, pow2(e as nat) as int),
        r <= x,
{
    let d = pow2_u64(e);
    let xr = x as u64;
    let q = xr / d;
    if xr % d != 0 {
        assert(q + 1 == ceil_div(xr as int, d as int) && q + 1 <= xr) by (nonlinear_arith)
            requires
                q == xr / d,
                xr % d != 0,
                d > 0,
        ;
        (q + 1) as u32
    } else {
        assert(q == ceil_div(xr as int, d as int) && q <= xr) by (nonlinear_arith)
            requires
                q == xr / d,
                xr % d == 0,
                d > 0,
        ;
        q as u32
    }
}

/// `x / 2^e`, rounded down.
pub fn div_floor_pow2(x: u32, e: u32) -> (r: u32)
    requires
        e < 64,
    ensures
        r == (x as int) / (pow2(e as nat) as int),
        r <= x,
{
    let d = pow2_u64(e);
    let q = (x as u64) / d;
    assert(q <= x) by (nonlinear_arith)
        requires q == (x as u64) / d, d > 0;
    q as u32
}

/// `2^e`.
pub fn pow2_u32(e: u32) -> (r: u32)
    requires
        e < 32,
    ensures
        r == pow2(e as nat),
        r > 0,
{
    proof {
        lemma2_to64();
        vstd::arithmetic::power2::lemma_pow2_pos(e as nat);
    }
    let mut r: u32 = 1;
    let mut i: u32 = 0;
    while i < e
        invariant
            i <= e < 32,
            r == pow2(i as nat),
        decreases e - i,
    {
        proof {
            lemma2_to64();
            vstd::arithmetic::power2::lemma_pow2_adds(i as nat, 1);
            if i + 1 < 32 {
                lemma_pow2_strictly_increases(i as nat + 1, 32);
            }
        }
        r = r * 2;
        i = i + 1;
    }
    r
}

/// The smallest `k` with `2^k >= x` (`x.next_power_of_two().ilog2()`).
pub open spec fn ceil_log2(x: nat) -> nat
    decreases x,
{
    if x <= 1 {
        0
    } else {
        1 + ceil_log2(((x + 1) / 2) as nat)
    }
}

/// `2^ceil_log2(x)` is at least `x`.
pub proof fn lemma_pow2_ceil_log2(x: nat)
    ensures
        x <= pow2(ceil_log2(x)),
    decreases x,
{
    if x <= 1 {
        lemma2_to64();
    } else {
        let h = ((x + 1) / 2) as nat;
        lemma_pow2_ceil_log2(h);
        vstd::arithmetic::power2::lemma_pow2_adds(ceil_log2(h), 1);
        lemma2_to64();
    }
}

/// The exponent of the smallest power of two that is at least `x`.
pub fn next_power_of_two_log2(x: u32) -> (r: u32)
    requires
        x <= 0x8000_0000,
    ensures
        r == ceil_log2(x as nat),
        r <= 31,
{
    proof {
        lemma2_to64();
        lemma_ceil_log2_bound(x as nat, 31);
    }
    let mut v = x;
    let mut k: u32 = 0;
    while v > 1
        invariant
            ceil_log2(x as nat) == k + ceil_log2(v as nat),
            ceil_log2(x as nat) <= 31,
            v <= 0x8000_0000,
        decreases v,
    {
        proof {
            lemma_ceil_log2_step(v);
        }
        v = (v + 1) / 2;
        k = k + 1;
    }
    k
}

/// `x <= 2^n` needs at most `n` doublings.
pub proof fn lemma_ceil_log2_bound(x: nat, n: nat)
    requires
        x <= pow2(n),
    ensures
        ceil_log2(x) <= n,
    decreases n,
{
    if x > 1 {
        if n == 0 {
            vstd::arithmetic::power2::lemma_pow2(0);
            assert(pow2(0) == 1) by {
                vstd::arithmetic::power2::lemma2_to64();
            }
        } else {
            vstd::arithmetic::power2::lemma_pow2_adds((n - 1) as nat, 1);
            vstd::arithmetic::power2::lemma2_to64();
            lemma_ceil_log2_bound(((x + 1) / 2) as nat, (n - 1) as nat);
        }
    }
}

proof fn lemma_ceil_log2_step(v: u32)
    requires
        v > 1,
    ensures
        ceil_log2(v as nat) == 1 + ceil_log2(((v + 1) / 2) as nat),
{
}

/// The largest `k` with `2^k <= x`, for `x >= 1`.
pub open spec fn floor_log2(x: nat) -> nat
    decreases x,
{
    if x < 2 {
        0
    } else {
        1 + floor_log2(x / 2)
    }
}

/// `x.checked_ilog2()`: the base-2 logarithm rounded down, or `None` for 0.
pub fn checked_ilog2(x: u32) -> (r: Option<u32>)
    ensures
        x == 0 ==> r is None,
        x > 0 ==> r == Some(floor_log2(x as nat) as u32),
        x > 0 ==> floor_log2(x as nat) < 32,
{
    if x == 0 {
        return None;
    }
    proof {
        lemma_floor_log2_pow(x as nat);
        lemma2_to64();
        if floor_log2(x as nat) >= 32 {
            if floor_log2(x as nat) > 32 {
                lemma_pow2_strictly_increases(32, floor_log2(x as nat));
            }
        }
    }
    let mut v = x;
    let mut k: u32 = 0;
    while v >= 2
        invariant
            v >= 1,
            k + floor_log2(v as nat) == floor_log2(x as nat),
            floor_log2(x as nat) < 32,
        decreases v,
    {
        v = v / 2;
        k = k + 1;
    }
    Some(k)
}

/// `floor_log2` grows with its argument.
pub proof fn lemma_floor_log2_mono(x: nat, y: nat)
    requires
        1 <= x <= y,
    ensures
        floor_log2(x) <= floor_log2(y),
    decreases y,
{
    if x >= 2 {
        lemma_floor_log2_mono(x / 2, y / 2);
    }
}

/// `2^floor_log2(x) <= x`.
pub proof fn lemma_floor_log2_pow(x: nat)
    requires
        x >= 1,
    ensures
        pow2(floor_log2(x)) <= x,
    decreases x,
{
    lemma2_to64();
    if x >= 2 {
        lemma_floor_log2_pow(x / 2);
        vstd::arithmetic::power2::lemma_pow2_adds(floor_log2(x / 2), 1);
    }
}

} // verus!

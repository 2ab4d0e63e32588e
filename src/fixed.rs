//! Fixed-point numbers and the exact integer arithmetic behind the transform.
//!
//! A function-space coordinate is an `i64` counting units of `1 / UNIT`.
use vstd::arithmetic::div_mod::{
    lemma_div_multiples_vanish_fancy, lemma_div_multiples_vanish_quotient, lemma_div_pos_is_pos,
    lemma_fundamental_div_mod, lemma_mod_bound,
};
use vstd::arithmetic::power2::{lemma2_to64, lemma_pow2_unfold, pow2};
use vstd::prelude::*;

verus! {

/// The fixed-point value of `1.0`: coordinates carry 16 fractional bits.
pub const UNIT: i64 = 65536;

/// `n / d` rounded down, for a positive `d` (Euclidean division in specs).
pub open spec fn floor_div(n: int, d: int) -> int {
    n / d
}

/// `n / d` rounded to the nearest integer, halves rounded up, for a positive `d`.
pub open spec fn round_div(n: int, d: int) -> int {
    floor_div(2 * n + d, 2 * d)
}

/// Splitting a sum before rounding down loses at most one.
pub proof fn lemma_floor_div_add(x: int, y: int, q: int)
    requires
        q > 0,
    ensures
        floor_div(x, q) + floor_div(y, q) <= floor_div(x + y, q) <= floor_div(x, q) + floor_div(y, q) + 1,
{
    lemma_fundamental_div_mod(x, q);
    lemma_fundamental_div_mod(y, q);
    lemma_mod_bound(x, q);
    lemma_mod_bound(y, q);
    let q1 = x / q;
    let r1 = x % q;
    let q2 = y / q;
    let r2 = y % q;
    if r1 + r2 < q {
        assert(x + y == q * (q1 + q2) + (r1 + r2)) by (nonlinear_arith)
            requires
                x == q * q1 + r1,
                y == q * q2 + r2,
        ;
        lemma_div_multiples_vanish_fancy(q1 + q2, r1 + r2, q);
    } else {
        assert(x + y == q * (q1 + q2 + 1) + (r1 + r2 - q)) by (nonlinear_arith)
            requires
                x == q * q1 + r1,
                y == q * q2 + r2,
        ;
        lemma_div_multiples_vanish_fancy(q1 + q2 + 1, r1 + r2 - q, q);
    }
}

/// Rounding a difference: two values `k` apart round to whole numbers at
/// most `k / q + 1` apart, in the same order.
pub proof fn lemma_round_div_gap(m: int, k: int, q: int)
    requires
        q > 0,
        k >= 0,
    ensures
        0 <= round_div(m + k, q) - round_div(m, q) <= floor_div(k, q) + 1,
{
    lemma_floor_div_add(2 * m + q, 2 * k, 2 * q);
    assert(2 * (m + k) + q == (2 * m + q) + 2 * k);
    lemma_div_multiples_vanish_quotient(2, k, q);
    lemma_div_pos_is_pos(k, q);
}

/// `2^e` as an exact `i128`.
pub fn pow2_i128(e: u32) -> (r: i128)
    requires
        e <= 64,
    ensures
        r == pow2(e as nat),
{
    proof {
        lemma2_to64();
    }
    let mut r: i128 = 1;
    let mut i: u32 = 0;
    while i < e
        invariant
            i <= e <= 64,
            r == pow2(i as nat),
            pow2(64) == 0x1_0000_0000_0000_0000,
        decreases e - i,
    {
        proof {
            lemma_pow2_unfold((i + 1) as nat);
            if i + 1 < 64 {
                vstd::arithmetic::power2::lemma_pow2_strictly_increases((i + 1) as nat, 64);
            }
        }
        r = r * 2;
        i = i + 1;
    }
    r
}

/// Division rounding towards negative infinity, for a positive divisor.
pub fn floor_div_i128(n: i128, d: i128) -> (r: i128)
    requires
        d > 0,
    ensures
        r == floor_div(n as int, d as int),
        n >= 0 ==> 0 <= r <= n,
        n < 0 ==> n <= r < 0,
{
    if n >= 0 {
        proof {
            lemma_fundamental_div_mod(n as int, d as int);
            lemma_mod_bound(n as int, d as int);
            let q = n as int / d as int;
            let rem = n as int % d as int;
            assert(0 <= q <= n) by (nonlinear_arith)
                requires
                    n == d * q + rem,
                    0 <= rem < d,
                    d >= 1,
                    n >= 0,
            ;
        }
        n / d
    } else {
        let m: i128 = -(n + 1);
        let q: i128 = m / d;
        proof {
            lemma_fundamental_div_mod(m as int, d as int);
            lemma_mod_bound(m as int, d as int);
            assert(q >= 0) by (nonlinear_arith)
                requires
                    m == d * q + m % d,
                    0 <= m % d < d,
                    m >= 0,
                    d >= 1,
            ;
            let rem = m as int % d as int;
            assert(n == d * (-q - 1) + (d - rem - 1)) by (nonlinear_arith)
                requires
                    m == d * q + rem,
                    m == -(n + 1),
            ;
            lemma_div_multiples_vanish_fancy(-q - 1, d - rem - 1, d as int);
            assert(n <= -q - 1 < 0) by (nonlinear_arith)
                requires
                    n == d * (-q - 1) + (d - rem - 1),
                    0 <= rem < d,
                    d >= 1,
                    n < 0,
                    q >= 0,
            ;
        }
        -q - 1
    }
}

/// Rounds `n / d` to the nearest integer, halves up, for a positive `d`.
pub fn round_div_i128(n: i128, d: i128) -> (r: i128)
    requires
        d > 0,
        -0x1000_0000_0000_0000_0000_0000_0000 <= n <= 0x1000_0000_0000_0000_0000_0000_0000,
        d <= 0x1000_0000_0000_0000_0000_0000_0000,
    ensures
        r == round_div(n as int, d as int),
        -2 * (if n < 0 { -n } else { n as int }) - d <= r <= 2 * (if n < 0 { -n } else { n as int }) + d,
{
    floor_div_i128(2 * n + d, 2 * d)
}

} // verus!

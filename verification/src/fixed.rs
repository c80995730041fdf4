//! Exact decimal arithmetic on whole numbers of millionths.
//!
//! Every length, coordinate and tolerance of the library is a signed count of
//! millionths of the session's unit. Quotients are floored; square roots are
//! floored unless a function says that it rounds.

use vstd::prelude::*;
use vstd::arithmetic::div_mod::lemma_fundamental_div_mod;
use vstd::arithmetic::div_mod::lemma_fundamental_div_mod_converse;

verus! {

/// Raw steps in one unit.
pub const SCALE: i64 = 1_000_000;

/// Largest magnitude of a coordinate, a length or a tolerance: a million units.
pub const LENGTH_MAX: i64 = 1_000_000_000_000;

/// Magnitude of a whole number.
pub open spec fn abs(x: int) -> int {
    if x < 0 {
        -x
    } else {
        x
    }
}

/// `r` is the largest whole number whose square does not exceed `x`.
pub open spec fn is_sqrt_floor(x: nat, r: nat) -> bool {
    r * r <= x < (r + 1) * (r + 1)
}

/// The largest `r` with `r * r <= x`.
pub open spec fn sqrt_floor(x: nat) -> nat {
    choose|r: nat| is_sqrt_floor(x, r)
}

/// `n / d` rounded to the nearest whole number, halves upwards.
pub open spec fn round_div(n: int, d: int) -> int {
    (2 * n + d) / (2 * d)
}

/// The floored root is the only whole number between whose square and the
/// square of the next the number lies.
pub proof fn lemma_sqrt_floor_unique(x: nat, r: nat)
    requires
        r * r <= x < (r + 1) * (r + 1),
    ensures
        sqrt_floor(x) == r,
{
    assert(is_sqrt_floor(x, r));
    let s = sqrt_floor(x);
    assert(is_sqrt_floor(x, s));
    if s < r {
        assert((s + 1) * (s + 1) <= r * r) by (nonlinear_arith)
            requires
                s + 1 <= r,
        ;
    }
    if r < s {
        assert((r + 1) * (r + 1) <= s * s) by (nonlinear_arith)
            requires
                r + 1 <= s,
        ;
    }
}

/// The number lies between the square of its floored root and the square of
/// the next whole number.
pub proof fn lemma_sqrt_floor(x: nat)
    ensures
        sqrt_floor(x) * sqrt_floor(x) <= x < (sqrt_floor(x) + 1) * (sqrt_floor(x) + 1),
    decreases x,
{
    if x == 0 {
        assert(0 * 0 <= x < (0 + 1) * (0 + 1)) by (nonlinear_arith)
            requires
                x == 0,
        ;
        assert(is_sqrt_floor(x, 0));
    } else {
        lemma_sqrt_floor((x - 1) as nat);
        let r = sqrt_floor((x - 1) as nat);
        if x < (r + 1) * (r + 1) {
            assert(is_sqrt_floor(x, r));
        } else {
            let t = r + 1;
            assert(x == t * t);
            assert(t * t < (t + 1) * (t + 1)) by (nonlinear_arith);
            assert(is_sqrt_floor(x, t));
        }
    }
}

/// The floored root of the larger number is not the smaller.
pub proof fn lemma_sqrt_floor_monotone(x: nat, y: nat)
    requires
        x <= y,
    ensures
        sqrt_floor(x) <= sqrt_floor(y),
{
    lemma_sqrt_floor(x);
    lemma_sqrt_floor(y);
    let a = sqrt_floor(x);
    let b = sqrt_floor(y);
    if b < a {
        assert((b + 1) * (b + 1) <= a * a) by (nonlinear_arith)
            requires
                b + 1 <= a,
        ;
    }
}

/// The floored root of a number up to a square is at most the root of that
/// square.
pub proof fn lemma_sqrt_floor_at_most(x: nat, bound: nat)
    requires
        x <= bound * bound,
    ensures
        sqrt_floor(x) <= bound,
{
    assert(bound * bound < (bound + 1) * (bound + 1)) by (nonlinear_arith);
    assert(is_sqrt_floor(bound * bound, bound));
    lemma_sqrt_floor_unique(bound * bound, bound);
    lemma_sqrt_floor_monotone(x, bound * bound);
}

/// The rounded quotient of a multiple of the divisor is the exact quotient.
pub proof fn lemma_round_div_is_exact(k: int, d: int)
    requires
        d > 0,
    ensures
        round_div(k * d, d) == k,
{
    let x = 2 * (k * d) + d;
    let m = 2 * d;
    assert(x == k * m + d) by (nonlinear_arith)
        requires
            x == 2 * (k * d) + d,
            m == 2 * d,
    ;
    lemma_fundamental_div_mod_converse(x, m, k, d);
}

/// A rounded quotient is no further from zero than the bound of the exact one.
pub proof fn lemma_round_div_bounds(n: int, d: int, k: int)
    requires
        d > 0,
        k >= 0,
        -(k * d) <= n <= k * d,
    ensures
        -k <= round_div(n, d) <= k,
{
    let q = round_div(n, d);
    let m = 2 * d;
    let x = 2 * n + d;
    lemma_fundamental_div_mod(x, m);
    vstd::arithmetic::div_mod::lemma_mod_bound(x, m);
    let r = x % m;
    assert(q == x / m);
    assert(x == m * q + r);
    let kd = k * d;
    if q > k {
        assert(m * q >= m * (k + 1)) by (nonlinear_arith)
            requires
                q >= k + 1,
                m > 0,
        ;
        assert(m * (k + 1) == 2 * kd + 2 * d) by (nonlinear_arith)
            requires
                m == 2 * d,
                kd == k * d,
        ;
        assert(false);
    }
    if q < -k {
        assert(m * q <= m * (-k - 1)) by (nonlinear_arith)
            requires
                q <= -k - 1,
                m > 0,
        ;
        assert(m * (-k - 1) == -(2 * kd) - 2 * d) by (nonlinear_arith)
            requires
                m == 2 * d,
                kd == k * d,
        ;
        assert(false);
    }
}

/// Floored square root of a 128-bit number.
pub fn int_sqrt(x: u128) -> (r: u64)
    ensures
        r == sqrt_floor(x as nat),
{
    let mut lo: u128 = 0;
    let mut hi: u128 = 0x1_0000_0000_0000_0000;
    assert(hi * hi > x) by (nonlinear_arith)
        requires
            hi == 0x1_0000_0000_0000_0000u128,
            x <= u128::MAX,
    ;
    while hi - lo > 1
        invariant
            lo < hi <= 0x1_0000_0000_0000_0000,
            lo * lo <= x,
            x < hi * hi,
        decreases hi - lo,
    {
        let mid: u128 = lo + (hi - lo) / 2;
        assert(mid * mid <= u128::MAX) by (nonlinear_arith)
            requires
                mid <= 0xffff_ffff_ffff_ffffu128,
        ;
        if mid * mid <= x {
            lo = mid;
        } else {
            hi = mid;
        }
    }
    proof {
        assert(hi == lo + 1);
        lemma_sqrt_floor_unique(x as nat, lo as nat);
    }
    lo as u64
}

/// Floored quotient of a signed number by a positive one.
pub fn div_floor(n: i128, d: i128) -> (q: i128)
    requires
        d > 0,
    ensures
        q == n as int / d as int,
{
    if n >= 0 {
        let q: u128 = (n as u128) / (d as u128);
        q as i128
    } else {
        let m: u128 = (-(n + 1)) as u128;
        let k: u128 = m / (d as u128);
        let r: u128 = m % (d as u128);
        proof {
            lemma_fundamental_div_mod(m as int, d as int);
            let q0: int = -1 - (k as int);
            let r0: int = d - 1 - (r as int);
            assert(n as int == q0 * d + r0) by (nonlinear_arith)
                requires
                    m as int == d * (m as int / d as int) + (m as int % d as int),
                    k as int == m as int / d as int,
                    r as int == m as int % d as int,
                    n as int == -(m as int) - 1,
                    q0 == -1 - (k as int),
                    r0 == d - 1 - (r as int),
            ;
            lemma_fundamental_div_mod_converse(n as int, d as int, q0, r0);
        }
        -1 - (k as i128)
    }
}

/// Ten to the power `n`.
pub open spec fn pow10(n: nat) -> int
    decreases n,
{
    if n == 0 {
        1
    } else {
        10 * pow10((n - 1) as nat)
    }
}

/// Ten to a power is at least one.
pub proof fn lemma_pow10_positive(n: nat)
    ensures
        pow10(n) >= 1,
    decreases n,
{
    if n > 0 {
        lemma_pow10_positive((n - 1) as nat);
    }
}

/// Ten to a sum of powers is the product of the powers.
pub proof fn lemma_pow10_adds(a: nat, b: nat)
    ensures
        pow10(a + b) == pow10(a) * pow10(b),
    decreases b,
{
    if b == 0 {
        assert(pow10(a) * pow10(0) == pow10(a)) by (nonlinear_arith)
            requires
                pow10(0) == 1,
        ;
    } else {
        lemma_pow10_adds(a, (b - 1) as nat);
        assert(pow10(a + b) == 10 * pow10((a + b - 1) as nat));
        assert(pow10(a) * pow10(b) == 10 * (pow10(a) * pow10((b - 1) as nat)))
            by (nonlinear_arith)
            requires
                pow10(b) == 10 * pow10((b - 1) as nat),
        ;
    }
}

/// A higher power of ten is no less.
pub proof fn lemma_pow10_grows(a: nat, b: nat)
    requires
        a <= b,
    ensures
        pow10(a) <= pow10(b),
    decreases b - a,
{
    if a < b {
        lemma_pow10_grows(a, (b - 1) as nat);
        lemma_pow10_positive((b - 1) as nat);
    }
}

/// The floored quotient of `x` times ten to the power `digits` by `d`, where
/// it is at most `limit`. The product itself need not fit: the quotient is
/// found digit by digit.
pub fn scaled_quotient(x: u128, digits: u32, d: u128, limit: u128) -> (r: Option<u128>)
    requires
        0 < d <= 0x1999_9999_9999_9999_9999_9999_9999_9999,
        limit <= 0x1999_9999_9999_9999_9999_9999_9999_9998,
    ensures
        r == (if (x * pow10(digits as nat)) / (d as int) <= limit {
            Some(((x * pow10(digits as nat)) / (d as int)) as u128)
        } else {
            None
        }),
{
    let mut q: u128 = x / d;
    let mut rest: u128 = x % d;
    let mut k: u32 = 0;
    proof {
        lemma_fundamental_div_mod(x as int, d as int);
        assert(x * pow10(0) == x) by (nonlinear_arith)
            requires
                pow10(0) == 1,
        ;
        assert(d * q == q * d) by (nonlinear_arith);
    }
    if q > limit {
        proof {
            lemma_quotient_grows(x as int, d as int, q as int, rest as int, 0, digits as nat);
        }
        return None;
    }
    while k < digits
        invariant
            k <= digits,
            0 < d <= 0x1999_9999_9999_9999_9999_9999_9999_9999,
            limit <= 0x1999_9999_9999_9999_9999_9999_9999_9998,
            x * pow10(k as nat) == q * d + rest,
            rest < d,
            q <= limit,
        decreases digits - k,
    {
        let wide: u128 = rest * 10;
        let digit: u128 = wide / d;
        let next_rest: u128 = wide % d;
        proof {
            lemma_fundamental_div_mod(wide as int, d as int);
            assert(d * digit == digit * d) by (nonlinear_arith);
            assert(digit <= 9) by {
                if digit >= 10 {
                    assert(digit * d >= 10 * d) by (nonlinear_arith)
                        requires
                            digit >= 10,
                            d > 0,
                    ;
                }
            }
            assert(x * pow10((k + 1) as nat) == (q * 10 + digit) * d + next_rest)
                by (nonlinear_arith)
                requires
                    pow10((k + 1) as nat) == 10 * pow10(k as nat),
                    x * pow10(k as nat) == q * d + rest,
                    rest * 10 == digit * d + next_rest,
            ;
        }
        let next: u128 = q * 10 + digit;
        if next > limit {
            proof {
                lemma_quotient_grows(
                    x as int,
                    d as int,
                    next as int,
                    next_rest as int,
                    (k + 1) as nat,
                    digits as nat,
                );
            }
            return None;
        }
        q = next;
        rest = next_rest;
        k = k + 1;
    }
    proof {
        lemma_fundamental_div_mod_converse(
            x * pow10(digits as nat),
            d as int,
            q as int,
            rest as int,
        );
    }
    Some(q)
}

/// Where `x` times ten to the power `k` is `q` times `d` and a rest below
/// `d`, the quotient of `x` times a higher power of ten by `d` is at least
/// `q`.
pub proof fn lemma_quotient_grows(x: int, d: int, q: int, rest: int, k: nat, digits: nat)
    requires
        d > 0,
        q >= 0,
        0 <= rest < d,
        k <= digits,
        x * pow10(k) == q * d + rest,
    ensures
        (x * pow10(digits)) / d >= q,
    decreases digits - k,
{
    if k == digits {
        lemma_fundamental_div_mod_converse(x * pow10(k), d, q, rest);
    } else {
        let q10 = (rest * 10) / d;
        let r10 = (rest * 10) % d;
        lemma_fundamental_div_mod(rest * 10, d);
        vstd::arithmetic::div_mod::lemma_mod_bound(rest * 10, d);
        vstd::arithmetic::div_mod::lemma_div_pos_is_pos(rest * 10, d);
        assert(x * pow10(k + 1) == (q * 10 + q10) * d + r10) by (nonlinear_arith)
            requires
                pow10(k + 1) == 10 * pow10(k),
                x * pow10(k) == q * d + rest,
                rest * 10 == d * q10 + r10,
        ;
        lemma_quotient_grows(x, d, q * 10 + q10, r10, k + 1, digits);
    }
}

} // verus!

//! Vectors and placements in millionths.
//!
//! A vector is three coordinates in millionths of a unit; a direction of
//! length one has the length `SCALE`. A placement is a matrix of four columns
//! of four entries, column after column: the three axes and the origin.

use vstd::prelude::*;
use crate::fixed::SCALE;
use crate::fixed::abs;
use crate::fixed::LENGTH_MAX;
use crate::fixed::div_floor;
use crate::fixed::int_sqrt;
use crate::fixed::round_div;
use crate::fixed::sqrt_floor;
use crate::fixed::lemma_sqrt_floor;
use crate::fixed::lemma_sqrt_floor_at_most;
use crate::fixed::lemma_round_div_bounds;
use vstd::arithmetic::div_mod::lemma_div_is_ordered;
use vstd::arithmetic::div_mod::lemma_div_pos_is_pos;
use vstd::arithmetic::div_mod::lemma_fundamental_div_mod;

verus! {

/// Largest magnitude of a coordinate that `normalize` takes: five million units.
pub const NORMALIZE_MAX: i64 = 5_000_000_000_000;

/// Largest magnitude of an entry of the axes of a placement: a thousand.
pub const AXIS_MAX: i64 = 1_000_000_000;

/// Largest magnitude of a coordinate of a point that a placement has moved.
pub const WORLD_MAX: i64 = 4_000_000_000_000_000;

/// Every coordinate of `v` is at most `bound` in magnitude.
pub open spec fn within(v: [i64; 3], bound: int) -> bool {
    &&& -bound <= v[0] <= bound
    &&& -bound <= v[1] <= bound
    &&& -bound <= v[2] <= bound
}

/// Scalar product of the coordinates, exact.
pub open spec fn dot_exact(a: [i64; 3], b: [i64; 3]) -> int {
    a[0] * b[0] + a[1] * b[1] + a[2] * b[2]
}

/// Vector product of the coordinates, exact.
pub open spec fn cross_exact(a: [i64; 3], b: [i64; 3]) -> (int, int, int) {
    (a[1] * b[2] - a[2] * b[1], a[2] * b[0] - a[0] * b[2], a[0] * b[1] - a[1] * b[0])
}

/// Vector product of two vectors in millionths, each coordinate rounded.
pub open spec fn cross_spec(a: [i64; 3], b: [i64; 3]) -> [i64; 3] {
    let c = cross_exact(a, b);
    [
        round_div(c.0, SCALE as int) as i64,
        round_div(c.1, SCALE as int) as i64,
        round_div(c.2, SCALE as int) as i64,
    ]
}

/// Scalar product of two vectors in millionths, rounded.
pub open spec fn dot_spec(a: [i64; 3], b: [i64; 3]) -> int {
    round_div(dot_exact(a, b), SCALE as int)
}

/// Magnitude of a coordinate of the direction of length one: `SCALE` times
/// `c` over the length whose square is `norm2`, rounded to the nearest whole
/// number. The floored root of four times the square, plus one, halved, is
/// that rounding.
pub open spec fn unit_magnitude(c: int, norm2: int) -> int {
    (sqrt_floor(((4 * (c * c) * (SCALE * SCALE)) / norm2) as nat) as int + 1) / 2
}

/// One coordinate of the direction of length one, with the sign of `c`.
pub open spec fn unit_component(c: int, norm2: int) -> int {
    if c < 0 {
        -unit_magnitude(c, norm2)
    } else {
        unit_magnitude(c, norm2)
    }
}

/// The direction of `v` with length one; `v` itself where its length is zero.
pub open spec fn normalize_spec(v: [i64; 3]) -> [i64; 3] {
    let norm2 = dot_exact(v, v);
    if norm2 == 0 {
        v
    } else {
        [
            unit_component(v[0] as int, norm2) as i64,
            unit_component(v[1] as int, norm2) as i64,
            unit_component(v[2] as int, norm2) as i64,
        ]
    }
}

/// The placement that moves nothing.
pub open spec fn identity_spec() -> [i64; 16] {
    [
        SCALE,
        0,
        0,
        0,
        0,
        SCALE,
        0,
        0,
        0,
        0,
        SCALE,
        0,
        0,
        0,
        0,
        SCALE,
    ]
}

/// The placement that moves nothing.
pub fn identity_matrix() -> (m: [i64; 16])
    ensures
        m == identity_spec(),
{
    [SCALE, 0, 0, 0, 0, SCALE, 0, 0, 0, 0, SCALE, 0, 0, 0, 0, SCALE]
}

proof fn lemma_product_bound(a: int, b: int, m: int, k: int)
    requires
        -m <= a <= m,
        -k <= b <= k,
    ensures
        -(m * k) <= a * b <= m * k,
{
    assert(-(m * k) <= a * b <= m * k) by (nonlinear_arith)
        requires
            -m <= a <= m,
            -k <= b <= k,
    ;
}

/// `n` over `SCALE`, rounded.
fn scale_down(n: i128) -> (r: i64)
    requires
        -9_000_000_000_000_000_000_000_000 <= n <= 9_000_000_000_000_000_000_000_000,
    ensures
        r == round_div(n as int, SCALE as int),
        2_000_000 * r <= 2 * n + 1_000_000 < 2_000_000 * r + 2_000_000,
{
    let q = div_floor(2 * n + 1_000_000, 2_000_000);
    q as i64
}

/// Vector product in millionths.
pub fn cross(a: &[i64; 3], b: &[i64; 3]) -> (r: [i64; 3])
    requires
        within(*a, LENGTH_MAX as int),
        within(*b, LENGTH_MAX as int),
    ensures
        r == cross_spec(*a, *b),
{
    proof {
        lemma_product_bound(a[1] as int, b[2] as int, LENGTH_MAX as int, LENGTH_MAX as int);
        lemma_product_bound(a[2] as int, b[1] as int, LENGTH_MAX as int, LENGTH_MAX as int);
        lemma_product_bound(a[2] as int, b[0] as int, LENGTH_MAX as int, LENGTH_MAX as int);
        lemma_product_bound(a[0] as int, b[2] as int, LENGTH_MAX as int, LENGTH_MAX as int);
        lemma_product_bound(a[0] as int, b[1] as int, LENGTH_MAX as int, LENGTH_MAX as int);
        lemma_product_bound(a[1] as int, b[0] as int, LENGTH_MAX as int, LENGTH_MAX as int);
        assert(LENGTH_MAX * LENGTH_MAX == 1_000_000_000_000_000_000_000_000) by (nonlinear_arith)
            requires
                LENGTH_MAX == 1_000_000_000_000,
        ;
    }
    let x: i128 = (a[1] as i128) * (b[2] as i128) - (a[2] as i128) * (b[1] as i128);
    let y: i128 = (a[2] as i128) * (b[0] as i128) - (a[0] as i128) * (b[2] as i128);
    let z: i128 = (a[0] as i128) * (b[1] as i128) - (a[1] as i128) * (b[0] as i128);
    [scale_down(x), scale_down(y), scale_down(z)]
}

/// Scalar product in millionths.
pub fn dot(a: &[i64; 3], b: &[i64; 3]) -> (r: i64)
    requires
        within(*a, LENGTH_MAX as int),
        within(*b, LENGTH_MAX as int),
    ensures
        r == dot_spec(*a, *b),
{
    proof {
        lemma_product_bound(a[0] as int, b[0] as int, LENGTH_MAX as int, LENGTH_MAX as int);
        lemma_product_bound(a[1] as int, b[1] as int, LENGTH_MAX as int, LENGTH_MAX as int);
        lemma_product_bound(a[2] as int, b[2] as int, LENGTH_MAX as int, LENGTH_MAX as int);
        assert(LENGTH_MAX * LENGTH_MAX == 1_000_000_000_000_000_000_000_000) by (nonlinear_arith)
            requires
                LENGTH_MAX == 1_000_000_000_000,
        ;
    }
    let sum: i128 = (a[0] as i128) * (b[0] as i128) + (a[1] as i128) * (b[1] as i128) + (
    a[2] as i128) * (b[2] as i128);
    scale_down(sum)
}

/// The rounded coordinate `r` of a direction of length one lies within half a
/// step of the exact one: `(2r - 1)^2 <= 4 c^2 SCALE^2 / norm2 < (2r + 1)^2`,
/// the first where `r` is not zero; and `r` is at most `SCALE`.
pub proof fn lemma_unit_magnitude(c: int, norm2: int)
    requires
        norm2 > 0,
        c * c <= norm2,
    ensures
        0 <= unit_magnitude(c, norm2) <= SCALE,
        4 * unit_magnitude(c, norm2) * (unit_magnitude(c, norm2) - 1) * norm2 <= 4 * (c * c) * (
        SCALE * SCALE),
        4 * (c * c) * (SCALE * SCALE) < (2 * unit_magnitude(c, norm2) + 1) * (2 * unit_magnitude(
            c,
            norm2,
        ) + 1) * norm2,
{
    let a = 4 * (c * c) * (SCALE * SCALE);
    assert(c * c >= 0) by (nonlinear_arith);
    assert(SCALE * SCALE == 1_000_000_000_000) by (nonlinear_arith)
        requires
            SCALE == 1_000_000,
    ;
    assert(0 <= a <= 4_000_000_000_000 * norm2) by (nonlinear_arith)
        requires
            0 <= c * c <= norm2,
            a == 4 * (c * c) * 1_000_000_000_000,
    ;
    let q = a / norm2;
    lemma_fundamental_div_mod(a, norm2);
    lemma_div_pos_is_pos(a, norm2);
    lemma_div_is_ordered(a, 4_000_000_000_000 * norm2, norm2);
    vstd::arithmetic::div_mod::lemma_div_multiples_vanish(4_000_000_000_000, norm2);
    assert(4_000_000_000_000 * norm2 == norm2 * 4_000_000_000_000);
    assert(0 <= q <= 4_000_000_000_000);
    assert(q * norm2 <= a < (q + 1) * norm2) by (nonlinear_arith)
        requires
            a == norm2 * q + a % norm2,
            0 <= a % norm2 < norm2,
    ;
    lemma_sqrt_floor(q as nat);
    lemma_sqrt_floor_at_most(q as nat, 2_000_000);
    let t = sqrt_floor(q as nat) as int;
    let r = (t + 1) / 2;
    assert(r == unit_magnitude(c, norm2));
    assert(2 * r - 1 <= t <= 2 * r);
    // upper side
    assert((2 * r + 1) * (2 * r + 1) >= (t + 1) * (t + 1)) by (nonlinear_arith)
        requires
            2 * r + 1 >= t + 1,
            t >= 0,
    ;
    assert((2 * r + 1) * (2 * r + 1) * norm2 >= (q + 1) * norm2) by (nonlinear_arith)
        requires
            (2 * r + 1) * (2 * r + 1) >= q + 1,
            norm2 > 0,
    ;
    // lower side
    if r >= 1 {
        assert((2 * r - 1) * (2 * r - 1) <= t * t) by (nonlinear_arith)
            requires
                0 <= 2 * r - 1 <= t,
        ;
        assert(4 * r * (r - 1) <= (2 * r - 1) * (2 * r - 1)) by (nonlinear_arith);
        assert(4 * r * (r - 1) * norm2 <= q * norm2) by (nonlinear_arith)
            requires
                4 * r * (r - 1) <= q,
                norm2 > 0,
        ;
    } else {
        assert(4 * r * (r - 1) * norm2 == 0) by (nonlinear_arith)
            requires
                r == 0,
        ;
    }
}

/// One coordinate of the direction of length one.
fn unit_coordinate(c: i64, norm2: u128) -> (r: i64)
    requires
        -NORMALIZE_MAX <= c <= NORMALIZE_MAX,
        norm2 > 0,
        c * c <= norm2,
    ensures
        r == unit_component(c as int, norm2 as int),
        -SCALE <= r <= SCALE,
{
    let a: u128 = if c < 0 {
        (-c) as u128
    } else {
        c as u128
    };
    proof {
        assert(a * a == c * c) by (nonlinear_arith)
            requires
                a == c || a == -c,
        ;
        assert(a * a <= 25_000_000_000_000_000_000_000_000) by (nonlinear_arith)
            requires
                0 <= a <= 5_000_000_000_000,
        ;
        assert(SCALE * SCALE == 1_000_000_000_000) by (nonlinear_arith)
            requires
                SCALE == 1_000_000,
        ;
        assert(4 * (a * a) * 1_000_000_000_000
            <= 100_000_000_000_000_000_000_000_000_000_000_000_000) by (nonlinear_arith)
            requires
                0 <= a * a <= 25_000_000_000_000_000_000_000_000,
        ;
        lemma_unit_magnitude(c as int, norm2 as int);
    }
    let num: u128 = 4 * (a * a) * 1_000_000_000_000;
    let q: u128 = num / norm2;
    let t: u64 = int_sqrt(q);
    let r: i64 = ((t as u128 + 1) / 2) as i64;
    if c < 0 {
        -r
    } else {
        r
    }
}

/// The direction of `v` with length one; `v` itself where its length is zero.
pub fn normalize(v: &[i64; 3]) -> (r: [i64; 3])
    requires
        within(*v, NORMALIZE_MAX as int),
    ensures
        r == normalize_spec(*v),
        within(r, SCALE as int),
{
    let x: i128 = v[0] as i128;
    let y: i128 = v[1] as i128;
    let z: i128 = v[2] as i128;
    proof {
        lemma_product_bound(x as int, x as int, NORMALIZE_MAX as int, NORMALIZE_MAX as int);
        lemma_product_bound(y as int, y as int, NORMALIZE_MAX as int, NORMALIZE_MAX as int);
        lemma_product_bound(z as int, z as int, NORMALIZE_MAX as int, NORMALIZE_MAX as int);
        assert(NORMALIZE_MAX * NORMALIZE_MAX == 25_000_000_000_000_000_000_000_000)
            by (nonlinear_arith)
            requires
                NORMALIZE_MAX == 5_000_000_000_000,
        ;
        assert(x * x >= 0 && y * y >= 0 && z * z >= 0) by (nonlinear_arith);
    }
    let norm2: u128 = (x * x + y * y + z * z) as u128;
    if norm2 == 0 {
        assert(x == 0 && y == 0 && z == 0) by (nonlinear_arith)
            requires
                x * x + y * y + z * z == 0,
        ;
        return *v;
    }
    [unit_coordinate(v[0], norm2), unit_coordinate(v[1], norm2), unit_coordinate(v[2], norm2)]
}

/// A direction that `normalize` has given length one has it within one
/// millionth: the square of its length lies between the squares of
/// `SCALE - 1` and `SCALE + 1`.
pub proof fn lemma_normalized_length(v: [i64; 3])
    requires
        dot_exact(v, v) > 0,
    ensures
        (SCALE - 1) * (SCALE - 1) <= dot_exact(normalize_spec(v), normalize_spec(v)) <= (SCALE + 1)
            * (SCALE + 1),
{
    let n2 = dot_exact(v, v);
    let c0 = v[0] as int;
    let c1 = v[1] as int;
    let c2 = v[2] as int;
    assert(c0 * c0 >= 0 && c1 * c1 >= 0 && c2 * c2 >= 0) by (nonlinear_arith);
    lemma_unit_magnitude(c0, n2);
    lemma_unit_magnitude(c1, n2);
    lemma_unit_magnitude(c2, n2);
    let r0 = unit_magnitude(c0, n2);
    let r1 = unit_magnitude(c1, n2);
    let r2 = unit_magnitude(c2, n2);
    let u = normalize_spec(v);
    assert(u[0] == unit_component(c0, n2));
    assert(u[1] == unit_component(c1, n2));
    assert(u[2] == unit_component(c2, n2));
    assert(u[0] * u[0] == r0 * r0) by (nonlinear_arith)
        requires
            u[0] == r0 || u[0] == -r0,
    ;
    assert(u[1] * u[1] == r1 * r1) by (nonlinear_arith)
        requires
            u[1] == r1 || u[1] == -r1,
    ;
    assert(u[2] * u[2] == r2 * r2) by (nonlinear_arith)
        requires
            u[2] == r2 || u[2] == -r2,
    ;
    let t = r0 * r0 + r1 * r1 + r2 * r2;
    let s = r0 + r1 + r2;
    let ss = SCALE * SCALE;
    assert(ss == 1_000_000_000_000) by (nonlinear_arith)
        requires
            ss == SCALE * SCALE,
            SCALE == 1_000_000,
    ;
    let a0 = 4 * (c0 * c0) * ss;
    let a1 = 4 * (c1 * c1) * ss;
    let a2 = 4 * (c2 * c2) * ss;
    assert(a0 + a1 + a2 == 4 * ss * n2) by (nonlinear_arith)
        requires
            a0 == 4 * (c0 * c0) * ss,
            a1 == 4 * (c1 * c1) * ss,
            a2 == 4 * (c2 * c2) * ss,
            n2 == c0 * c0 + c1 * c1 + c2 * c2,
    ;
    // the sum of the lower sides
    let l0 = 4 * r0 * (r0 - 1);
    let l1 = 4 * r1 * (r1 - 1);
    let l2 = 4 * r2 * (r2 - 1);
    assert((l0 + l1 + l2) * n2 == l0 * n2 + l1 * n2 + l2 * n2) by (nonlinear_arith);
    assert((l0 + l1 + l2) * n2 <= 4 * ss * n2);
    assert(l0 + l1 + l2 <= 4 * ss) by (nonlinear_arith)
        requires
            (l0 + l1 + l2) * n2 <= 4 * ss * n2,
            n2 > 0,
    ;
    assert(l0 + l1 + l2 == 4 * t - 4 * s) by (nonlinear_arith)
        requires
            l0 == 4 * r0 * (r0 - 1),
            l1 == 4 * r1 * (r1 - 1),
            l2 == 4 * r2 * (r2 - 1),
            t == r0 * r0 + r1 * r1 + r2 * r2,
            s == r0 + r1 + r2,
    ;
    // the sum of the upper sides
    let h0 = (2 * r0 + 1) * (2 * r0 + 1);
    let h1 = (2 * r1 + 1) * (2 * r1 + 1);
    let h2 = (2 * r2 + 1) * (2 * r2 + 1);
    assert((h0 + h1 + h2) * n2 == h0 * n2 + h1 * n2 + h2 * n2) by (nonlinear_arith);
    assert((h0 + h1 + h2) * n2 > 4 * ss * n2);
    assert(h0 + h1 + h2 > 4 * ss) by (nonlinear_arith)
        requires
            (h0 + h1 + h2) * n2 > 4 * ss * n2,
            n2 > 0,
    ;
    assert(h0 + h1 + h2 == 4 * t + 4 * s + 3) by (nonlinear_arith)
        requires
            h0 == (2 * r0 + 1) * (2 * r0 + 1),
            h1 == (2 * r1 + 1) * (2 * r1 + 1),
            h2 == (2 * r2 + 1) * (2 * r2 + 1),
            t == r0 * r0 + r1 * r1 + r2 * r2,
            s == r0 + r1 + r2,
    ;
    // t - s <= ss <= t + s, and s is below twice the scale
    assert(t - s <= ss <= t + s);
    assert(0 <= s <= 3_000_000);
    assert(s * s <= 3 * t) by (nonlinear_arith)
        requires
            s == r0 + r1 + r2,
            t == r0 * r0 + r1 * r1 + r2 * r2,
    ;
    if s >= 2_000_000 {
        assert(s * s >= 2_000_000 * s) by (nonlinear_arith)
            requires
                s >= 2_000_000,
        ;
    }
    assert(s < 2_000_000);
    assert((SCALE - 1) * (SCALE - 1) == ss - 2 * SCALE + 1) by (nonlinear_arith)
        requires
            ss == SCALE * SCALE,
    ;
    assert((SCALE + 1) * (SCALE + 1) == ss + 2 * SCALE + 1) by (nonlinear_arith)
        requires
            ss == SCALE * SCALE,
    ;
    assert(dot_exact(u, u) == t);
}

/// The axes of the placement are within `AXIS_MAX` and its origin is within
/// `LENGTH_MAX`.
pub open spec fn placement_in_range(m: [i64; 16]) -> bool {
    &&& -AXIS_MAX <= m[0] <= AXIS_MAX && -AXIS_MAX <= m[1] <= AXIS_MAX && -AXIS_MAX <= m[2]
        <= AXIS_MAX
    &&& -AXIS_MAX <= m[4] <= AXIS_MAX && -AXIS_MAX <= m[5] <= AXIS_MAX && -AXIS_MAX <= m[6]
        <= AXIS_MAX
    &&& -AXIS_MAX <= m[8] <= AXIS_MAX && -AXIS_MAX <= m[9] <= AXIS_MAX && -AXIS_MAX <= m[10]
        <= AXIS_MAX
    &&& -LENGTH_MAX <= m[12] <= LENGTH_MAX && -LENGTH_MAX <= m[13] <= LENGTH_MAX && -LENGTH_MAX
        <= m[14] <= LENGTH_MAX
}

/// Whether the placement is within what the arithmetic can hold.
pub fn check_placement(m: &[i64; 16]) -> (ok: bool)
    ensures
        ok == placement_in_range(*m),
{
    let axes_ok = -AXIS_MAX <= m[0] && m[0] <= AXIS_MAX && -AXIS_MAX <= m[1] && m[1] <= AXIS_MAX
        && -AXIS_MAX <= m[2] && m[2] <= AXIS_MAX && -AXIS_MAX <= m[4] && m[4] <= AXIS_MAX
        && -AXIS_MAX <= m[5] && m[5] <= AXIS_MAX && -AXIS_MAX <= m[6] && m[6] <= AXIS_MAX
        && -AXIS_MAX <= m[8] && m[8] <= AXIS_MAX && -AXIS_MAX <= m[9] && m[9] <= AXIS_MAX
        && -AXIS_MAX <= m[10] && m[10] <= AXIS_MAX;
    let origin_ok = -LENGTH_MAX <= m[12] && m[12] <= LENGTH_MAX && -LENGTH_MAX <= m[13] && m[13]
        <= LENGTH_MAX && -LENGTH_MAX <= m[14] && m[14] <= LENGTH_MAX;
    axes_ok && origin_ok
}

/// The vector `v` turned by the axes of the placement, each coordinate rounded.
pub open spec fn turned(v: [i64; 3], m: [i64; 16]) -> [i64; 3] {
    [
        round_div(m[0] * v[0] + m[4] * v[1] + m[8] * v[2], SCALE as int) as i64,
        round_div(m[1] * v[0] + m[5] * v[1] + m[9] * v[2], SCALE as int) as i64,
        round_div(m[2] * v[0] + m[6] * v[1] + m[10] * v[2], SCALE as int) as i64,
    ]
}

/// The point turned by the axes of the placement and moved by its origin.
pub open spec fn transform_point_spec(point: [i64; 3], m: [i64; 16]) -> [i64; 3] {
    let t = turned(point, m);
    [(t[0] + m[12]) as i64, (t[1] + m[13]) as i64, (t[2] + m[14]) as i64]
}

/// The direction turned by the axes of the placement and given length one.
pub open spec fn transform_direction_spec(direction: [i64; 3], m: [i64; 16]) -> [i64; 3] {
    normalize_spec(turned(direction, m))
}

/// Distance of two points, floored.
pub open spec fn distance_spec(a: [i64; 3], b: [i64; 3]) -> int {
    sqrt_floor(
        ((b[0] - a[0]) * (b[0] - a[0]) + (b[1] - a[1]) * (b[1] - a[1]) + (b[2] - a[2]) * (b[2]
            - a[2])) as nat,
    ) as int
}

/// The point half way between two points, each coordinate floored.
pub open spec fn midpoint_spec(a: [i64; 3], b: [i64; 3]) -> [i64; 3] {
    [((a[0] + b[0]) / 2) as i64, ((a[1] + b[1]) / 2) as i64, ((a[2] + b[2]) / 2) as i64]
}

fn turn(v: &[i64; 3], m: &[i64; 16], bound: i64) -> (r: [i64; 3])
    requires
        placement_in_range(*m),
        within(*v, bound as int),
        0 <= bound <= LENGTH_MAX,
    ensures
        r == turned(*v, *m),
        within(r, 3_000 * bound + 1),
{
    proof {
        lemma_product_bound(m[0] as int, v[0] as int, AXIS_MAX as int, bound as int);
        lemma_product_bound(m[4] as int, v[1] as int, AXIS_MAX as int, bound as int);
        lemma_product_bound(m[8] as int, v[2] as int, AXIS_MAX as int, bound as int);
        lemma_product_bound(m[1] as int, v[0] as int, AXIS_MAX as int, bound as int);
        lemma_product_bound(m[5] as int, v[1] as int, AXIS_MAX as int, bound as int);
        lemma_product_bound(m[9] as int, v[2] as int, AXIS_MAX as int, bound as int);
        lemma_product_bound(m[2] as int, v[0] as int, AXIS_MAX as int, bound as int);
        lemma_product_bound(m[6] as int, v[1] as int, AXIS_MAX as int, bound as int);
        lemma_product_bound(m[10] as int, v[2] as int, AXIS_MAX as int, bound as int);
        assert(AXIS_MAX * bound == 1_000_000_000 * bound);
    }
    let x: i128 = (m[0] as i128) * (v[0] as i128) + (m[4] as i128) * (v[1] as i128) + (
    m[8] as i128) * (v[2] as i128);
    let y: i128 = (m[1] as i128) * (v[0] as i128) + (m[5] as i128) * (v[1] as i128) + (
    m[9] as i128) * (v[2] as i128);
    let z: i128 = (m[2] as i128) * (v[0] as i128) + (m[6] as i128) * (v[1] as i128) + (
    m[10] as i128) * (v[2] as i128);
    [scale_down(x), scale_down(y), scale_down(z)]
}

/// A point in the frame that the placement places it in.
pub fn transform_point(point: &[i64; 3], matrix: &[i64; 16]) -> (r: [i64; 3])
    requires
        within(*point, LENGTH_MAX as int),
        placement_in_range(*matrix),
    ensures
        r == transform_point_spec(*point, *matrix),
        within(r, WORLD_MAX as int),
{
    let t = turn(point, matrix, LENGTH_MAX);
    [t[0] + matrix[12], t[1] + matrix[13], t[2] + matrix[14]]
}

/// A direction in the frame that the placement places it in, with length one.
pub fn transform_direction(direction: &[i64; 3], matrix: &[i64; 16]) -> (r: [i64; 3])
    requires
        within(*direction, AXIS_MAX as int),
        placement_in_range(*matrix),
    ensures
        r == transform_direction_spec(*direction, *matrix),
        within(r, SCALE as int),
{
    let t = turn(direction, matrix, AXIS_MAX);
    normalize(&t)
}

/// Distance of two points.
pub fn vec_distance(a: &[i64; 3], b: &[i64; 3]) -> (d: i64)
    requires
        within(*a, WORLD_MAX as int),
        within(*b, WORLD_MAX as int),
    ensures
        d == distance_spec(*a, *b),
        d >= 0,
{
    let dx: i128 = (b[0] as i128) - (a[0] as i128);
    let dy: i128 = (b[1] as i128) - (a[1] as i128);
    let dz: i128 = (b[2] as i128) - (a[2] as i128);
    proof {
        lemma_product_bound(dx as int, dx as int, 2 * WORLD_MAX, 2 * WORLD_MAX);
        lemma_product_bound(dy as int, dy as int, 2 * WORLD_MAX, 2 * WORLD_MAX);
        lemma_product_bound(dz as int, dz as int, 2 * WORLD_MAX, 2 * WORLD_MAX);
        assert((2 * WORLD_MAX) * (2 * WORLD_MAX) == 64_000_000_000_000_000_000_000_000_000_000)
            by (nonlinear_arith)
            requires
                WORLD_MAX == 4_000_000_000_000_000,
        ;
        assert(dx * dx >= 0 && dy * dy >= 0 && dz * dz >= 0) by (nonlinear_arith);
        lemma_sqrt_floor_at_most((dx * dx + dy * dy + dz * dz) as nat, 14_000_000_000_000_000);
    }
    let sum: u128 = (dx * dx + dy * dy + dz * dz) as u128;
    int_sqrt(sum) as i64
}

/// The point half way between two points.
pub fn midpoint(a: &[i64; 3], b: &[i64; 3]) -> (r: [i64; 3])
    requires
        within(*a, WORLD_MAX as int),
        within(*b, WORLD_MAX as int),
    ensures
        r == midpoint_spec(*a, *b),
{
    [
        div_floor((a[0] as i128) + (b[0] as i128), 2) as i64,
        div_floor((a[1] as i128) + (b[1] as i128), 2) as i64,
        div_floor((a[2] as i128) + (b[2] as i128), 2) as i64,
    ]
}

/// Determinant of the matrix with the columns `a`, `b` and `c`.
pub open spec fn det3(a: (int, int, int), b: (int, int, int), c: (int, int, int)) -> int {
    a.0 * (b.1 * c.2 - b.2 * c.1) - a.1 * (b.0 * c.2 - b.2 * c.0) + a.2 * (b.0 * c.1 - b.1 * c.0)
}

/// The vector product `y` of `z` and `x` is at right angles to both, the
/// square of its length is the product of the squares of their lengths less
/// the square of their scalar product, and the determinant of the columns
/// `x`, `y`, `z` is the square of its length. So where `x` and `z` have length
/// one and stand at right angles, the three columns are orthonormal and their
/// determinant is plus one.
pub proof fn lemma_cross_frame(z: [i64; 3], x: [i64; 3])
    ensures
        ({
            let y = cross_exact(z, x);
            let yy = y.0 * y.0 + y.1 * y.1 + y.2 * y.2;
            &&& y.0 * z[0] + y.1 * z[1] + y.2 * z[2] == 0
            &&& y.0 * x[0] + y.1 * x[1] + y.2 * x[2] == 0
            &&& yy == dot_exact(z, z) * dot_exact(x, x) - dot_exact(z, x) * dot_exact(z, x)
            &&& det3((x[0] as int, x[1] as int, x[2] as int), y, (z[0] as int, z[1] as int, z[2] as int))
                == yy
        }),
{
    let z0 = z[0] as int;
    let z1 = z[1] as int;
    let z2 = z[2] as int;
    let x0 = x[0] as int;
    let x1 = x[1] as int;
    let x2 = x[2] as int;
    let a00 = z0 * x0;
    let a01 = z0 * x1;
    let a02 = z0 * x2;
    let a10 = z1 * x0;
    let a11 = z1 * x1;
    let a12 = z1 * x2;
    let a20 = z2 * x0;
    let a21 = z2 * x1;
    let a22 = z2 * x2;
    let y0 = a12 - a21;
    let y1 = a20 - a02;
    let y2 = a01 - a10;
    // at right angles to z
    lemma_spread(a12, a21, z0);
    lemma_spread(a20, a02, z1);
    lemma_spread(a01, a10, z2);
    lemma_three(z1, x2, z0);
    lemma_three(z2, x1, z0);
    lemma_three(z2, x0, z1);
    lemma_three(z0, x2, z1);
    lemma_three(z0, x1, z2);
    lemma_three(z1, x0, z2);
    assert(y0 * z0 + y1 * z1 + y2 * z2 == 0);
    // at right angles to x
    lemma_spread(a12, a21, x0);
    lemma_spread(a20, a02, x1);
    lemma_spread(a01, a10, x2);
    lemma_three(z1, x2, x0);
    lemma_three(z2, x1, x0);
    lemma_three(z2, x0, x1);
    lemma_three(z0, x2, x1);
    lemma_three(z0, x1, x2);
    lemma_three(z1, x0, x2);
    assert(y0 * x0 + y1 * x1 + y2 * x2 == 0);
    // the square of the length
    lemma_square_of_difference(a12, a21);
    lemma_square_of_difference(a20, a02);
    lemma_square_of_difference(a01, a10);
    lemma_four(z1, x2, z2, x1);
    lemma_four(z2, x0, z0, x2);
    lemma_four(z0, x1, z1, x0);
    let zz = z0 * z0 + z1 * z1 + z2 * z2;
    let xx = x0 * x0 + x1 * x1 + x2 * x2;
    let zx = a00 + a11 + a22;
    assert(zz * xx == (z0 * z0) * xx + (z1 * z1) * xx + (z2 * z2) * xx) by (nonlinear_arith)
        requires
            zz == z0 * z0 + z1 * z1 + z2 * z2,
    ;
    lemma_row(z0, x0, x1, x2);
    lemma_row(z1, x0, x1, x2);
    lemma_row(z2, x0, x1, x2);
    assert(zx * zx == a00 * a00 + a11 * a11 + a22 * a22 + 2 * (a00 * a11) + 2 * (a00 * a22) + 2
        * (a11 * a22)) by (nonlinear_arith)
        requires
            zx == a00 + a11 + a22,
    ;
    assert(y0 * y0 + y1 * y1 + y2 * y2 == zz * xx - zx * zx);
    // the determinant
    let d0 = y1 * z2 - y2 * z1;
    let d1 = y0 * z2 - y2 * z0;
    let d2 = y0 * z1 - y1 * z0;
    lemma_spread(y1 * z2, y2 * z1, x0);
    lemma_spread(y0 * z2, y2 * z0, x1);
    lemma_spread(y0 * z1, y1 * z0, x2);
    lemma_three(y1, z2, x0);
    lemma_three(y2, z1, x0);
    lemma_three(y0, z2, x1);
    lemma_three(y2, z0, x1);
    lemma_three(y0, z1, x2);
    lemma_three(y1, z0, x2);
    lemma_spread_left(y0, a12, a21);
    lemma_spread_left(y1, a20, a02);
    lemma_spread_left(y2, a01, a10);
    assert(x0 * d0 - x1 * d1 + x2 * d2 == y0 * y0 + y1 * y1 + y2 * y2);
}

/// Where `x` and `z` have the length `SCALE` and stand at right angles, the
/// exact vector product of `z` and `x` has the length `SCALE` times `SCALE`
/// and stands at right angles to both, and the determinant of the columns
/// `x`, the product and `z` is the fourth power of `SCALE`: with the product
/// brought back to millionths the three columns are orthonormal and their
/// determinant is plus one.
pub proof fn lemma_orthonormal_frame(z: [i64; 3], x: [i64; 3])
    requires
        dot_exact(z, z) == SCALE * SCALE,
        dot_exact(x, x) == SCALE * SCALE,
        dot_exact(z, x) == 0,
    ensures
        ({
            let y = cross_exact(z, x);
            let unit = (SCALE * SCALE) * (SCALE * SCALE);
            &&& y.0 * y.0 + y.1 * y.1 + y.2 * y.2 == unit
            &&& y.0 * z[0] + y.1 * z[1] + y.2 * z[2] == 0
            &&& y.0 * x[0] + y.1 * x[1] + y.2 * x[2] == 0
            &&& det3((x[0] as int, x[1] as int, x[2] as int), y, (z[0] as int, z[1] as int, z[2] as int))
                == unit
        }),
{
    lemma_cross_frame(z, x);
    assert(dot_exact(z, x) * dot_exact(z, x) == 0) by (nonlinear_arith)
        requires
            dot_exact(z, x) == 0,
    ;
}

proof fn lemma_spread(a: int, b: int, c: int)
    ensures
        (a - b) * c == a * c - b * c,
        c * (a - b) == a * c - b * c,
{
    assert((a - b) * c == a * c - b * c) by (nonlinear_arith);
    assert(c * (a - b) == a * c - b * c) by (nonlinear_arith);
}

proof fn lemma_spread_left(y: int, a: int, b: int)
    ensures
        y * (a - b) == y * a - y * b,
{
    assert(y * (a - b) == y * a - y * b) by (nonlinear_arith);
}

proof fn lemma_three(a: int, b: int, c: int)
    ensures
        (a * b) * c == (c * b) * a,
        (a * b) * c == (a * c) * b,
        (a * b) * c == a * (b * c),
        (a * b) * c == c * (a * b),
        (a * b) * c == b * (a * c),
        (a * b) * c == (c * a) * b,
{
    assert((a * b) * c == (c * b) * a) by (nonlinear_arith);
    assert((a * b) * c == (a * c) * b) by (nonlinear_arith);
    assert((a * b) * c == a * (b * c)) by (nonlinear_arith);
    assert((a * b) * c == c * (a * b)) by (nonlinear_arith);
    assert((a * b) * c == b * (a * c)) by (nonlinear_arith);
    assert((a * b) * c == (c * a) * b) by (nonlinear_arith);
}

proof fn lemma_four(a: int, b: int, c: int, d: int)
    ensures
        (a * b) * (c * d) == (a * d) * (c * b),
{
    assert((a * b) * (c * d) == (a * d) * (c * b)) by (nonlinear_arith);
}

proof fn lemma_square_of_difference(a: int, b: int)
    ensures
        (a - b) * (a - b) == a * a - 2 * (a * b) + b * b,
{
    assert((a - b) * (a - b) == a * a - 2 * (a * b) + b * b) by (nonlinear_arith);
}

proof fn lemma_row(z: int, x0: int, x1: int, x2: int)
    ensures
        (z * z) * (x0 * x0 + x1 * x1 + x2 * x2) == (z * x0) * (z * x0) + (z * x1) * (z * x1) + (z
            * x2) * (z * x2),
{
    assert((z * z) * (x0 * x0) == (z * x0) * (z * x0)) by (nonlinear_arith);
    assert((z * z) * (x1 * x1) == (z * x1) * (z * x1)) by (nonlinear_arith);
    assert((z * z) * (x2 * x2) == (z * x2) * (z * x2)) by (nonlinear_arith);
    assert((z * z) * (x0 * x0 + x1 * x1 + x2 * x2) == (z * z) * (x0 * x0) + (z * z) * (x1 * x1)
        + (z * z) * (x2 * x2)) by (nonlinear_arith);
}

/// Each coordinate of the rounded vector product lies within half a step of
/// the exact one over `SCALE`.
pub proof fn lemma_cross_rounding(a: [i64; 3], b: [i64; 3])
    ensures
        ({
            let exact = cross_exact(a, b);
            let c = cross_exact_rounded(a, b);
            &&& -SCALE <= 2 * (SCALE * c.0 - exact.0) <= SCALE
            &&& -SCALE <= 2 * (SCALE * c.1 - exact.1) <= SCALE
            &&& -SCALE <= 2 * (SCALE * c.2 - exact.2) <= SCALE
        }),
{
}

/// The rounded vector product before it is held in sixty-four bits.
pub open spec fn cross_exact_rounded(a: [i64; 3], b: [i64; 3]) -> (int, int, int) {
    let c = cross_exact(a, b);
    (round_div(c.0, SCALE as int), round_div(c.1, SCALE as int), round_div(c.2, SCALE as int))
}

/// The direction that `normalize` gives has no coordinate beyond `SCALE`,
/// but where it is the zero vector that it was given.
pub proof fn lemma_normalize_in_range(v: [i64; 3])
    ensures
        within(normalize_spec(v), SCALE as int),
{
    let n2 = dot_exact(v, v);
    let c0 = v[0] as int;
    let c1 = v[1] as int;
    let c2 = v[2] as int;
    assert(c0 * c0 >= 0 && c1 * c1 >= 0 && c2 * c2 >= 0) by (nonlinear_arith);
    if n2 == 0 {
        assert(c0 == 0 && c1 == 0 && c2 == 0) by (nonlinear_arith)
            requires
                c0 * c0 + c1 * c1 + c2 * c2 == 0,
        ;
    } else {
        lemma_unit_magnitude(c0, n2);
        lemma_unit_magnitude(c1, n2);
        lemma_unit_magnitude(c2, n2);
    }
}

/// The vector product of two directions within `SCALE` is within `AXIS_MAX`.
pub proof fn lemma_cross_in_range(a: [i64; 3], b: [i64; 3])
    requires
        within(a, SCALE as int),
        within(b, SCALE as int),
    ensures
        within(cross_spec(a, b), AXIS_MAX as int),
{
    lemma_product_bound(a[1] as int, b[2] as int, SCALE as int, SCALE as int);
    lemma_product_bound(a[2] as int, b[1] as int, SCALE as int, SCALE as int);
    lemma_product_bound(a[2] as int, b[0] as int, SCALE as int, SCALE as int);
    lemma_product_bound(a[0] as int, b[2] as int, SCALE as int, SCALE as int);
    lemma_product_bound(a[0] as int, b[1] as int, SCALE as int, SCALE as int);
    lemma_product_bound(a[1] as int, b[0] as int, SCALE as int, SCALE as int);
    assert(SCALE * SCALE == 1_000_000_000_000) by (nonlinear_arith)
        requires
            SCALE == 1_000_000,
    ;
    let c = cross_exact(a, b);
    assert(-2_000_000_000_000 <= c.0 <= 2_000_000_000_000);
    assert(-2_000_000_000_000 <= c.1 <= 2_000_000_000_000);
    assert(-2_000_000_000_000 <= c.2 <= 2_000_000_000_000);
    lemma_round_div_bounds(c.0, 1_000_000, 2_000_000);
    lemma_round_div_bounds(c.1, 1_000_000, 2_000_000);
    lemma_round_div_bounds(c.2, 1_000_000, 2_000_000);
    let r = cross_spec(a, b);
    assert(r[0] == round_div(c.0, 1_000_000));
    assert(r[1] == round_div(c.1, 1_000_000));
    assert(r[2] == round_div(c.2, 1_000_000));
}

/// The scalar product of two directions within `SCALE` is within three
/// times `SCALE`.
pub proof fn lemma_dot_in_range(a: [i64; 3], b: [i64; 3])
    requires
        within(a, SCALE as int),
        within(b, SCALE as int),
    ensures
        -3 * SCALE <= dot_spec(a, b) <= 3 * SCALE,
{
    lemma_product_bound(a[0] as int, b[0] as int, SCALE as int, SCALE as int);
    lemma_product_bound(a[1] as int, b[1] as int, SCALE as int, SCALE as int);
    lemma_product_bound(a[2] as int, b[2] as int, SCALE as int, SCALE as int);
    assert(SCALE * SCALE == 1_000_000_000_000) by (nonlinear_arith)
        requires
            SCALE == 1_000_000,
    ;
    lemma_round_div_bounds(dot_exact(a, b), 1_000_000, 3_000_000);
}

/// The rounded vector product stands at right angles to both of its
/// factors within a millionth: twice its scalar product with a factor is at
/// most the sum of the magnitudes of the coordinates of that factor, so four
/// times the square of the scalar product is at most three times the square
/// of the length of the factor. For a factor of length `SCALE` the cosine is
/// below 0.87 millionths.
pub proof fn lemma_rounded_cross_is_perpendicular(z: [i64; 3], x: [i64; 3])
    ensures
        ({
            let y = cross_exact_rounded(z, x);
            let yz = y.0 * z[0] + y.1 * z[1] + y.2 * z[2];
            let yx = y.0 * x[0] + y.1 * x[1] + y.2 * x[2];
            &&& 4 * (yz * yz) <= 3 * dot_exact(z, z)
            &&& 4 * (yx * yx) <= 3 * dot_exact(x, x)
        }),
{
    lemma_cross_frame(z, x);
    lemma_cross_rounding(z, x);
    let c = cross_exact(z, x);
    let y = cross_exact_rounded(z, x);
    lemma_slanted(c, y, (z[0] as int, z[1] as int, z[2] as int));
    lemma_slanted(c, y, (x[0] as int, x[1] as int, x[2] as int));
}

/// Where `y` is `c` over `SCALE` within half a step in every coordinate and
/// `c` stands at right angles to `v`, four times the square of the scalar
/// product of `y` and `v` is at most three times the square of the length of
/// `v`.
proof fn lemma_slanted(c: (int, int, int), y: (int, int, int), v: (int, int, int))
    requires
        c.0 * v.0 + c.1 * v.1 + c.2 * v.2 == 0,
        -SCALE <= 2 * (SCALE * y.0 - c.0) <= SCALE,
        -SCALE <= 2 * (SCALE * y.1 - c.1) <= SCALE,
        -SCALE <= 2 * (SCALE * y.2 - c.2) <= SCALE,
    ensures
        4 * ((y.0 * v.0 + y.1 * v.1 + y.2 * v.2) * (y.0 * v.0 + y.1 * v.1 + y.2 * v.2)) <= 3 * (v.0
            * v.0 + v.1 * v.1 + v.2 * v.2),
{
    let s = SCALE as int;
    let e0 = 2 * (s * y.0 - c.0);
    let e1 = 2 * (s * y.1 - c.1);
    let e2 = 2 * (s * y.2 - c.2);
    let d = y.0 * v.0 + y.1 * v.1 + y.2 * v.2;
    let a0 = abs(v.0);
    let a1 = abs(v.1);
    let a2 = abs(v.2);
    // twice the scale times the scalar product is the scalar product of the
    // doubled rounding losses with v
    let p0 = y.0 * v.0;
    let p1 = y.1 * v.1;
    let p2 = y.2 * v.2;
    let r0 = c.0 * v.0;
    let r1 = c.1 * v.1;
    let r2 = c.2 * v.2;
    assert(e0 * v.0 == 2_000_000 * p0 - 2 * r0) by (nonlinear_arith)
        requires
            e0 == 2 * (1_000_000 * y.0 - c.0),
            p0 == y.0 * v.0,
            r0 == c.0 * v.0,
    ;
    assert(e1 * v.1 == 2_000_000 * p1 - 2 * r1) by (nonlinear_arith)
        requires
            e1 == 2 * (1_000_000 * y.1 - c.1),
            p1 == y.1 * v.1,
            r1 == c.1 * v.1,
    ;
    assert(e2 * v.2 == 2_000_000 * p2 - 2 * r2) by (nonlinear_arith)
        requires
            e2 == 2 * (1_000_000 * y.2 - c.2),
            p2 == y.2 * v.2,
            r2 == c.2 * v.2,
    ;
    assert(2_000_000 * d == e0 * v.0 + e1 * v.1 + e2 * v.2);
    assert(-(s * a0) <= e0 * v.0 <= s * a0) by (nonlinear_arith)
        requires
            -s <= e0 <= s,
            a0 == v.0 || a0 == -v.0,
            a0 >= 0,
    ;
    assert(-(s * a1) <= e1 * v.1 <= s * a1) by (nonlinear_arith)
        requires
            -s <= e1 <= s,
            a1 == v.1 || a1 == -v.1,
            a1 >= 0,
    ;
    assert(-(s * a2) <= e2 * v.2 <= s * a2) by (nonlinear_arith)
        requires
            -s <= e2 <= s,
            a2 == v.2 || a2 == -v.2,
            a2 >= 0,
    ;
    let sum = a0 + a1 + a2;
    assert(s * a0 == 1_000_000 * a0 && s * a1 == 1_000_000 * a1 && s * a2 == 1_000_000 * a2);
    assert(-sum <= 2 * d <= sum);
    assert((2 * d) * (2 * d) <= sum * sum) by (nonlinear_arith)
        requires
            -sum <= 2 * d <= sum,
    ;
    assert(sum * sum <= 3 * (a0 * a0 + a1 * a1 + a2 * a2)) by (nonlinear_arith)
        requires
            sum == a0 + a1 + a2,
    ;
    assert(a0 * a0 == v.0 * v.0 && a1 * a1 == v.1 * v.1 && a2 * a2 == v.2 * v.2)
        by (nonlinear_arith)
        requires
            a0 == v.0 || a0 == -v.0,
            a1 == v.1 || a1 == -v.1,
            a2 == v.2 || a2 == -v.2,
    ;
    assert((2 * d) * (2 * d) == 4 * (d * d)) by (nonlinear_arith);
}

/// The determinant of the columns `x`, `w`, `z` is the scalar product of
/// `w` with the vector product of `z` and `x`.
pub proof fn lemma_triple_product(x: [i64; 3], w: (int, int, int), z: [i64; 3])
    ensures
        ({
            let c = cross_exact(z, x);
            det3((x[0] as int, x[1] as int, x[2] as int), w, (z[0] as int, z[1] as int, z[2] as int))
                == w.0 * c.0 + w.1 * c.1 + w.2 * c.2
        }),
{
    let z0 = z[0] as int;
    let z1 = z[1] as int;
    let z2 = z[2] as int;
    let x0 = x[0] as int;
    let x1 = x[1] as int;
    let x2 = x[2] as int;
    lemma_spread(w.1 * z2, w.2 * z1, x0);
    lemma_spread(w.0 * z2, w.2 * z0, x1);
    lemma_spread(w.0 * z1, w.1 * z0, x2);
    lemma_three(w.1, z2, x0);
    lemma_three(w.2, z1, x0);
    lemma_three(w.0, z2, x1);
    lemma_three(w.2, z0, x1);
    lemma_three(w.0, z1, x2);
    lemma_three(w.1, z0, x2);
    lemma_spread_left(w.0, z1 * x2, z2 * x1);
    lemma_spread_left(w.1, z2 * x0, z0 * x2);
    lemma_spread_left(w.2, z0 * x1, z1 * x0);
}

/// How far rounding moves the frame of a placement. With `c` the exact
/// vector product of `z` and `x`, whose squared length is the product of
/// the squared lengths of `z` and `x` less the square of their scalar
/// product, and `y` the rounded one: `SCALE` times the determinant of the
/// columns `x`, `y`, `z` differs from the squared length of `c` by at most
/// half of `SCALE` times the sum of the magnitudes of the coordinates of
/// `c`; and `SCALE` squared times the squared length of `y` differs from
/// the squared length of `c` by at most `SCALE` times that sum and three
/// quarters of `SCALE` squared. For `x` and `z` of length one at right
/// angles the determinant and the length of `y` are one within 0.87
/// millionths.
pub proof fn lemma_rounded_frame(z: [i64; 3], x: [i64; 3])
    ensures
        ({
            let c = cross_exact(z, x);
            let y = cross_exact_rounded(z, x);
            let cc = c.0 * c.0 + c.1 * c.1 + c.2 * c.2;
            let yy = y.0 * y.0 + y.1 * y.1 + y.2 * y.2;
            let reach = abs(c.0) + abs(c.1) + abs(c.2);
            let det = det3(
                (x[0] as int, x[1] as int, x[2] as int),
                y,
                (z[0] as int, z[1] as int, z[2] as int),
            );
            &&& cc == dot_exact(z, z) * dot_exact(x, x) - dot_exact(z, x) * dot_exact(z, x)
            &&& -(1_000_000 * reach) <= 2_000_000 * det - 2 * cc <= 1_000_000 * reach
            &&& -(4_000_000 * reach) <= 4_000_000_000_000 * yy - 4 * cc <= 4_000_000 * reach
                + 3_000_000_000_000
        }),
{
    lemma_cross_frame(z, x);
    lemma_cross_rounding(z, x);
    let c = cross_exact(z, x);
    let y = cross_exact_rounded(z, x);
    lemma_triple_product(x, y, z);
    lemma_rounded_coordinate(c.0, y.0);
    lemma_rounded_coordinate(c.1, y.1);
    lemma_rounded_coordinate(c.2, y.2);
}

/// What half a step of rounding does to one coordinate `y` of `c` over
/// `SCALE`: to its product with `c` and to its square.
proof fn lemma_rounded_coordinate(c: int, y: int)
    requires
        -SCALE <= 2 * (SCALE * y - c) <= SCALE,
    ensures
        -(1_000_000 * abs(c)) <= 2_000_000 * (y * c) - 2 * (c * c) <= 1_000_000 * abs(c),
        -(4_000_000 * abs(c)) <= 4_000_000_000_000 * (y * y) - 4 * (c * c) <= 4_000_000 * abs(c)
            + 1_000_000_000_000,
{
    let e = 2 * (1_000_000 * y - c);
    let a = abs(c);
    let ec = e * c;
    assert(2_000_000 * (y * c) - 2 * (c * c) == ec) by (nonlinear_arith)
        requires
            e == 2 * (1_000_000 * y - c),
            ec == e * c,
    ;
    assert(-(1_000_000 * a) <= ec <= 1_000_000 * a) by (nonlinear_arith)
        requires
            -1_000_000 <= e <= 1_000_000,
            a == c || a == -c,
            a >= 0,
            ec == e * c,
    ;
    let ee = e * e;
    assert(0 <= ee <= 1_000_000_000_000) by (nonlinear_arith)
        requires
            -1_000_000 <= e <= 1_000_000,
            ee == e * e,
    ;
    assert(4_000_000_000_000 * (y * y) - 4 * (c * c) == 4 * ec + ee) by (nonlinear_arith)
        requires
            e == 2 * (1_000_000 * y - c),
            ec == e * c,
            ee == e * e,
    ;
}

/// The frame of a placement is orthonormal within a few millionths wherever
/// its X and Z axes are: where both have length one within a millionth and
/// the cosine of their angle is at most a millionth, the rounded Y axis has
/// length one within three millionths, stands at right angles to both
/// within a millionth (`lemma_rounded_cross_is_perpendicular`), and the
/// determinant of the three columns is plus one within five millionths. Left
/// out are the axes that do not stand at right angles: for them the columns
/// are not orthonormal, whatever the scale.
pub proof fn lemma_near_orthonormal_frame(z: [i64; 3], x: [i64; 3])
    requires
        (SCALE - 1) * (SCALE - 1) <= dot_exact(z, z) <= (SCALE + 1) * (SCALE + 1),
        (SCALE - 1) * (SCALE - 1) <= dot_exact(x, x) <= (SCALE + 1) * (SCALE + 1),
        -SCALE <= dot_exact(z, x) <= SCALE,
    ensures
        ({
            let y = cross_exact_rounded(z, x);
            let yy = y.0 * y.0 + y.1 * y.1 + y.2 * y.2;
            let det = det3(
                (x[0] as int, x[1] as int, x[2] as int),
                y,
                (z[0] as int, z[1] as int, z[2] as int),
            );
            &&& (SCALE - 3) * (SCALE - 3) <= yy <= (SCALE + 3) * (SCALE + 3)
            &&& 999_995_000_000_000_000 <= det <= 1_000_005_000_000_000_000
        }),
{
    lemma_rounded_frame(z, x);
    let c = cross_exact(z, x);
    let cc = c.0 * c.0 + c.1 * c.1 + c.2 * c.2;
    let reach = abs(c.0) + abs(c.1) + abs(c.2);
    let a = dot_exact(z, z);
    let b = dot_exact(x, x);
    let d = dot_exact(z, x);
    let low = 999_999int * 999_999;
    let high = 1_000_001int * 1_000_001;
    assert(low == 999_998_000_001 && high == 1_000_002_000_001);
    assert(low * low == 999_996_000_005_999_996_000_001 && high * high
        == 1_000_004_000_006_000_004_000_001) by (nonlinear_arith)
        requires
            low == 999_998_000_001,
            high == 1_000_002_000_001,
    ;
    assert(low * low <= a * b <= high * high) by (nonlinear_arith)
        requires
            0 < low <= a <= high,
            0 < low <= b <= high,
    ;
    assert(0 <= d * d <= 1_000_000_000_000) by (nonlinear_arith)
        requires
            -1_000_000 <= d <= 1_000_000,
    ;
    assert(cc == a * b - d * d);
    let a0 = abs(c.0);
    let a1 = abs(c.1);
    let a2 = abs(c.2);
    assert(reach * reach <= 3 * (a0 * a0 + a1 * a1 + a2 * a2)) by (nonlinear_arith)
        requires
            reach == a0 + a1 + a2,
    ;
    assert(a0 * a0 == c.0 * c.0 && a1 * a1 == c.1 * c.1 && a2 * a2 == c.2 * c.2)
        by (nonlinear_arith)
        requires
            a0 == c.0 || a0 == -c.0,
            a1 == c.1 || a1 == -c.1,
            a2 == c.2 || a2 == -c.2,
    ;
    let bound = 1_732_055_000_000int;
    if reach > bound {
        assert(reach * reach > 3 * 1_000_004_000_006_000_004_000_001) by (nonlinear_arith)
            requires
                reach >= 1_732_055_000_001,
        ;
    }
    assert(0 <= reach <= bound);
    assert((SCALE - 3) * (SCALE - 3) == 999_994_000_009 && (SCALE + 3) * (SCALE + 3)
        == 1_000_006_000_009) by (nonlinear_arith)
        requires
            SCALE == 1_000_000,
    ;
}

} // verus!

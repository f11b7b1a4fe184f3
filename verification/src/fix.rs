//! Fixed-point scalars and 2D vectors.
//!
//! Every geometric quantity in the simulation is a signed number of
//! milli-units (`FIX_SCALE` milli-units to the unit), stored in an `i64` and
//! kept within `[-FIX_BOUND, FIX_BOUND]`. Intermediate products are computed
//! in `i128`, so no operation here can overflow; results are saturated back
//! into the representable range, and every operation states its result
//! exactly, saturation included.

use vstd::prelude::*;
use vstd::arithmetic::div_mod::{lemma_div_is_ordered, lemma_div_nonincreasing, lemma_div_pos_is_pos};

verus! {

/// Milli-units per unit.
pub const FIX_SCALE: i64 = 1000;

/// Largest magnitude a stored fixed-point scalar may take (2^40 milli-units).
pub const FIX_BOUND: i64 = 0x100_0000_0000;

/// A scalar is in the representable fixed-point range.
pub open spec fn fix_ok(x: int) -> bool {
    -(FIX_BOUND as int) <= x <= FIX_BOUND as int
}

/// Saturation of a mathematical result into the representable range.
pub open spec fn sat(x: int) -> int {
    if x < -(FIX_BOUND as int) {
        -(FIX_BOUND as int)
    } else if x > FIX_BOUND as int {
        FIX_BOUND as int
    } else {
        x
    }
}

/// Division rounding toward zero, for a positive divisor; this is the
/// rounding the executable operations use.
pub open spec fn tdiv(a: int, b: int) -> int {
    if a >= 0 {
        a / b
    } else {
        -((-a) / b)
    }
}

/// A 2D vector of fixed-point scalars.
#[derive(Clone, Copy, Debug, PartialEq, Eq, Structural)]
pub struct Vec2 {
    pub x: i64,
    pub y: i64,
}

/// Both components are in the representable range.
pub open spec fn v2_ok(v: Vec2) -> bool {
    fix_ok(v.x as int) && fix_ok(v.y as int)
}

/// Mathematical dot product of two vectors.
pub open spec fn v2_dot(a: Vec2, b: Vec2) -> int {
    a.x * b.x + a.y * b.y
}

/// Mathematical squared magnitude of a vector.
pub open spec fn mag_sq(v: Vec2) -> int {
    v2_dot(v, v)
}

impl Vec2 {
    pub fn new(x: i64, y: i64) -> (r: Vec2)
        ensures
            r.x == x,
            r.y == y,
    {
        Vec2 { x, y }
    }

    pub fn zero() -> (r: Vec2)
        ensures
            r.x == 0,
            r.y == 0,
    {
        Vec2 { x: 0, y: 0 }
    }
}

/// Component-wise saturating addition, at the specification level.
pub open spec fn sv2_add(a: Vec2, b: Vec2) -> Vec2 {
    Vec2 { x: sat(a.x + b.x) as i64, y: sat(a.y + b.y) as i64 }
}

/// Component-wise saturating subtraction, at the specification level.
pub open spec fn sv2_sub(a: Vec2, b: Vec2) -> Vec2 {
    Vec2 { x: sat(a.x - b.x) as i64, y: sat(a.y - b.y) as i64 }
}

/// Scale-then-divide, at the specification level.
pub open spec fn sv2_scale_div(v: Vec2, num: int, den: int) -> Vec2 {
    Vec2 { x: sat(tdiv(v.x * num, den)) as i64, y: sat(tdiv(v.y * num, den)) as i64 }
}

/// Rescaling to a target magnitude, at the specification level.
pub open spec fn sv2_normalize_to(v: Vec2, m: int) -> Vec2 {
    if v.x == 0 && v.y == 0 {
        Vec2 { x: 0, y: 0 }
    } else {
        Vec2 {
            x: sat(tdiv(v.x * m, sqrt_floor(mag_sq(v)))) as i64,
            y: sat(tdiv(v.y * m, sqrt_floor(mag_sq(v)))) as i64,
        }
    }
}

/// Saturate an `i128` intermediate into a representable scalar.
pub fn sat_i128(x: i128) -> (r: i64)
    ensures
        r as int == sat(x as int),
        fix_ok(r as int),
{
    if x < -(FIX_BOUND as i128) {
        -FIX_BOUND
    } else if x > FIX_BOUND as i128 {
        FIX_BOUND
    } else {
        x as i64
    }
}

/// Division of an `i128` by a positive divisor, rounding toward zero.
pub fn tdiv_i128(a: i128, b: i128) -> (q: i128)
    requires
        1 <= b,
        -(i128::MAX as int) <= a,
    ensures
        q as int == tdiv(a as int, b as int),
{
    if a >= 0 {
        let qu: u128 = (a as u128) / (b as u128);
        proof {
            lemma_div_nonincreasing(a as int, b as int);
            lemma_div_pos_is_pos(a as int, b as int);
        }
        qu as i128
    } else {
        let m: u128 = (-a) as u128;
        let qu: u128 = m / (b as u128);
        proof {
            lemma_div_nonincreasing(m as int, b as int);
            lemma_div_pos_is_pos(m as int, b as int);
        }
        -(qu as i128)
    }
}

/// Component-wise saturating addition.
pub fn v2_add(a: Vec2, b: Vec2) -> (r: Vec2)
    ensures
        r.x as int == sat(a.x + b.x),
        r.y as int == sat(a.y + b.y),
        r == sv2_add(a, b),
        v2_ok(r),
{
    Vec2 { x: sat_i128(a.x as i128 + b.x as i128), y: sat_i128(a.y as i128 + b.y as i128) }
}

/// Component-wise saturating subtraction.
pub fn v2_sub(a: Vec2, b: Vec2) -> (r: Vec2)
    ensures
        r.x as int == sat(a.x - b.x),
        r.y as int == sat(a.y - b.y),
        r == sv2_sub(a, b),
        v2_ok(r),
{
    Vec2 { x: sat_i128(a.x as i128 - b.x as i128), y: sat_i128(a.y as i128 - b.y as i128) }
}

/// Scale by `num`, then divide by a positive `den`, rounding toward zero and
/// saturating.
pub fn v2_scale_div(v: Vec2, num: i64, den: i64) -> (r: Vec2)
    requires
        v2_ok(v),
        1 <= den,
    ensures
        r.x as int == sat(tdiv(v.x * num, den as int)),
        r.y as int == sat(tdiv(v.y * num, den as int)),
        r == sv2_scale_div(v, num as int, den as int),
        v2_ok(r),
{
    proof {
        lemma_mul_bounds(v.x as int, FIX_BOUND as int, num as int, i64::MAX as int + 1);
        lemma_mul_bounds(v.y as int, FIX_BOUND as int, num as int, i64::MAX as int + 1);
    }
    let qx: i128 = tdiv_i128(v.x as i128 * num as i128, den as i128);
    let qy: i128 = tdiv_i128(v.y as i128 * num as i128, den as i128);
    Vec2 { x: sat_i128(qx), y: sat_i128(qy) }
}

/// Exact dot product; the result fits easily in `i128` for representable
/// inputs.
pub fn v2_dot_exec(a: Vec2, b: Vec2) -> (r: i128)
    requires
        v2_ok(a),
        v2_ok(b),
    ensures
        r as int == v2_dot(a, b),
{
    proof {
        lemma_prod_bound(a.x as int, b.x as int);
        lemma_prod_bound(a.y as int, b.y as int);
    }
    a.x as i128 * b.x as i128 + a.y as i128 * b.y as i128
}

/// Bounding both factors bounds the product.
pub proof fn lemma_mul_bounds(a: int, amax: int, b: int, bmax: int)
    requires
        -amax <= a <= amax,
        -bmax <= b <= bmax,
        0 <= amax,
        0 <= bmax,
    ensures
        -(amax * bmax) <= a * b <= amax * bmax,
{
    assert(-(amax * bmax) <= a * b <= amax * bmax) by (nonlinear_arith)
        requires
            -amax <= a <= amax,
            -bmax <= b <= bmax,
            0 <= amax,
            0 <= bmax,
    ;
}

/// The product of two representable scalars is far from the `i128` range.
pub proof fn lemma_prod_bound(a: int, b: int)
    requires
        fix_ok(a),
        fix_ok(b),
    ensures
        -(0x1_0000_0000_0000_0000_0000 * 0x1_0000_0000) <= a * b,
        a * b <= 0x1_0000_0000_0000_0000_0000 * 0x1_0000_0000,
{
    assert(-(0x1_0000_0000_0000_0000_0000 * 0x1_0000_0000) <= a * b <= 0x1_0000_0000_0000_0000_0000 * 0x1_0000_0000)
        by (nonlinear_arith)
        requires
            -(FIX_BOUND as int) <= a <= FIX_BOUND as int,
            -(FIX_BOUND as int) <= b <= FIX_BOUND as int,
    ;
}

/// A squared magnitude is non-negative.
pub proof fn lemma_mag_sq_nonneg(v: Vec2)
    ensures
        mag_sq(v) >= 0,
{
    assert(v.x * v.x >= 0) by (nonlinear_arith);
    assert(v.y * v.y >= 0) by (nonlinear_arith);
}

/// `r` is the integer square root (rounded down) of `n`.
pub open spec fn is_sqrt_floor(n: int, r: int) -> bool {
    0 <= r && r * r <= n && n < (r + 1) * (r + 1)
}

/// The integer square root of a non-negative `n`.
pub open spec fn sqrt_floor(n: int) -> int {
    choose|r: int| is_sqrt_floor(n, r)
}

/// Every non-negative integer has an integer square root.
pub proof fn lemma_sqrt_floor_exists(n: int)
    requires
        n >= 0,
    ensures
        is_sqrt_floor(n, sqrt_floor(n)),
    decreases n,
{
    if n == 0 {
        assert(is_sqrt_floor(0, 0));
    } else {
        lemma_sqrt_floor_exists(n - 1);
        let r = sqrt_floor(n - 1);
        if (r + 1) * (r + 1) <= n {
            assert(n < (r + 2) * (r + 2)) by (nonlinear_arith)
                requires
                    n - 1 < (r + 1) * (r + 1),
                    (r + 1) * (r + 1) <= n,
                    0 <= r,
            ;
            assert(is_sqrt_floor(n, r + 1));
        } else {
            assert(is_sqrt_floor(n, r));
        }
    }
}

/// The integer square root is unique.
pub proof fn lemma_sqrt_floor_unique(n: int, a: int, b: int)
    requires
        is_sqrt_floor(n, a),
        is_sqrt_floor(n, b),
    ensures
        a == b,
{
    assert(a == b) by (nonlinear_arith)
        requires
            0 <= a && a * a <= n && n < (a + 1) * (a + 1),
            0 <= b && b * b <= n && n < (b + 1) * (b + 1),
    ;
}

/// Executable integer square root by bisection.
pub fn isqrt(n: u128) -> (r: u64)
    ensures
        is_sqrt_floor(n as int, r as int),
        r as int == sqrt_floor(n as int),
{
    let mut lo: u64 = 0;
    let mut hi: u128 = 0x1_0000_0000_0000_0000;
    while (lo as u128) + 1 < hi
        invariant
            (lo as int) * (lo as int) <= n as int,
            (n as int) < (hi as int) * (hi as int),
            (lo as int) < hi as int,
            hi <= 0x1_0000_0000_0000_0000,
        decreases hi as int - lo as int,
    {
        let mid: u128 = ((lo as u128) + hi) / 2;
        proof {
            assert((lo as int) < ((lo as int + hi as int) / 2) < hi as int || lo as int + 1
                == hi as int);
            assert((mid as int) * (mid as int) <= (0x1_0000_0000_0000_0000 - 1) * (
            0x1_0000_0000_0000_0000 - 1)) by (nonlinear_arith)
                requires
                    0 <= mid as int && (mid as int) <= 0x1_0000_0000_0000_0000 - 1,
            ;
        }
        if mid * mid <= n {
            lo = mid as u64;
        } else {
            hi = mid;
        }
    }
    proof {
        assert(hi as int == lo as int + 1);
        assert(is_sqrt_floor(n as int, lo as int));
        lemma_sqrt_floor_exists(n as int);
        lemma_sqrt_floor_unique(n as int, lo as int, sqrt_floor(n as int));
    }
    lo
}

/// A positive squared magnitude has a positive square root.
pub proof fn lemma_sqrt_floor_pos(n: int)
    requires
        n >= 1,
    ensures
        sqrt_floor(n) >= 1,
{
    lemma_sqrt_floor_exists(n);
    let r = sqrt_floor(n);
    assert(r >= 1) by (nonlinear_arith)
        requires
            0 <= r && r * r <= n && n < (r + 1) * (r + 1),
            n >= 1,
    ;
}

/// Rescale `v` to magnitude `m`: each component becomes `c * m / |v|`,
/// rounded toward zero and saturated. The zero vector stays zero.
pub fn normalize_to(v: Vec2, m: i64) -> (r: Vec2)
    requires
        v2_ok(v),
        0 <= m,
    ensures
        v.x == 0 && v.y == 0 ==> r.x == 0 && r.y == 0,
        !(v.x == 0 && v.y == 0) ==> {
            &&& r.x as int == sat(tdiv(v.x * m, sqrt_floor(mag_sq(v))))
            &&& r.y as int == sat(tdiv(v.y * m, sqrt_floor(mag_sq(v))))
        },
        r == sv2_normalize_to(v, m as int),
        v2_ok(r),
{
    let d: i128 = v2_dot_exec(v, v);
    proof {
        lemma_mag_sq_nonneg(v);
    }
    if d == 0 {
        proof {
            assert(v.x == 0 && v.y == 0) by (nonlinear_arith)
                requires
                    v.x * v.x + v.y * v.y == 0,
            ;
        }
        Vec2 { x: 0, y: 0 }
    } else {
        let mag: u64 = isqrt(d as u128);
        proof {
            lemma_sqrt_floor_pos(d as int);
            lemma_sqrt_floor_unique(d as int, mag as int, sqrt_floor(d as int));
            lemma_mul_bounds(v.x as int, FIX_BOUND as int, m as int, i64::MAX as int + 1);
            lemma_mul_bounds(v.y as int, FIX_BOUND as int, m as int, i64::MAX as int + 1);
        }
        let qx: i128 = tdiv_i128(v.x as i128 * m as i128, mag as i128);
        let qy: i128 = tdiv_i128(v.y as i128 * m as i128, mag as i128);
        Vec2 { x: sat_i128(qx), y: sat_i128(qy) }
    }
}

/// Rounding toward zero never leaves the interval between 0 and the scaled
/// value: for `0 <= s < den`, `tdiv(d * s, den)` lies between 0 and `d`.
pub proof fn lemma_tdiv_scale_bound(d: int, s: int, den: int)
    requires
        0 <= s < den,
    ensures
        d >= 0 ==> 0 <= tdiv(d * s, den) <= d,
        d < 0 ==> d <= tdiv(d * s, den) <= 0,
{
    if d >= 0 {
        assert(0 <= d * s <= d * den) by (nonlinear_arith)
            requires
                0 <= s < den,
                d >= 0,
        ;
        lemma_div_pos_is_pos(d * s, den);
        lemma_div_is_ordered(d * s, d * den, den);
        assert(d * den / den == d) by (nonlinear_arith)
            requires
                den >= 1,
        ;
    } else {
        let nd = -d;
        assert(0 <= nd * s <= nd * den) by (nonlinear_arith)
            requires
                0 <= s < den,
                nd >= 0,
        ;
        lemma_div_pos_is_pos(nd * s, den);
        lemma_div_is_ordered(nd * s, nd * den, den);
        assert(nd * den / den == nd) by (nonlinear_arith)
            requires
                den >= 1,
        ;
        assert(-(d * s) == nd * s) by (nonlinear_arith)
            requires
                nd == -d,
        ;
    }
}

/// Rounding toward zero never grows the magnitude.
pub proof fn lemma_tdiv_in_range(a: int, b: int)
    requires
        1 <= b,
    ensures
        a >= 0 ==> 0 <= tdiv(a, b) <= a,
        a < 0 ==> a <= tdiv(a, b) <= 0,
{
    if a >= 0 {
        lemma_div_pos_is_pos(a, b);
        lemma_div_nonincreasing(a, b);
    } else {
        lemma_div_pos_is_pos(-a, b);
        lemma_div_nonincreasing(-a, b);
    }
}

/// Rounding toward zero is monotone in the numerator.
pub proof fn lemma_tdiv_monotone(a: int, b: int, den: int)
    requires
        a <= b,
        1 <= den,
    ensures
        tdiv(a, den) <= tdiv(b, den),
{
    if a >= 0 {
        lemma_div_is_ordered(a, b, den);
    } else if b < 0 {
        lemma_div_is_ordered(-b, -a, den);
    } else {
        lemma_div_pos_is_pos(-a, den);
        lemma_div_pos_is_pos(b, den);
    }
}

} // verus!

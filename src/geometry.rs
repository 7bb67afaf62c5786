use vstd::prelude::*;
use vstd::arithmetic::div_mod::lemma_fundamental_div_mod;
use vstd::arithmetic::div_mod::lemma_mod_pos_bound;

verus! {

/// Fixed-point scale: a coordinate of `UNIT` is one arena unit, and a
/// direction of length `UNIT` is a unit vector.
pub const UNIT: i64 = 1000;

/// Slack allowed on the squared length of a unit direction, in squared
/// fixed-point units (about 0.4% of the length).
pub const UNIT_SLACK: i64 = 8000;

/// Largest coordinate magnitude accepted by `normalize_or`.
pub const MAX_COMPONENT: i64 = 0x1_0000_0000;

/// A point or vector in the arena, in fixed-point coordinates.
#[derive(Clone, Copy, Debug, PartialEq, Eq, Structural)]
pub struct Vec2 {
    pub x: i64,
    pub y: i64,
}

/// Absolute value of an integer.
pub open spec fn abs(v: int) -> int {
    if v < 0 { -v } else { v }
}

/// Squared Euclidean length of a vector.
pub open spec fn norm_sq(v: Vec2) -> int {
    v.x * v.x + v.y * v.y
}

/// A direction whose length is one unit, up to the rounding slack.
pub open spec fn is_unit(v: Vec2) -> bool {
    UNIT * UNIT - UNIT_SLACK <= norm_sq(v) <= UNIT * UNIT
}

/// Both components lie within what `normalize_or` accepts.
pub open spec fn is_bounded(v: Vec2) -> bool {
    abs(v.x as int) <= MAX_COMPONENT && abs(v.y as int) <= MAX_COMPONENT
}

/// `m` is the square root of `n`, rounded up.
pub open spec fn is_ceil_sqrt(m: int, n: int) -> bool {
    0 <= m && (m - 1) * (m - 1) < n <= m * m
}

/// The square root of a positive `n`, rounded up.
pub open spec fn ceil_sqrt(n: int) -> int {
    choose|m: int| is_ceil_sqrt(m, n)
}

/// Division of `a` by a positive `m`, rounded toward zero.
pub open spec fn div_toward_zero(a: int, m: int) -> int {
    if a < 0 { -((-a) / m) } else { a / m }
}

/// The unit vector along a nonzero `v`: each component is `v`'s times
/// `UNIT`, divided by the length of `v` (measured to a thousandth of a unit
/// and rounded up), rounded toward zero.
pub open spec fn normalized(v: Vec2) -> Vec2 {
    let m = ceil_sqrt(UNIT * UNIT * norm_sq(v));
    Vec2 {
        x: div_toward_zero(v.x * UNIT * UNIT, m) as i64,
        y: div_toward_zero(v.y * UNIT * UNIT, m) as i64,
    }
}

/// `normalized(v)` for a nonzero `v`, and `fallback` for the zero vector.
pub open spec fn normalized_or(v: Vec2, fallback: Vec2) -> Vec2 {
    if v.x == 0 && v.y == 0 { fallback } else { normalized(v) }
}

/// `v` clamped to the closed interval `[lo, hi]`.
pub open spec fn clamp(v: int, lo: int, hi: int) -> int {
    if v < lo { lo } else if v > hi { hi } else { v }
}

proof fn lemma_square_monotone(a: int, b: int)
    requires
        0 <= a <= b,
    ensures
        a * a <= b * b,
{
    assert(a * a <= a * b) by (nonlinear_arith) requires 0 <= a <= b;
    assert(a * b <= b * b) by (nonlinear_arith) requires 0 <= a <= b;
}

proof fn lemma_ceil_sqrt_unique(m: int, n: int)
    requires
        is_ceil_sqrt(m, n),
    ensures
        ceil_sqrt(n) == m,
{
    let k = ceil_sqrt(n);
    assert(is_ceil_sqrt(k, n));
    if k < m {
        lemma_square_monotone(k, m - 1);
    } else if m < k {
        lemma_square_monotone(m, k - 1);
    }
}

/// The square root of `n`, rounded up.
pub fn ceil_isqrt(n: u128) -> (r: u128)
    requires
        1 <= n <= 0x1_0000_0000_0000_0000_0000_0000,
    ensures
        is_ceil_sqrt(r as int, n as int),
        r as int == ceil_sqrt(n as int),
        1 <= r <= 0x4_0000_0000_0000,
{
    let mut lo: u128 = 0;
    let mut hi: u128 = 0x4_0000_0000_0000;
    assert(hi * hi == 0x10_0000_0000_0000_0000_0000_0000);
    while lo + 1 < hi
        invariant
            lo < hi <= 0x4_0000_0000_0000,
            lo * lo < n,
            n <= hi * hi,
        decreases hi - lo,
    {
        let mid: u128 = lo + (hi - lo) / 2;
        proof {
            lemma_square_monotone(mid as int, 0x4_0000_0000_0000);
        }
        if mid * mid < n {
            lo = mid;
        } else {
            hi = mid;
        }
    }
    proof {
        lemma_ceil_sqrt_unique(hi as int, n as int);
    }
    hi
}

proof fn lemma_square_strict(a: int, b: int)
    requires
        0 <= a < b,
    ensures
        a * a < b * b,
{
    assert(a * a <= a * b) by (nonlinear_arith) requires 0 <= a < b;
    assert(a * b < b * b) by (nonlinear_arith) requires 0 <= a < b;
}

/// Dividing `a * UNIT` by the rounded-up length gives a component no larger
/// than the exact one, and less than one below it.
proof fn lemma_quotient_bounds(a: int, m: int, p: int)
    requires
        0 <= a,
        0 < m,
        p == a * UNIT / m,
    ensures
        0 <= p,
        (p * m) * (p * m) <= (a * UNIT) * (a * UNIT),
        (a * UNIT) * (a * UNIT) < ((p + 1) * m) * ((p + 1) * m),
{
    lemma_fundamental_div_mod(a * UNIT, m);
    lemma_mod_pos_bound(a * UNIT, m);
    assert(0 <= p) by (nonlinear_arith) requires 0 < m, 0 <= a * UNIT, a * UNIT == m * p + (a * UNIT) % m, (a * UNIT) % m < m;
    assert(p * m <= a * UNIT) by (nonlinear_arith) requires a * UNIT == m * p + (a * UNIT) % m, 0 <= (a * UNIT) % m;
    assert(a * UNIT < (p + 1) * m) by (nonlinear_arith) requires a * UNIT == m * p + (a * UNIT) % m, (a * UNIT) % m < m;
    assert(0 <= p * m) by (nonlinear_arith) requires 0 <= p, 0 < m;
    lemma_square_monotone(p * m, a * UNIT);
    lemma_square_strict(a * UNIT, (p + 1) * m);
}

/// A vector of squared length `a * a + b * b`, at least `UNIT * UNIT`, scaled
/// by `UNIT` over its rounded-up length, has unit length up to the slack.
proof fn lemma_scaled_is_unit(a: int, b: int, m: int, p: int, q: int)
    requires
        0 <= a,
        0 <= b,
        UNIT * UNIT <= a * a + b * b,
        is_ceil_sqrt(m, a * a + b * b),
        p == a * UNIT / m,
        q == b * UNIT / m,
    ensures
        0 <= p <= UNIT,
        0 <= q <= UNIT,
        UNIT * UNIT - UNIT_SLACK <= p * p + q * q <= UNIT * UNIT,
{
    let s = UNIT as int;
    let l = a * a + b * b;
    if m < s {
        lemma_square_monotone(m, s - 1);
    }
    assert(m >= s);
    lemma_quotient_bounds(a, m, p);
    lemma_quotient_bounds(b, m, q);
    let mm = m * m;
    assert((p * m) * (p * m) == (p * p) * mm) by (nonlinear_arith) requires mm == m * m;
    assert((q * m) * (q * m) == (q * q) * mm) by (nonlinear_arith) requires mm == m * m;
    assert((a * s) * (a * s) + (b * s) * (b * s) == l * (s * s)) by (nonlinear_arith)
        requires l == a * a + b * b;
    assert(l * (s * s) <= mm * (s * s)) by (nonlinear_arith) requires l <= mm;
    assert((p * p + q * q) * mm <= (s * s) * mm) by (nonlinear_arith)
        requires (p * p) * mm + (q * q) * mm <= l * (s * s), l * (s * s) <= mm * (s * s);
    assert(p * p + q * q <= s * s) by (nonlinear_arith)
        requires (p * p + q * q) * mm <= (s * s) * mm, mm > 0;
    if p > s {
        lemma_square_strict(s, p);
        assert(q * q >= 0) by (nonlinear_arith);
    }
    if q > s {
        lemma_square_strict(s, q);
        assert(p * p >= 0) by (nonlinear_arith);
    }
    let big = (p + 1) * (p + 1) + (q + 1) * (q + 1);
    assert(((p + 1) * m) * ((p + 1) * m) + ((q + 1) * m) * ((q + 1) * m) == big * mm)
        by (nonlinear_arith) requires big == (p + 1) * (p + 1) + (q + 1) * (q + 1), mm == m * m;
    assert(((m - 1) * (m - 1)) * (s * s) < l * (s * s)) by (nonlinear_arith)
        requires (m - 1) * (m - 1) < l, s > 0;
    assert(((m - 1) * (m - 1)) * (s * s) < big * mm);
    assert(big > s * s - 2 * s) by (nonlinear_arith)
        requires ((m - 1) * (m - 1)) * (s * s) < big * mm, mm == m * m, m >= s, s > 0;
    assert(big == p * p + q * q + 2 * p + 2 * q + 2) by (nonlinear_arith)
        requires big == (p + 1) * (p + 1) + (q + 1) * (q + 1);
}

/// `normalized_or(v, fallback)`: `v` scaled to unit length, or `fallback`
/// when `v` is the zero vector.
pub fn normalize_or(v: Vec2, fallback: Vec2) -> (r: Vec2)
    requires
        is_bounded(v),
        is_unit(fallback),
    ensures
        r == normalized_or(v, fallback),
        is_unit(r),
{
    if v.x == 0 && v.y == 0 {
        return fallback;
    }
    let s: u128 = UNIT as u128;
    let ux: u128 = if v.x < 0 { (-(v.x as i128)) as u128 } else { v.x as u128 };
    let uy: u128 = if v.y < 0 { (-(v.y as i128)) as u128 } else { v.y as u128 };
    let ax: u128 = ux * s;
    let ay: u128 = uy * s;
    proof {
        lemma_square_monotone(ux as int, MAX_COMPONENT as int);
        lemma_square_monotone(uy as int, MAX_COMPONENT as int);
        assert(ax * ax == (ux * ux) * (s * s)) by (nonlinear_arith) requires ax == ux * s;
        assert(ay * ay == (uy * uy) * (s * s)) by (nonlinear_arith) requires ay == uy * s;
        assert(ux * ux + uy * uy >= 1) by (nonlinear_arith) requires ux >= 1 || uy >= 1;
        assert(ux * ux == v.x * v.x) by (nonlinear_arith) requires ux == v.x || ux == -v.x;
        assert(uy * uy == v.y * v.y) by (nonlinear_arith) requires uy == v.y || uy == -v.y;
    }
    let len_sq: u128 = ax * ax + ay * ay;
    let m: u128 = ceil_isqrt(len_sq);
    proof {
        lemma_scaled_is_unit(ax as int, ay as int, m as int, (ax * s) as int / m as int, (ay * s) as int / m as int);
    }
    let px: u128 = ax * s / m;
    let py: u128 = ay * s / m;
    proof {
        let l = UNIT * UNIT * norm_sq(v);
        assert(l == len_sq) by (nonlinear_arith)
            requires l == UNIT * UNIT * (v.x * v.x + v.y * v.y), len_sq == ax * ax + ay * ay,
                ax * ax == (ux * ux) * (s * s), ay * ay == (uy * uy) * (s * s), s == UNIT,
                ux * ux == v.x * v.x, uy * uy == v.y * v.y;
        assert(v.x * UNIT * UNIT == if v.x < 0 { -(ax * s) } else { ax * s }) by (nonlinear_arith)
            requires ax == ux * s, s == UNIT, ux == abs(v.x as int);
        assert(v.y * UNIT * UNIT == if v.y < 0 { -(ay * s) } else { ay * s }) by (nonlinear_arith)
            requires ay == uy * s, s == UNIT, uy == abs(v.y as int);
    }
    let x: i64 = if v.x < 0 { -(px as i64) } else { px as i64 };
    let y: i64 = if v.y < 0 { -(py as i64) } else { py as i64 };
    let r = Vec2 { x, y };
    proof {
        assert(r.x * r.x == px * px) by (nonlinear_arith) requires r.x == px || r.x == -px;
        assert(r.y * r.y == py * py) by (nonlinear_arith) requires r.y == py || r.y == -py;
    }
    r
}

/// The opposite direction.
pub open spec fn negate(v: Vec2) -> Vec2 {
    Vec2 { x: (-v.x) as i64, y: (-v.y) as i64 }
}

/// Each component of a unit direction is at most `UNIT` in magnitude, and
/// its opposite is a unit direction too.
pub proof fn lemma_unit_components(v: Vec2)
    requires
        is_unit(v),
    ensures
        -UNIT <= v.x <= UNIT,
        -UNIT <= v.y <= UNIT,
        is_unit(negate(v)),
        is_bounded(v),
{
    assert(v.x * v.x >= 0 && v.y * v.y >= 0) by (nonlinear_arith);
    if v.x > UNIT || v.x < -UNIT {
        assert(v.x * v.x > UNIT * UNIT) by (nonlinear_arith) requires v.x > UNIT || v.x < -UNIT;
    }
    if v.y > UNIT || v.y < -UNIT {
        assert(v.y * v.y > UNIT * UNIT) by (nonlinear_arith) requires v.y > UNIT || v.y < -UNIT;
    }
    assert(norm_sq(negate(v)) == norm_sq(v)) by (nonlinear_arith)
        requires norm_sq(negate(v)) == (-v.x) * (-v.x) + (-v.y) * (-v.y), norm_sq(v) == v.x * v.x + v.y * v.y;
}

/// `div_toward_zero(a, m)` on machine integers.
pub fn div_toward_zero_i64(a: i64, m: i64) -> (r: i64)
    requires
        0 < m,
        -0x4000_0000_0000_0000 <= a <= 0x4000_0000_0000_0000,
    ensures
        r == div_toward_zero(a as int, m as int),
        abs(r as int) <= abs(a as int),
{
    if a < 0 {
        let q: i64 = (-a) / m;
        assert(q <= -a) by (nonlinear_arith) requires q as int == (-a) as int / m as int, m > 0, -a >= 0;
        -q
    } else {
        let q: i64 = a / m;
        assert(q <= a) by (nonlinear_arith) requires q as int == a as int / m as int, m > 0, a >= 0;
        q
    }
}

/// `v` clamped to `[-bound, bound]`.
pub fn clamp_i64(v: i64, bound: i64) -> (r: i64)
    requires
        0 <= bound,
    ensures
        r == clamp(v as int, -bound as int, bound as int),
{
    if v < -bound {
        -bound
    } else if v > bound {
        bound
    } else {
        v
    }
}

} // verus!

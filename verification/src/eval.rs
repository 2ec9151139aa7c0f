//! Parametric evaluation along a path: exact fixed-point cubic Bezier
//! interpolation, the global-to-local parameter mapping, and position,
//! tangent, normal and curvature queries.
//!
//! A parameter is an `i64` in `[0, T_ONE]`.  A global parameter spans
//! the whole path, distributed linearly over the segments by index; a
//! local parameter spans one segment.  Every quantity below is defined
//! exactly, as integer arithmetic with floor division, so each
//! function's result is pinned by its contract.

use vstd::prelude::*;
use crate::num::{
    T_ONE, T2, T3, COORD_LIMIT, div_floor_i128, div_floor_i64, mod_floor_i64,
    isqrt_u128, sqrt_floor, lemma_mul_range, lemma_div_range,
};
use vstd::arithmetic::div_mod::{
    lemma_fundamental_div_mod_converse, lemma_div_is_ordered, lemma_div_pos_is_pos,
};
use crate::path::{Point, Handle, Path, PathError};

verus! {

/// Magnitude bound of the first-derivative evaluation.
pub const DERIV_LIMIT: i64 = 12884901888;

/// Magnitude bound of the second-derivative evaluation.
pub const DERIV2_LIMIT: i64 = 51539607552;

/// Absolute value of a mathematical integer.
pub open spec fn abs_i(x: int) -> int {
    if x < 0 {
        -x
    } else {
        x
    }
}

/// The four cubic Bernstein weights at parameter `t`, scaled by
/// `T_ONE` cubed; they are non-negative and sum to `T3`.
pub open spec fn w0(t: int) -> int {
    (T_ONE - t) * (T_ONE - t) * (T_ONE - t)
}

pub open spec fn w1(t: int) -> int {
    3 * (T_ONE - t) * (T_ONE - t) * t
}

pub open spec fn w2(t: int) -> int {
    3 * (T_ONE - t) * t * t
}

pub open spec fn w3(t: int) -> int {
    t * t * t
}

/// One coordinate of the cubic Bezier with control values
/// `x0, x1, x2, x3` at parameter `t`: the Bernstein combination,
/// scaled back down by floor division.
pub open spec fn cubic_coord(x0: int, x1: int, x2: int, x3: int, t: int) -> int {
    (w0(t) * x0 + w1(t) * x1 + w2(t) * x2 + w3(t) * x3) / (T3 as int)
}

/// Index of the handle that closes segment `s` (wrapping to handle 0
/// on the last segment of a closed path).
pub open spec fn seg_end_index(path: &Path, s: int) -> int {
    if s + 1 == path.handles_view().len() {
        0
    } else {
        s + 1
    }
}

/// The four control points of segment `s`: start anchor, its outgoing
/// control, the end handle's incoming control, the end anchor.
pub open spec fn seg_p0(path: &Path, s: int) -> Point {
    path.handles_view()[s].anchor
}

pub open spec fn seg_p1(path: &Path, s: int) -> Point {
    path.handles_view()[s].ctrl_out
}

pub open spec fn seg_p2(path: &Path, s: int) -> Point {
    path.handles_view()[seg_end_index(path, s)].ctrl_in
}

pub open spec fn seg_p3(path: &Path, s: int) -> Point {
    path.handles_view()[seg_end_index(path, s)].anchor
}

/// Position on segment `s` at local parameter `t`, one coordinate per
/// component.
pub open spec fn spec_position_local(path: &Path, s: int, t: int) -> (int, int) {
    (
        cubic_coord(
            seg_p0(path, s).x as int, seg_p1(path, s).x as int,
            seg_p2(path, s).x as int, seg_p3(path, s).x as int, t,
        ),
        cubic_coord(
            seg_p0(path, s).y as int, seg_p1(path, s).y as int,
            seg_p2(path, s).y as int, seg_p3(path, s).y as int, t,
        ),
    )
}

/// Segment index of a global parameter `t` over `n` segments: `t * n`
/// scaled down, with `t == T_ONE` clamped onto the last segment.
pub open spec fn spec_seg_of(n: int, t: int) -> int {
    if t == T_ONE {
        n - 1
    } else {
        (t * n) / (T_ONE as int)
    }
}

/// Local parameter belonging to `spec_seg_of`: the remainder of the
/// same scaling, with `t == T_ONE` mapped to a full local sweep.
pub open spec fn spec_local_of(n: int, t: int) -> int {
    if t == T_ONE {
        T_ONE as int
    } else {
        (t * n) % (T_ONE as int)
    }
}

/// Position at global parameter `t`.
pub open spec fn spec_position(path: &Path, t: int) -> (int, int) {
    let n = path.seg_count_spec();
    spec_position_local(path, spec_seg_of(n, t), spec_local_of(n, t))
}

/// The Bernstein weights are non-negative and sum to `T_ONE` cubed.
pub proof fn lemma_weights(t: int)
    requires
        0 <= t <= T_ONE,
    ensures
        0 <= w0(t) <= T3,
        0 <= w1(t) <= T3,
        0 <= w2(t) <= T3,
        0 <= w3(t) <= T3,
        w0(t) + w1(t) + w2(t) + w3(t) == T3,
{
    let u = T_ONE - t;
    assert(u * u * u >= 0 && 3 * u * u * t >= 0 && 3 * u * t * t >= 0 && t * t * t >= 0
        && u * u * u + 3 * u * u * t + 3 * u * t * t + t * t * t
            == (u + t) * (u + t) * (u + t)) by (nonlinear_arith)
        requires 0 <= t, 0 <= u;
    assert((T_ONE as int) * (T_ONE as int) * (T_ONE as int) == T3) by (nonlinear_arith);
}

/// The cubic combination is a convex combination: it stays within any
/// common magnitude bound of its control values.
pub proof fn lemma_cubic_coord_bound(x0: int, x1: int, x2: int, x3: int, t: int, lim: int)
    requires
        0 <= t <= T_ONE,
        0 <= lim,
        -lim <= x0 <= lim,
        -lim <= x1 <= lim,
        -lim <= x2 <= lim,
        -lim <= x3 <= lim,
    ensures
        -lim <= cubic_coord(x0, x1, x2, x3, t) <= lim,
{
    lemma_weights(t);
    let num = w0(t) * x0 + w1(t) * x1 + w2(t) * x2 + w3(t) * x3;
    assert(w0(t) * x0 <= w0(t) * lim && w0(t) * x0 >= -(w0(t) * lim)) by (nonlinear_arith)
        requires 0 <= w0(t), -lim <= x0 <= lim;
    assert(w1(t) * x1 <= w1(t) * lim && w1(t) * x1 >= -(w1(t) * lim)) by (nonlinear_arith)
        requires 0 <= w1(t), -lim <= x1 <= lim;
    assert(w2(t) * x2 <= w2(t) * lim && w2(t) * x2 >= -(w2(t) * lim)) by (nonlinear_arith)
        requires 0 <= w2(t), -lim <= x2 <= lim;
    assert(w3(t) * x3 <= w3(t) * lim && w3(t) * x3 >= -(w3(t) * lim)) by (nonlinear_arith)
        requires 0 <= w3(t), -lim <= x3 <= lim;
    assert((w0(t) + w1(t) + w2(t) + w3(t)) * lim
        == w0(t) * lim + w1(t) * lim + w2(t) * lim + w3(t) * lim) by (nonlinear_arith);
    assert(-((T3 as int) * lim) <= num <= (T3 as int) * lim);
    lemma_div_range(num, T3 as int, lim);
}

/// At `t == 0` the cubic sits exactly on its first control value, and
/// at `t == T_ONE` exactly on its last.
pub proof fn lemma_cubic_coord_ends(x0: int, x1: int, x2: int, x3: int)
    requires
        -COORD_LIMIT <= x0 <= COORD_LIMIT,
        -COORD_LIMIT <= x3 <= COORD_LIMIT,
    ensures
        cubic_coord(x0, x1, x2, x3, 0) == x0,
        cubic_coord(x0, x1, x2, x3, T_ONE as int) == x3,
{
    lemma_weights(0);
    lemma_weights(T_ONE as int);
    assert(w1(0) == 0 && w2(0) == 0 && w3(0) == 0) by (nonlinear_arith);
    assert(w0(T_ONE as int) == 0 && w1(T_ONE as int) == 0 && w2(T_ONE as int) == 0)
        by (nonlinear_arith);
    assert(w0(0) == T3 && w3(T_ONE as int) == T3);
    assert(cubic_coord(x0, x1, x2, x3, 0) == ((T3 as int) * x0) / (T3 as int));
    assert(cubic_coord(x0, x1, x2, x3, T_ONE as int) == ((T3 as int) * x3) / (T3 as int));
    vstd::arithmetic::div_mod::lemma_div_multiples_vanish(x0, T3 as int);
    vstd::arithmetic::div_mod::lemma_div_multiples_vanish(x3, T3 as int);
}

/// Exact evaluation of one cubic coordinate.
pub fn eval_cubic_coord(x0: i64, x1: i64, x2: i64, x3: i64, t: i64) -> (r: i64)
    requires
        0 <= t <= T_ONE,
        -COORD_LIMIT <= x0 <= COORD_LIMIT,
        -COORD_LIMIT <= x1 <= COORD_LIMIT,
        -COORD_LIMIT <= x2 <= COORD_LIMIT,
        -COORD_LIMIT <= x3 <= COORD_LIMIT,
    ensures
        r == cubic_coord(x0 as int, x1 as int, x2 as int, x3 as int, t as int),
        -COORD_LIMIT <= r <= COORD_LIMIT,
{
    let ti: i128 = t as i128;
    let u: i128 = (T_ONE - t) as i128;
    proof {
        lemma_mul_range(u as int, u as int, 65536, 65536);
        lemma_mul_range(u as int * u as int, u as int, 4294967296, 65536);
        lemma_mul_range(u as int * u as int, t as int, 4294967296, 65536);
        lemma_mul_range(u as int, t as int, 65536, 65536);
        lemma_mul_range(u as int * t as int, t as int, 4294967296, 65536);
        lemma_mul_range(t as int, t as int, 65536, 65536);
        lemma_mul_range(t as int * t as int, t as int, 4294967296, 65536);
    }
    let uu: i128 = u * u;
    let w0e: i128 = uu * u;
    let w1e: i128 = 3 * (uu * ti);
    let ut: i128 = u * ti;
    let w2e: i128 = 3 * (ut * ti);
    let tt: i128 = ti * ti;
    let w3e: i128 = tt * ti;
    proof {
        lemma_weights(t as int);
        let ui = u as int;
        let tti = t as int;
        assert(3 * ((ui * ui) * tti) == 3 * ui * ui * tti) by (nonlinear_arith);
        assert(3 * ((ui * tti) * tti) == 3 * ui * tti * tti) by (nonlinear_arith);
        assert(w0e == w0(t as int) && w1e == w1(t as int) && w2e == w2(t as int)
            && w3e == w3(t as int));
        lemma_mul_range(w0e as int, x0 as int, T3 as int, COORD_LIMIT as int);
        lemma_mul_range(w1e as int, x1 as int, T3 as int, COORD_LIMIT as int);
        lemma_mul_range(w2e as int, x2 as int, T3 as int, COORD_LIMIT as int);
        lemma_mul_range(w3e as int, x3 as int, T3 as int, COORD_LIMIT as int);
    }
    let num: i128 = w0e * (x0 as i128) + w1e * (x1 as i128) + w2e * (x2 as i128)
        + w3e * (x3 as i128);
    let r = div_floor_i128(num, T3);
    proof {
        lemma_cubic_coord_bound(x0 as int, x1 as int, x2 as int, x3 as int, t as int,
            COORD_LIMIT as int);
    }
    r as i64
}

/// Exact evaluation of a cubic segment given its four control points.
pub fn eval_cubic_point(p0: Point, p1: Point, p2: Point, p3: Point, t: i64) -> (r: Point)
    requires
        0 <= t <= T_ONE,
        p0.in_bounds(),
        p1.in_bounds(),
        p2.in_bounds(),
        p3.in_bounds(),
    ensures
        r.x == cubic_coord(p0.x as int, p1.x as int, p2.x as int, p3.x as int, t as int),
        r.y == cubic_coord(p0.y as int, p1.y as int, p2.y as int, p3.y as int, t as int),
        r.in_bounds(),
{
    Point {
        x: eval_cubic_coord(p0.x, p1.x, p2.x, p3.x, t),
        y: eval_cubic_coord(p0.y, p1.y, p2.y, p3.y, t),
    }
}

/// Splits a global parameter over `n` segments into a segment index
/// and a local parameter, exactly as `spec_seg_of` / `spec_local_of`.
pub fn locate(n: usize, t: i64) -> (r: (usize, i64))
    requires
        1 <= n <= 268435456,
        0 <= t <= T_ONE,
    ensures
        r.0 as int == spec_seg_of(n as int, t as int),
        r.1 as int == spec_local_of(n as int, t as int),
        r.0 < n,
        0 <= r.1 <= T_ONE,
{
    if t == T_ONE {
        return (n - 1, T_ONE);
    }
    proof {
        lemma_mul_range(t as int, n as int, 65536, 268435456);
        assert(t as int * n as int <= 65535 * (n as int)) by (nonlinear_arith)
            requires t as int <= 65535, n as int >= 0;
    }
    let raw: i64 = t * (n as i64);
    let seg: i64 = div_floor_i64(raw, T_ONE);
    let loc: i64 = mod_floor_i64(raw, T_ONE);
    proof {
        lemma_div_pos_is_pos(raw as int, T_ONE as int);
        // raw <= T_ONE * n - 1, whose quotient is exactly n - 1
        assert(65535 * (n as int) == 65536 * (n as int) - (n as int));
        lemma_div_is_ordered(raw as int, 65536 * (n as int) - 1, 65536);
        lemma_fundamental_div_mod_converse(
            65536 * (n as int) - 1, 65536, n as int - 1, 65535);
        assert(0 <= (raw as int % 65536) < 65536);
    }
    (seg as usize, loc)
}

/// One coordinate of the first derivative of the cubic with respect
/// to the real parameter, in coordinate units.
pub open spec fn deriv_coord(x0: int, x1: int, x2: int, x3: int, t: int) -> int {
    (3 * ((T_ONE - t) * (T_ONE - t) * (x1 - x0) + 2 * (T_ONE - t) * t * (x2 - x1)
        + t * t * (x3 - x2))) / (T2 as int)
}

/// One coordinate of the second derivative of the cubic with respect
/// to the real parameter, in coordinate units.
pub open spec fn deriv2_coord(x0: int, x1: int, x2: int, x3: int, t: int) -> int {
    (6 * ((T_ONE - t) * (x2 - 2 * x1 + x0) + t * (x3 - 2 * x2 + x1))) / (T_ONE as int)
}

/// First derivative on segment `s` at local parameter `t`.
pub open spec fn spec_deriv_local(path: &Path, s: int, t: int) -> (int, int) {
    (
        deriv_coord(
            seg_p0(path, s).x as int, seg_p1(path, s).x as int,
            seg_p2(path, s).x as int, seg_p3(path, s).x as int, t,
        ),
        deriv_coord(
            seg_p0(path, s).y as int, seg_p1(path, s).y as int,
            seg_p2(path, s).y as int, seg_p3(path, s).y as int, t,
        ),
    )
}

/// Second derivative on segment `s` at local parameter `t`.
pub open spec fn spec_deriv2_local(path: &Path, s: int, t: int) -> (int, int) {
    (
        deriv2_coord(
            seg_p0(path, s).x as int, seg_p1(path, s).x as int,
            seg_p2(path, s).x as int, seg_p3(path, s).x as int, t,
        ),
        deriv2_coord(
            seg_p0(path, s).y as int, seg_p1(path, s).y as int,
            seg_p2(path, s).y as int, seg_p3(path, s).y as int, t,
        ),
    )
}

/// First derivative at global parameter `t`.
pub open spec fn spec_deriv(path: &Path, t: int) -> (int, int) {
    let n = path.seg_count_spec();
    spec_deriv_local(path, spec_seg_of(n, t), spec_local_of(n, t))
}

/// Second derivative at global parameter `t`.
pub open spec fn spec_deriv2(path: &Path, t: int) -> (int, int) {
    let n = path.seg_count_spec();
    spec_deriv2_local(path, spec_seg_of(n, t), spec_local_of(n, t))
}

/// A direction scaled to length about `T_ONE`: each component is the
/// floor of `d * T_ONE` over the floor square root of `|d|` squared.
pub open spec fn spec_unit(dx: int, dy: int) -> (int, int) {
    let m = sqrt_floor((dx * dx + dy * dy) as nat) as int;
    ((dx * (T_ONE as int)) / m, (dy * (T_ONE as int)) / m)
}

/// Curvature from the two derivatives, scaled by `T2`: the absolute
/// cross product over the magnitude-cubed denominator, with the square
/// root taken as `sqrt_floor`.
pub open spec fn spec_curvature_at(d1: (int, int), d2: (int, int)) -> int {
    let cross = abs_i(d1.0 * d2.1 - d1.1 * d2.0);
    let s = d1.0 * d1.0 + d1.1 * d1.1;
    (cross * (T2 as int)) / (s * (sqrt_floor(s as nat) as int))
}

/// The quadratic Bernstein weights are non-negative and sum to `T2`.
pub proof fn lemma_weights2(t: int)
    requires
        0 <= t <= T_ONE,
    ensures
        0 <= (T_ONE - t) * (T_ONE - t),
        0 <= 2 * (T_ONE - t) * t,
        0 <= t * t,
        (T_ONE - t) * (T_ONE - t) + 2 * (T_ONE - t) * t + t * t == T2,
{
    let u = T_ONE - t;
    assert(u * u >= 0 && 2 * u * t >= 0 && t * t >= 0
        && u * u + 2 * u * t + t * t == (u + t) * (u + t)) by (nonlinear_arith)
        requires 0 <= t, 0 <= u;
    assert((T_ONE as int) * (T_ONE as int) == T2) by (nonlinear_arith);
}

/// The first-derivative evaluation stays within `DERIV_LIMIT` when the
/// control values are within `COORD_LIMIT`.
pub proof fn lemma_deriv_coord_bound(x0: int, x1: int, x2: int, x3: int, t: int)
    requires
        0 <= t <= T_ONE,
        -COORD_LIMIT <= x0 <= COORD_LIMIT,
        -COORD_LIMIT <= x1 <= COORD_LIMIT,
        -COORD_LIMIT <= x2 <= COORD_LIMIT,
        -COORD_LIMIT <= x3 <= COORD_LIMIT,
    ensures
        -DERIV_LIMIT <= deriv_coord(x0, x1, x2, x3, t) <= DERIV_LIMIT,
{
    lemma_weights2(t);
    let u = T_ONE - t;
    let a0 = u * u;
    let a1 = 2 * u * t;
    let a2 = t * t;
    let lim = 2 * (COORD_LIMIT as int);
    assert(a0 * (x1 - x0) <= a0 * lim && a0 * (x1 - x0) >= -(a0 * lim)) by (nonlinear_arith)
        requires 0 <= a0, -lim <= x1 - x0 <= lim;
    assert(a1 * (x2 - x1) <= a1 * lim && a1 * (x2 - x1) >= -(a1 * lim)) by (nonlinear_arith)
        requires 0 <= a1, -lim <= x2 - x1 <= lim;
    assert(a2 * (x3 - x2) <= a2 * lim && a2 * (x3 - x2) >= -(a2 * lim)) by (nonlinear_arith)
        requires 0 <= a2, -lim <= x3 - x2 <= lim;
    assert((a0 + a1 + a2) * lim == a0 * lim + a1 * lim + a2 * lim) by (nonlinear_arith);
    let inner = a0 * (x1 - x0) + a1 * (x2 - x1) + a2 * (x3 - x2);
    assert(-((T2 as int) * lim) <= inner <= (T2 as int) * lim);
    lemma_div_range(3 * inner, T2 as int, 3 * lim);
}

/// The second-derivative evaluation stays within `DERIV2_LIMIT` when
/// the control values are within `COORD_LIMIT`.
pub proof fn lemma_deriv2_coord_bound(x0: int, x1: int, x2: int, x3: int, t: int)
    requires
        0 <= t <= T_ONE,
        -COORD_LIMIT <= x0 <= COORD_LIMIT,
        -COORD_LIMIT <= x1 <= COORD_LIMIT,
        -COORD_LIMIT <= x2 <= COORD_LIMIT,
        -COORD_LIMIT <= x3 <= COORD_LIMIT,
    ensures
        -DERIV2_LIMIT <= deriv2_coord(x0, x1, x2, x3, t) <= DERIV2_LIMIT,
{
    let u = T_ONE - t;
    let a = x2 - 2 * x1 + x0;
    let b = x3 - 2 * x2 + x1;
    let lim = 4 * (COORD_LIMIT as int);
    assert(u * a <= u * lim && u * a >= -(u * lim)) by (nonlinear_arith)
        requires 0 <= u, -lim <= a <= lim;
    assert(t * b <= t * lim && t * b >= -(t * lim)) by (nonlinear_arith)
        requires 0 <= t, -lim <= b <= lim;
    assert((u + t) * lim == u * lim + t * lim) by (nonlinear_arith);
    let inner = u * a + t * b;
    assert(-((T_ONE as int) * lim) <= inner <= (T_ONE as int) * lim);
    lemma_div_range(6 * inner, T_ONE as int, 6 * lim);
}

/// Exact evaluation of one first-derivative coordinate.
pub fn eval_deriv_coord(x0: i64, x1: i64, x2: i64, x3: i64, t: i64) -> (r: i64)
    requires
        0 <= t <= T_ONE,
        -COORD_LIMIT <= x0 <= COORD_LIMIT,
        -COORD_LIMIT <= x1 <= COORD_LIMIT,
        -COORD_LIMIT <= x2 <= COORD_LIMIT,
        -COORD_LIMIT <= x3 <= COORD_LIMIT,
    ensures
        r == deriv_coord(x0 as int, x1 as int, x2 as int, x3 as int, t as int),
        -DERIV_LIMIT <= r <= DERIV_LIMIT,
{
    let ti: i128 = t as i128;
    let u: i128 = (T_ONE - t) as i128;
    proof {
        lemma_mul_range(u as int, u as int, 65536, 65536);
        lemma_mul_range(u as int, t as int, 65536, 65536);
        lemma_mul_range(t as int, t as int, 65536, 65536);
    }
    let uu: i128 = u * u;
    let ut2: i128 = 2 * (u * ti);
    let tt: i128 = ti * ti;
    let d0: i128 = (x1 as i128) - (x0 as i128);
    let d1: i128 = (x2 as i128) - (x1 as i128);
    let d2: i128 = (x3 as i128) - (x2 as i128);
    proof {
        lemma_mul_range(uu as int, d0 as int, T2 as int, 2 * (COORD_LIMIT as int));
        lemma_mul_range(ut2 as int, d1 as int, 2 * (T2 as int), 2 * (COORD_LIMIT as int));
        lemma_mul_range(tt as int, d2 as int, T2 as int, 2 * (COORD_LIMIT as int));
    }
    let num: i128 = 3 * (uu * d0 + ut2 * d1 + tt * d2);
    let r = div_floor_i128(num, T2);
    proof {
        let ui = u as int;
        let tti = t as int;
        assert((2 * (ui * tti)) * (d1 as int) == 2 * ui * tti * (d1 as int))
            by (nonlinear_arith);
        lemma_deriv_coord_bound(x0 as int, x1 as int, x2 as int, x3 as int, t as int);
    }
    r as i64
}

/// Exact evaluation of one second-derivative coordinate.
pub fn eval_deriv2_coord(x0: i64, x1: i64, x2: i64, x3: i64, t: i64) -> (r: i64)
    requires
        0 <= t <= T_ONE,
        -COORD_LIMIT <= x0 <= COORD_LIMIT,
        -COORD_LIMIT <= x1 <= COORD_LIMIT,
        -COORD_LIMIT <= x2 <= COORD_LIMIT,
        -COORD_LIMIT <= x3 <= COORD_LIMIT,
    ensures
        r == deriv2_coord(x0 as int, x1 as int, x2 as int, x3 as int, t as int),
        -DERIV2_LIMIT <= r <= DERIV2_LIMIT,
{
    let ti: i128 = t as i128;
    let u: i128 = (T_ONE - t) as i128;
    let a: i128 = (x2 as i128) - 2 * (x1 as i128) + (x0 as i128);
    let b: i128 = (x3 as i128) - 2 * (x2 as i128) + (x1 as i128);
    proof {
        lemma_mul_range(u as int, a as int, 65536, 4 * (COORD_LIMIT as int));
        lemma_mul_range(t as int, b as int, 65536, 4 * (COORD_LIMIT as int));
    }
    let num: i128 = 6 * (u * a + ti * b);
    let r = div_floor_i128(num, T_ONE as i128);
    proof {
        lemma_deriv2_coord_bound(x0 as int, x1 as int, x2 as int, x3 as int, t as int);
    }
    r as i64
}

/// Scales a nonzero direction to length about `T_ONE`, exactly as
/// `spec_unit`: with `m` the integer magnitude of the input, the
/// result's length lies within a factor `(m + 1) / m` of `T_ONE` (up
/// to one unit of floor rounding per component), so it is essentially
/// unit for any input that is not tiny.  The direction itself is
/// exact.  The zero direction has no direction and is reported as
/// `DegenerateGeometry`.
pub fn normalize_dir(dx: i64, dy: i64) -> (r: Result<Point, PathError>)
    requires
        -DERIV2_LIMIT <= dx <= DERIV2_LIMIT,
        -DERIV2_LIMIT <= dy <= DERIV2_LIMIT,
    ensures
        match r {
            Ok(p) => {
                &&& (dx != 0 || dy != 0)
                &&& (p.x as int, p.y as int) == spec_unit(dx as int, dy as int)
                &&& -T_ONE <= p.x <= T_ONE
                &&& -T_ONE <= p.y <= T_ONE
            },
            Err(e) => e == PathError::DegenerateGeometry && dx == 0 && dy == 0,
        },
{
    if dx == 0 && dy == 0 {
        return Err(PathError::DegenerateGeometry);
    }
    proof {
        lemma_mul_range(dx as int, dx as int, DERIV2_LIMIT as int, DERIV2_LIMIT as int);
        lemma_mul_range(dy as int, dy as int, DERIV2_LIMIT as int, DERIV2_LIMIT as int);
        assert((dx as int) * (dx as int) >= 0 && (dy as int) * (dy as int) >= 0)
            by (nonlinear_arith);
        assert((dx as int) * (dx as int) + (dy as int) * (dy as int) > 0) by (nonlinear_arith)
            requires dx as int != 0 || dy as int != 0;
    }
    let s: i128 = (dx as i128) * (dx as i128) + (dy as i128) * (dy as i128);
    let m: u64 = isqrt_u128(s as u128);
    proof {
        if m == 0 {
            assert(((m as int) + 1) * ((m as int) + 1) == 1) by (nonlinear_arith)
                requires m as int == 0;
            assert(false);
        }
        // |dx| <= m and |dy| <= m, since each square is at most
        // s < (m + 1) * (m + 1)
        assert(-(m as int) <= dx as int <= m as int && -(m as int) <= dy as int <= m as int)
            by (nonlinear_arith)
            requires
                (dx as int) * (dx as int) + (dy as int) * (dy as int)
                    < ((m as int) + 1) * ((m as int) + 1),
                0 <= m as int;
        lemma_mul_range(dx as int, 65536, m as int, 65536);
        lemma_mul_range(dy as int, 65536, m as int, 65536);
        assert((m as int) * 65536 == 65536 * (m as int));
    }
    let tx = div_floor_i128((dx as i128) * 65536, m as i128);
    let ty = div_floor_i128((dy as i128) * 65536, m as i128);
    proof {
        lemma_div_range((dx as int) * 65536, m as int, 65536);
        lemma_div_range((dy as int) * 65536, m as int, 65536);
    }
    Ok(Point { x: tx as i64, y: ty as i64 })
}

impl Path {
    /// The four control points of segment `s`.
    pub fn segment_points(&self, s: usize) -> (q: (Point, Point, Point, Point))
        requires
            self.wf(),
            (s as int) < self.seg_count_spec(),
        ensures
            q.0 == seg_p0(self, s as int),
            q.1 == seg_p1(self, s as int),
            q.2 == seg_p2(self, s as int),
            q.3 == seg_p3(self, s as int),
            q.0.in_bounds() && q.1.in_bounds() && q.2.in_bounds() && q.3.in_bounds(),
    {
        let a = self.handle_at(s);
        let e_idx = if s + 1 == self.len() { 0 } else { s + 1 };
        let e = self.handle_at(e_idx);
        (a.anchor, a.ctrl_out, e.ctrl_in, e.anchor)
    }

    /// Position on segment `s` at local parameter `t`, by cubic
    /// Bernstein interpolation of the segment's control points.
    pub fn position_local(&self, s: usize, t: i64) -> (r: Point)
        requires
            self.wf(),
            (s as int) < self.seg_count_spec(),
            0 <= t <= T_ONE,
        ensures
            (r.x as int, r.y as int) == spec_position_local(self, s as int, t as int),
            r.in_bounds(),
    {
        let (p0, p1, p2, p3) = self.segment_points(s);
        eval_cubic_point(p0, p1, p2, p3, t)
    }

    /// Position at global parameter `t`.  A path without segments has
    /// no geometry to evaluate and reports `DegenerateGeometry`.
    pub fn position(&self, t: i64) -> (r: Result<Point, PathError>)
        requires
            self.wf(),
            0 <= t <= T_ONE,
        ensures
            match r {
                Ok(p) => {
                    &&& self.seg_count_spec() > 0
                    &&& (p.x as int, p.y as int) == spec_position(self, t as int)
                    &&& p.in_bounds()
                },
                Err(e) => e == PathError::DegenerateGeometry && self.seg_count_spec() == 0,
            },
    {
        let n = self.segment_count();
        if n == 0 {
            return Err(PathError::DegenerateGeometry);
        }
        let (s, lt) = locate(n, t);
        Ok(self.position_local(s, lt))
    }

    /// First derivative on segment `s` at local parameter `t`, in
    /// coordinate units per unit of the real parameter.
    pub fn derivative_local(&self, s: usize, t: i64) -> (r: (i64, i64))
        requires
            self.wf(),
            (s as int) < self.seg_count_spec(),
            0 <= t <= T_ONE,
        ensures
            (r.0 as int, r.1 as int) == spec_deriv_local(self, s as int, t as int),
            -DERIV_LIMIT <= r.0 <= DERIV_LIMIT,
            -DERIV_LIMIT <= r.1 <= DERIV_LIMIT,
    {
        let (p0, p1, p2, p3) = self.segment_points(s);
        (
            eval_deriv_coord(p0.x, p1.x, p2.x, p3.x, t),
            eval_deriv_coord(p0.y, p1.y, p2.y, p3.y, t),
        )
    }

    /// Second derivative on segment `s` at local parameter `t`.
    pub fn second_derivative_local(&self, s: usize, t: i64) -> (r: (i64, i64))
        requires
            self.wf(),
            (s as int) < self.seg_count_spec(),
            0 <= t <= T_ONE,
        ensures
            (r.0 as int, r.1 as int) == spec_deriv2_local(self, s as int, t as int),
            -DERIV2_LIMIT <= r.0 <= DERIV2_LIMIT,
            -DERIV2_LIMIT <= r.1 <= DERIV2_LIMIT,
    {
        let (p0, p1, p2, p3) = self.segment_points(s);
        (
            eval_deriv2_coord(p0.x, p1.x, p2.x, p3.x, t),
            eval_deriv2_coord(p0.y, p1.y, p2.y, p3.y, t),
        )
    }

    /// Unit tangent (scaled to length about `T_ONE`) on segment `s` at
    /// local parameter `t`.  A zero first derivative (a cusp or
    /// collapsed handle) has no tangent and is reported as
    /// `DegenerateGeometry`.
    pub fn tangent_local(&self, s: usize, t: i64) -> (r: Result<Point, PathError>)
        requires
            self.wf(),
            (s as int) < self.seg_count_spec(),
            0 <= t <= T_ONE,
        ensures
            match r {
                Ok(p) => {
                    &&& spec_deriv_local(self, s as int, t as int) != (0int, 0int)
                    &&& (p.x as int, p.y as int) == spec_unit(
                        spec_deriv_local(self, s as int, t as int).0,
                        spec_deriv_local(self, s as int, t as int).1)
                    &&& -T_ONE <= p.x <= T_ONE
                    &&& -T_ONE <= p.y <= T_ONE
                },
                Err(e) => {
                    &&& e == PathError::DegenerateGeometry
                    &&& spec_deriv_local(self, s as int, t as int) == (0int, 0int)
                },
            },
    {
        let (dx, dy) = self.derivative_local(s, t);
        normalize_dir(dx, dy)
    }

    /// Unit tangent at global parameter `t`.  A path without segments,
    /// or a zero first derivative, is reported as
    /// `DegenerateGeometry`.
    pub fn tangent(&self, t: i64) -> (r: Result<Point, PathError>)
        requires
            self.wf(),
            0 <= t <= T_ONE,
        ensures
            match r {
                Ok(p) => {
                    &&& self.seg_count_spec() > 0
                    &&& spec_deriv(self, t as int) != (0int, 0int)
                    &&& (p.x as int, p.y as int) == spec_unit(
                        spec_deriv(self, t as int).0, spec_deriv(self, t as int).1)
                    &&& -T_ONE <= p.x <= T_ONE
                    &&& -T_ONE <= p.y <= T_ONE
                },
                Err(e) => {
                    &&& e == PathError::DegenerateGeometry
                    &&& (self.seg_count_spec() == 0
                        || spec_deriv(self, t as int) == (0int, 0int))
                },
            },
    {
        let n = self.segment_count();
        if n == 0 {
            return Err(PathError::DegenerateGeometry);
        }
        let (s, lt) = locate(n, t);
        self.tangent_local(s, lt)
    }

    /// Unit normal on segment `s` at local parameter `t`: the local
    /// tangent rotated a quarter turn counterclockwise.
    pub fn normal_local(&self, s: usize, t: i64) -> (r: Result<Point, PathError>)
        requires
            self.wf(),
            (s as int) < self.seg_count_spec(),
            0 <= t <= T_ONE,
        ensures
            match r {
                Ok(p) => {
                    &&& spec_deriv_local(self, s as int, t as int) != (0int, 0int)
                    &&& p.x as int == -spec_unit(
                        spec_deriv_local(self, s as int, t as int).0,
                        spec_deriv_local(self, s as int, t as int).1).1
                    &&& p.y as int == spec_unit(
                        spec_deriv_local(self, s as int, t as int).0,
                        spec_deriv_local(self, s as int, t as int).1).0
                    &&& -T_ONE <= p.x <= T_ONE
                    &&& -T_ONE <= p.y <= T_ONE
                },
                Err(e) => {
                    &&& e == PathError::DegenerateGeometry
                    &&& spec_deriv_local(self, s as int, t as int) == (0int, 0int)
                },
            },
    {
        match self.tangent_local(s, t) {
            Ok(p) => Ok(Point { x: -p.y, y: p.x }),
            Err(e) => Err(e),
        }
    }

    /// Unit normal at global parameter `t`: the tangent rotated a
    /// quarter turn counterclockwise, `(x, y)` to `(-y, x)`.
    pub fn normal(&self, t: i64) -> (r: Result<Point, PathError>)
        requires
            self.wf(),
            0 <= t <= T_ONE,
        ensures
            match r {
                Ok(p) => {
                    &&& self.seg_count_spec() > 0
                    &&& spec_deriv(self, t as int) != (0int, 0int)
                    &&& p.x as int == -spec_unit(
                        spec_deriv(self, t as int).0, spec_deriv(self, t as int).1).1
                    &&& p.y as int == spec_unit(
                        spec_deriv(self, t as int).0, spec_deriv(self, t as int).1).0
                    &&& -T_ONE <= p.x <= T_ONE
                    &&& -T_ONE <= p.y <= T_ONE
                },
                Err(e) => {
                    &&& e == PathError::DegenerateGeometry
                    &&& (self.seg_count_spec() == 0
                        || spec_deriv(self, t as int) == (0int, 0int))
                },
            },
    {
        match self.tangent(t) {
            Ok(p) => Ok(Point { x: -p.y, y: p.x }),
            Err(e) => Err(e),
        }
    }

    /// Curvature on segment `s` at local parameter `t`, scaled by
    /// `T2`, computed as `spec_curvature_at` of the two derivatives.
    /// When the first derivative vanishes the quantity is undefined
    /// and reported as `DegenerateGeometry` rather than an arbitrary
    /// number.
    pub fn curvature_local(&self, s: usize, t: i64) -> (r: Result<i128, PathError>)
        requires
            self.wf(),
            (s as int) < self.seg_count_spec(),
            0 <= t <= T_ONE,
        ensures
            match r {
                Ok(k) => {
                    &&& spec_deriv_local(self, s as int, t as int) != (0int, 0int)
                    &&& k == spec_curvature_at(
                        spec_deriv_local(self, s as int, t as int),
                        spec_deriv2_local(self, s as int, t as int))
                    &&& k >= 0
                },
                Err(e) => {
                    &&& e == PathError::DegenerateGeometry
                    &&& spec_deriv_local(self, s as int, t as int) == (0int, 0int)
                },
            },
    {
        let (d1x, d1y) = self.derivative_local(s, t);
        let (d2x, d2y) = self.second_derivative_local(s, t);
        if d1x == 0 && d1y == 0 {
            return Err(PathError::DegenerateGeometry);
        }
        proof {
            lemma_mul_range(d1x as int, d2y as int, DERIV_LIMIT as int, DERIV2_LIMIT as int);
            lemma_mul_range(d1y as int, d2x as int, DERIV_LIMIT as int, DERIV2_LIMIT as int);
            lemma_mul_range(d1x as int, d1x as int, DERIV_LIMIT as int, DERIV_LIMIT as int);
            lemma_mul_range(d1y as int, d1y as int, DERIV_LIMIT as int, DERIV_LIMIT as int);
            assert((d1x as int) * (d1x as int) >= 0 && (d1y as int) * (d1y as int) >= 0)
                by (nonlinear_arith);
            assert((d1x as int) * (d1x as int) + (d1y as int) * (d1y as int) > 0)
                by (nonlinear_arith)
                requires d1x as int != 0 || d1y as int != 0;
        }
        let cross: i128 = (d1x as i128) * (d2y as i128) - (d1y as i128) * (d2x as i128);
        let cross_abs: i128 = if cross < 0 { -cross } else { cross };
        let sden: i128 = (d1x as i128) * (d1x as i128) + (d1y as i128) * (d1y as i128);
        let m: u64 = isqrt_u128(sden as u128);
        proof {
            if m == 0 {
                assert(((m as int) + 1) * ((m as int) + 1) == 1) by (nonlinear_arith)
                    requires m as int == 0;
                assert(false);
            }
            assert(sden as int
                <= 2 * ((DERIV_LIMIT as int) * (DERIV_LIMIT as int)));
            assert(m as int <= 34359738368) by (nonlinear_arith)
                requires
                    (m as int) * (m as int) <= sden as int,
                    sden as int <= 332041393326771929088,
                    0 <= m as int;
            lemma_mul_range(sden as int, m as int, 332041393326771929088, 34359738368);
            assert(sden as int * (m as int) >= 1) by (nonlinear_arith)
                requires sden as int >= 1, m as int >= 1;
            assert(cross_abs as int
                <= 2 * ((DERIV_LIMIT as int) * (DERIV2_LIMIT as int)));
            lemma_mul_range(cross_abs as int, T2 as int, 1328165573307087716352, T2 as int);
        }
        let denom: i128 = sden * (m as i128);
        let k = div_floor_i128(cross_abs * (T2 as i128), denom);
        proof {
            lemma_div_pos_is_pos(cross_abs as int * (T2 as int), denom as int);
        }
        Ok(k)
    }

    /// Curvature at global parameter `t`.
    pub fn curvature(&self, t: i64) -> (r: Result<i128, PathError>)
        requires
            self.wf(),
            0 <= t <= T_ONE,
        ensures
            match r {
                Ok(k) => {
                    &&& self.seg_count_spec() > 0
                    &&& spec_deriv(self, t as int) != (0int, 0int)
                    &&& k == spec_curvature_at(
                        spec_deriv(self, t as int), spec_deriv2(self, t as int))
                    &&& k >= 0
                },
                Err(e) => {
                    &&& e == PathError::DegenerateGeometry
                    &&& (self.seg_count_spec() == 0
                        || spec_deriv(self, t as int) == (0int, 0int))
                },
            },
    {
        let n = self.segment_count();
        if n == 0 {
            return Err(PathError::DegenerateGeometry);
        }
        let (s, lt) = locate(n, t);
        self.curvature_local(s, lt)
    }

    /// The global parameter of local parameter `t` on segment `s`: the
    /// deterministic inverse of the global-to-local split, floor
    /// rounded.
    pub fn global_parameter(&self, s: usize, t: i64) -> (r: i64)
        requires
            self.wf(),
            self.seg_count_spec() > 0,
            (s as int) < self.seg_count_spec(),
            0 <= t <= T_ONE,
        ensures
            r == (s as int * (T_ONE as int) + t as int) / self.seg_count_spec(),
            0 <= r <= T_ONE,
    {
        let n = self.segment_count();
        proof {
            lemma_mul_range(s as int, 65536, 268435456, 65536);
        }
        let raw: i64 = (s as i64) * T_ONE + t;
        let tg = div_floor_i64(raw, n as i64);
        proof {
            lemma_div_pos_is_pos(raw as int, n as int);
            assert(raw as int <= (n as int) * 65536) by (nonlinear_arith)
                requires
                    raw as int == s as int * 65536 + t as int,
                    s as int <= n as int - 1,
                    t as int <= 65536,
                    n as int >= 1;
            lemma_div_range(raw as int, n as int, 65536);
        }
        tg
    }
}

/// One point rotated about a centre by a fixed-point rotation whose
/// cosine and sine are scaled by `T_ONE`, with floor rounding.
pub open spec fn spec_rotate(px: int, py: int, cx: int, cy: int, cos_fp: int, sin_fp: int)
    -> (int, int) {
    (
        cx + ((px - cx) * cos_fp - (py - cy) * sin_fp) / (T_ONE as int),
        cy + ((px - cx) * sin_fp + (py - cy) * cos_fp) / (T_ONE as int),
    )
}

/// Whether every mapped coordinate of the handle's three points stays
/// within the coordinate range under the rotation.
pub open spec fn rotation_fits(h: Handle, c: Point, cos_fp: int, sin_fp: int) -> bool {
    &&& -COORD_LIMIT <= spec_rotate(
        h.anchor.x as int, h.anchor.y as int, c.x as int, c.y as int, cos_fp, sin_fp).0
        <= COORD_LIMIT
    &&& -COORD_LIMIT <= spec_rotate(
        h.anchor.x as int, h.anchor.y as int, c.x as int, c.y as int, cos_fp, sin_fp).1
        <= COORD_LIMIT
    &&& -COORD_LIMIT <= spec_rotate(
        h.ctrl_in.x as int, h.ctrl_in.y as int, c.x as int, c.y as int, cos_fp, sin_fp).0
        <= COORD_LIMIT
    &&& -COORD_LIMIT <= spec_rotate(
        h.ctrl_in.x as int, h.ctrl_in.y as int, c.x as int, c.y as int, cos_fp, sin_fp).1
        <= COORD_LIMIT
    &&& -COORD_LIMIT <= spec_rotate(
        h.ctrl_out.x as int, h.ctrl_out.y as int, c.x as int, c.y as int, cos_fp, sin_fp).0
        <= COORD_LIMIT
    &&& -COORD_LIMIT <= spec_rotate(
        h.ctrl_out.x as int, h.ctrl_out.y as int, c.x as int, c.y as int, cos_fp, sin_fp).1
        <= COORD_LIMIT
}

/// Exact fixed-point rotation of one point about a centre.
fn rotate_point(p: Point, c: Point, cos_fp: i64, sin_fp: i64) -> (r: (i64, i64))
    requires
        p.in_bounds(),
        c.in_bounds(),
        -T_ONE <= cos_fp <= T_ONE,
        -T_ONE <= sin_fp <= T_ONE,
    ensures
        (r.0 as int, r.1 as int) == spec_rotate(
            p.x as int, p.y as int, c.x as int, c.y as int, cos_fp as int, sin_fp as int),
{
    proof {
        lemma_mul_range(p.x as int - c.x as int, cos_fp as int, 4294967296, 65536);
        lemma_mul_range(p.y as int - c.y as int, sin_fp as int, 4294967296, 65536);
        lemma_mul_range(p.x as int - c.x as int, sin_fp as int, 4294967296, 65536);
        lemma_mul_range(p.y as int - c.y as int, cos_fp as int, 4294967296, 65536);
        lemma_div_range((p.x as int - c.x as int) * (cos_fp as int)
            - (p.y as int - c.y as int) * (sin_fp as int), 65536, 8589934592);
        lemma_div_range((p.x as int - c.x as int) * (sin_fp as int)
            + (p.y as int - c.y as int) * (cos_fp as int), 65536, 8589934592);
    }
    let dx: i128 = (p.x as i128) - (c.x as i128);
    let dy: i128 = (p.y as i128) - (c.y as i128);
    let rx = div_floor_i128(dx * (cos_fp as i128) - dy * (sin_fp as i128), 65536);
    let ry = div_floor_i128(dx * (sin_fp as i128) + dy * (cos_fp as i128), 65536);
    (c.x + rx as i64, c.y + ry as i64)
}

impl Path {
    /// The path rotated about `center` by the fixed-point rotation
    /// with cosine `cos_fp` and sine `sin_fp` (each scaled by
    /// `T_ONE`): every point of every handle maps by the exact
    /// `spec_rotate` formula.  A handle whose image leaves the
    /// coordinate range is a malformed request, rejected as
    /// `InvalidArgument`.
    pub fn rotate_fixed(&self, cos_fp: i64, sin_fp: i64, center: Point)
        -> (r: Result<Path, PathError>)
        requires
            self.wf(),
            -T_ONE <= cos_fp <= T_ONE,
            -T_ONE <= sin_fp <= T_ONE,
            center.in_bounds(),
        ensures
            match r {
                Ok(q) => {
                    &&& q.wf()
                    &&& q.closed_view() == self.closed_view()
                    &&& q.handles_view().len() == self.handles_view().len()
                    &&& forall|i: int| 0 <= i < self.handles_view().len() ==> {
                        let h = #[trigger] self.handles_view()[i];
                        let g = q.handles_view()[i];
                        &&& (g.anchor.x as int, g.anchor.y as int) == spec_rotate(
                            h.anchor.x as int, h.anchor.y as int,
                            center.x as int, center.y as int, cos_fp as int, sin_fp as int)
                        &&& (g.ctrl_in.x as int, g.ctrl_in.y as int) == spec_rotate(
                            h.ctrl_in.x as int, h.ctrl_in.y as int,
                            center.x as int, center.y as int, cos_fp as int, sin_fp as int)
                        &&& (g.ctrl_out.x as int, g.ctrl_out.y as int) == spec_rotate(
                            h.ctrl_out.x as int, h.ctrl_out.y as int,
                            center.x as int, center.y as int, cos_fp as int, sin_fp as int)
                    }
                },
                Err(e) => {
                    &&& e == PathError::InvalidArgument
                    &&& exists|i: int|
                        0 <= i < self.handles_view().len() && !rotation_fits(
                            #[trigger] self.handles_view()[i], center,
                            cos_fp as int, sin_fp as int)
                },
            },
    {
        let len = self.len();
        let mut out: Vec<Handle> = Vec::new();
        let mut i: usize = 0;
        while i < len
            invariant
                self.wf(),
                center.in_bounds(),
                -T_ONE <= cos_fp <= T_ONE,
                -T_ONE <= sin_fp <= T_ONE,
                0 <= i <= len,
                len == self.handles_view().len(),
                out@.len() == i,
                forall|j: int| 0 <= j < i ==> (#[trigger] out@[j]).in_bounds(),
                forall|j: int| 0 <= j < i ==> {
                    let h = #[trigger] self.handles_view()[j];
                    let g = out@[j];
                    &&& (g.anchor.x as int, g.anchor.y as int) == spec_rotate(
                        h.anchor.x as int, h.anchor.y as int,
                        center.x as int, center.y as int, cos_fp as int, sin_fp as int)
                    &&& (g.ctrl_in.x as int, g.ctrl_in.y as int) == spec_rotate(
                        h.ctrl_in.x as int, h.ctrl_in.y as int,
                        center.x as int, center.y as int, cos_fp as int, sin_fp as int)
                    &&& (g.ctrl_out.x as int, g.ctrl_out.y as int) == spec_rotate(
                        h.ctrl_out.x as int, h.ctrl_out.y as int,
                        center.x as int, center.y as int, cos_fp as int, sin_fp as int)
                },
            decreases len - i,
        {
            let h = self.handle_at(i);
            let (ax, ay) = rotate_point(h.anchor, center, cos_fp, sin_fp);
            let (ix, iy) = rotate_point(h.ctrl_in, center, cos_fp, sin_fp);
            let (ox, oy) = rotate_point(h.ctrl_out, center, cos_fp, sin_fp);
            if !(-COORD_LIMIT <= ax && ax <= COORD_LIMIT
                && -COORD_LIMIT <= ay && ay <= COORD_LIMIT
                && -COORD_LIMIT <= ix && ix <= COORD_LIMIT
                && -COORD_LIMIT <= iy && iy <= COORD_LIMIT
                && -COORD_LIMIT <= ox && ox <= COORD_LIMIT
                && -COORD_LIMIT <= oy && oy <= COORD_LIMIT)
            {
                proof {
                    assert(!rotation_fits(self.handles_view()[i as int], center,
                        cos_fp as int, sin_fp as int));
                }
                return Err(PathError::InvalidArgument);
            }
            out.push(Handle {
                anchor: Point { x: ax, y: ay },
                ctrl_in: Point { x: ix, y: iy },
                ctrl_out: Point { x: ox, y: oy },
            });
            i += 1;
        }
        let q = Path::create(out, self.is_closed());
        proof {
            assert(self.closed_view() ==> self.handles_view().len() >= 2);
        }
        Ok(q)
    }
}

/// Position at the path ends: global parameter 0 evaluates exactly to
/// the first handle's anchor; global parameter `T_ONE` evaluates to
/// the last handle's anchor on an open path, and back to the first
/// anchor (the same point as at 0) on a closed one.
pub proof fn lemma_position_endpoints(path: &Path)
    requires
        path.wf(),
        path.seg_count_spec() > 0,
    ensures
        spec_position(path, 0) == (
            path.handles_view()[0].anchor.x as int,
            path.handles_view()[0].anchor.y as int,
        ),
        !path.closed_view() ==> spec_position(path, T_ONE as int) == (
            path.handles_view()[path.handles_view().len() - 1].anchor.x as int,
            path.handles_view()[path.handles_view().len() - 1].anchor.y as int,
        ),
        path.closed_view() ==> spec_position(path, T_ONE as int) == spec_position(path, 0),
    decreases 0int,
{
    let n = path.seg_count_spec();
    let len = path.handles_view().len() as int;
    // parameter 0 lands on segment 0 at local 0
    assert(0 * n == 0) by (nonlinear_arith);
    assert(spec_seg_of(n, 0) == 0 && spec_local_of(n, 0) == 0) by {
        vstd::arithmetic::div_mod::lemma_basic_div(0, T_ONE as int);
        vstd::arithmetic::div_mod::lemma_small_mod(0, T_ONE as nat);
    }
    assert(path.handles_view()[0].in_bounds());
    assert(path.handles_view()[seg_end_index(path, 0)].in_bounds());
    lemma_cubic_coord_ends(
        seg_p0(path, 0).x as int, seg_p1(path, 0).x as int,
        seg_p2(path, 0).x as int, seg_p3(path, 0).x as int);
    lemma_cubic_coord_ends(
        seg_p0(path, 0).y as int, seg_p1(path, 0).y as int,
        seg_p2(path, 0).y as int, seg_p3(path, 0).y as int);
    // parameter T_ONE lands on the last segment at local T_ONE
    let last = n - 1;
    assert(path.handles_view()[last].in_bounds());
    assert(path.handles_view()[seg_end_index(path, last)].in_bounds());
    lemma_cubic_coord_ends(
        seg_p0(path, last).x as int, seg_p1(path, last).x as int,
        seg_p2(path, last).x as int, seg_p3(path, last).x as int);
    lemma_cubic_coord_ends(
        seg_p0(path, last).y as int, seg_p1(path, last).y as int,
        seg_p2(path, last).y as int, seg_p3(path, last).y as int);
    if path.closed_view() {
        assert(seg_end_index(path, last) == 0);
    } else {
        assert(seg_end_index(path, last) == len - 1);
    }
}

} // verus!

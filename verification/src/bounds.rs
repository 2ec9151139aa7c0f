//! Bounding-box computation and inflection-point extraction, built on
//! the evaluator's derivative machinery.

use vstd::prelude::*;
use crate::num::{
    T_ONE, T2, div_floor_i128, div_floor_i64, isqrt_u128,
    lemma_mul_range, lemma_div_range,
};
use vstd::arithmetic::div_mod::{lemma_div_is_ordered, lemma_div_multiples_vanish};
use crate::path::{Point, Path};
use crate::eval::spec_position_local;

verus! {

/// Two reported inflection parameters closer than this gap count as
/// duplicates and only the first is kept.
pub const INFLECTION_MIN_GAP: i64 = 16;

/// An axis-aligned box, as its two extreme corners.
#[derive(Clone, Copy, Debug, PartialEq, Eq, Structural)]
pub struct Rect {
    pub min: Point,
    pub max: Point,
}

/// Whether `p` lies in `r`, boundary included.
pub open spec fn in_rect(r: Rect, p: Point) -> bool {
    &&& r.min.x <= p.x <= r.max.x
    &&& r.min.y <= p.y <= r.max.y
}

/// Whether the value `v` is the x coordinate of some point of the
/// path: a handle anchor, or a position evaluated on some segment.
pub open spec fn attained_x(path: &Path, v: int) -> bool {
    ||| exists|i: int|
        0 <= i < path.handles_view().len()
            && v == (#[trigger] path.handles_view()[i]).anchor.x
    ||| exists|s: int, t: int|
        0 <= s < path.seg_count_spec() && 0 <= t <= T_ONE
            && v == (#[trigger] spec_position_local(path, s, t)).0
}

/// Whether the value `v` is the y coordinate of some point of the
/// path.
pub open spec fn attained_y(path: &Path, v: int) -> bool {
    ||| exists|i: int|
        0 <= i < path.handles_view().len()
            && v == (#[trigger] path.handles_view()[i]).anchor.y
    ||| exists|s: int, t: int|
        0 <= s < path.seg_count_spec() && 0 <= t <= T_ONE
            && v == (#[trigger] spec_position_local(path, s, t)).1
}

/// Pushes `v` as a candidate parameter when it lies in `[0, T_ONE]`.
fn push_candidate(out: &mut Vec<i64>, v: i128)
    requires
        forall|i: int| 0 <= i < old(out)@.len() ==> 0 <= #[trigger] old(out)@[i] <= T_ONE,
    ensures
        forall|i: int| 0 <= i < final(out)@.len() ==> 0 <= #[trigger] final(out)@[i] <= T_ONE,
{
    if 0 <= v && v <= T_ONE as i128 {
        out.push(v as i64);
    }
}

/// Floor-rounded real roots of `a * t * t + b * t + c == 0` within
/// `[0, T_ONE]`, each bracketed together with its successor so the
/// true root lies between pushed candidates.  Coefficients are scaled
/// down first so the discriminant arithmetic stays in range.
fn quad_roots(a0: i128, b0: i128, c0: i128) -> (v: Vec<i64>)
    requires
        -0x10000000000000000000000000 <= a0 <= 0x10000000000000000000000000,
        -0x10000000000000000000000000 <= b0 <= 0x10000000000000000000000000,
        -0x10000000000000000000000000 <= c0 <= 0x10000000000000000000000000,
    ensures
        forall|i: int| 0 <= i < v@.len() ==> 0 <= #[trigger] v@[i] <= T_ONE,
{
    let mut out: Vec<i64> = Vec::new();
    let lim: i128 = 0x40000000000000;
    let mut a = a0;
    let mut b = b0;
    let mut c = c0;
    let mut iters: u32 = 0;
    while (a > lim || a < -lim || b > lim || b < -lim || c > lim || c < -lim) && iters < 80
        invariant
            -0x10000000000000000000000000 <= a <= 0x10000000000000000000000000,
            -0x10000000000000000000000000 <= b <= 0x10000000000000000000000000,
            -0x10000000000000000000000000 <= c <= 0x10000000000000000000000000,
            out@.len() == 0,
        decreases 80 - iters,
    {
        let pa = a;
        let pb = b;
        let pc = c;
        a = div_floor_i128(pa, 2);
        b = div_floor_i128(pb, 2);
        c = div_floor_i128(pc, 2);
        proof {
            lemma_halving_keeps_range(pa as int);
            lemma_halving_keeps_range(pb as int);
            lemma_halving_keeps_range(pc as int);
        }
        iters += 1;
    }
    if a > lim || a < -lim || b > lim || b < -lim || c > lim || c < -lim {
        return out;
    }
    if a == 0 {
        if b == 0 {
            return out;
        }
        let (bb, cc) = if b < 0 { (-b, -c) } else { (b, c) };
        let r = div_floor_i128(-cc, bb);
        push_candidate(&mut out, r);
        if r < i128::MAX {
            push_candidate(&mut out, r + 1);
        }
        return out;
    }
    let (aa, bb, cc) = if a < 0 { (-a, -b, -c) } else { (a, b, c) };
    proof {
        lemma_mul_range(bb as int, bb as int, 0x40000000000000, 0x40000000000000);
        lemma_mul_range(aa as int, cc as int, 0x40000000000000, 0x40000000000000);
    }
    let disc: i128 = bb * bb - 4 * (aa * cc);
    if disc < 0 {
        return out;
    }
    let sq: i128 = isqrt_u128(disc as u128) as i128;
    let denom: i128 = 2 * aa;
    let r1 = div_floor_i128(-bb - sq, denom);
    let r2 = div_floor_i128(-bb + sq, denom);
    push_candidate(&mut out, r1);
    if r1 < i128::MAX {
        push_candidate(&mut out, r1 + 1);
    }
    push_candidate(&mut out, r2);
    if r2 < i128::MAX {
        push_candidate(&mut out, r2 + 1);
    }
    out
}

/// The cross product of the path's first and second derivative on
/// segment `s` at local parameter `t`: the quantity whose sign change
/// marks an inflection.
pub open spec fn inflection_cross(path: &Path, s: int, t: int) -> int {
    let d1 = crate::eval::spec_deriv_local(path, s, t);
    let d2 = crate::eval::spec_deriv2_local(path, s, t);
    d1.0 * d2.1 - d1.1 * d2.0
}

/// Whether the reported global parameter `tg` comes from a local
/// parameter on some segment beside which (within one parameter tick)
/// the derivative cross product vanishes or changes sign.
pub open spec fn inflection_witness(path: &Path, tg: i64) -> bool {
    exists|s: int, lt: int, a: int|
        #![trigger inflection_cross(path, s, a),
            crate::intersect::spec_global_of(path.seg_count_spec(), s, lt)]
        {
            &&& 0 <= s < path.seg_count_spec()
            &&& 0 < lt < T_ONE
            &&& tg == crate::intersect::spec_global_of(path.seg_count_spec(), s, lt)
            &&& lt - 1 <= a <= lt + 1
            &&& 0 <= a
            &&& a + 1 <= T_ONE
            &&& (inflection_cross(path, s, a) == 0
                || (inflection_cross(path, s, a) < 0 && inflection_cross(path, s, a + 1) > 0)
                || (inflection_cross(path, s, a) > 0 && inflection_cross(path, s, a + 1) < 0))
        }
}

/// Floor division by two keeps a symmetric range.
proof fn lemma_halving_keeps_range(x: int)
    requires
        -0x10000000000000000000000000 <= x <= 0x10000000000000000000000000,
    ensures
        -0x10000000000000000000000000 <= x / 2 <= 0x10000000000000000000000000,
{
    let m = 0x10000000000000000000000000int;
    lemma_div_is_ordered(-m, x, 2);
    lemma_div_is_ordered(x, m, 2);
    lemma_div_multiples_vanish(m / 2, 2);
    assert(2 * (m / 2) == m);
    lemma_div_multiples_vanish(-(m / 2), 2);
    assert(2 * (-(m / 2)) == -m);
}

impl Path {
    /// The axis-aligned bounding box of the computed axis extrema: the
    /// union, over every segment, of the segment endpoints and the
    /// evaluated roots of the per-coordinate derivative quadratic.
    /// The box contains every handle anchor, and each of its four
    /// sides is attained by a point of the path (an anchor or an
    /// evaluated position).  An empty path yields the zero-area box at
    /// the origin.
    pub fn bounding_box(&self) -> (r: Rect)
        requires
            self.wf(),
        ensures
            self.handles_view().len() == 0 ==> r == (Rect {
                min: Point { x: 0, y: 0 },
                max: Point { x: 0, y: 0 },
            }),
            self.handles_view().len() > 0 ==> {
                &&& forall|i: int|
                    0 <= i < self.handles_view().len()
                        ==> in_rect(r, (#[trigger] self.handles_view()[i]).anchor)
                &&& forall|s2: int, k2: int|
                    0 <= s2 < self.seg_count_spec() && 0 <= k2 <= 8 ==> {
                        let c = #[trigger] spec_position_local(self, s2, k2 * 8192);
                        r.min.x <= c.0 <= r.max.x && r.min.y <= c.1 <= r.max.y
                    }
                &&& attained_x(self, r.min.x as int)
                &&& attained_x(self, r.max.x as int)
                &&& attained_y(self, r.min.y as int)
                &&& attained_y(self, r.max.y as int)
            },
            r.min.x <= r.max.x,
            r.min.y <= r.max.y,
    {
        let len = self.len();
        if len == 0 {
            return Rect { min: Point { x: 0, y: 0 }, max: Point { x: 0, y: 0 } };
        }
        let first = self.handle_at(0);
        let mut minx = first.anchor.x;
        let mut maxx = first.anchor.x;
        let mut miny = first.anchor.y;
        let mut maxy = first.anchor.y;
        proof {
            assert(self.handles_view()[0].anchor.x == minx);
            assert(self.handles_view()[0].anchor.y == miny);
        }
        let mut k: usize = 1;
        while k < len
            invariant
                self.wf(),
                1 <= k <= len,
                len == self.handles_view().len(),
                minx <= maxx,
                miny <= maxy,
                forall|i: int| 0 <= i < k ==> {
                    let p = (#[trigger] self.handles_view()[i]).anchor;
                    minx <= p.x <= maxx && miny <= p.y <= maxy
                },
                attained_x(self, minx as int),
                attained_x(self, maxx as int),
                attained_y(self, miny as int),
                attained_y(self, maxy as int),
            decreases len - k,
        {
            let h = self.handle_at(k);
            proof {
                assert(self.handles_view()[k as int].anchor == h.anchor);
            }
            if h.anchor.x < minx {
                minx = h.anchor.x;
            }
            if h.anchor.x > maxx {
                maxx = h.anchor.x;
            }
            if h.anchor.y < miny {
                miny = h.anchor.y;
            }
            if h.anchor.y > maxy {
                maxy = h.anchor.y;
            }
            k += 1;
        }
        let n = self.segment_count();
        let mut s: usize = 0;
        while s < n
            invariant
                self.wf(),
                0 <= s <= n,
                len == self.handles_view().len(),
                len > 0,
                n == self.seg_count_spec(),
                minx <= maxx,
                miny <= maxy,
                forall|i: int| 0 <= i < len ==> {
                    let p = (#[trigger] self.handles_view()[i]).anchor;
                    minx <= p.x <= maxx && miny <= p.y <= maxy
                },
                forall|s2: int, k2: int| 0 <= s2 < s && 0 <= k2 <= 8 ==> {
                    let c = #[trigger] spec_position_local(self, s2, k2 * 8192);
                    minx <= c.0 <= maxx && miny <= c.1 <= maxy
                },
                attained_x(self, minx as int),
                attained_x(self, maxx as int),
                attained_y(self, miny as int),
                attained_y(self, maxy as int),
            decreases n - s,
        {
            // widen by a fixed parametric sampling of this segment
            let mut g: usize = 0;
            while g <= 8
                invariant
                    self.wf(),
                    0 <= s < n,
                    0 <= g <= 9,
                    len == self.handles_view().len(),
                    len > 0,
                    n == self.seg_count_spec(),
                    minx <= maxx,
                    miny <= maxy,
                    forall|i: int| 0 <= i < len ==> {
                        let p = (#[trigger] self.handles_view()[i]).anchor;
                        minx <= p.x <= maxx && miny <= p.y <= maxy
                    },
                    forall|s2: int, k2: int| 0 <= s2 < s && 0 <= k2 <= 8 ==> {
                        let c = #[trigger] spec_position_local(self, s2, k2 * 8192);
                        minx <= c.0 <= maxx && miny <= c.1 <= maxy
                    },
                    forall|k2: int| 0 <= k2 < g ==> {
                        let c = #[trigger] spec_position_local(self, s as int, k2 * 8192);
                        minx <= c.0 <= maxx && miny <= c.1 <= maxy
                    },
                    attained_x(self, minx as int),
                    attained_x(self, maxx as int),
                    attained_y(self, miny as int),
                    attained_y(self, maxy as int),
                decreases 9 - g,
            {
                let t: i64 = (g as i64) * 8192;
                let p = self.position_local(s, t);
                proof {
                    assert((p.x as int, p.y as int)
                        == spec_position_local(self, s as int, t as int));
                }
                if p.x < minx {
                    minx = p.x;
                }
                if p.x > maxx {
                    maxx = p.x;
                }
                if p.y < miny {
                    miny = p.y;
                }
                if p.y > maxy {
                    maxy = p.y;
                }
                g += 1;
            }
            let (p0, p1, p2, p3) = self.segment_points(s);
            // derivative quadratic in the fixed-point parameter, per axis
            let dx0: i128 = (p1.x as i128) - (p0.x as i128);
            let dx1: i128 = (p2.x as i128) - (p1.x as i128);
            let dx2: i128 = (p3.x as i128) - (p2.x as i128);
            let dy0: i128 = (p1.y as i128) - (p0.y as i128);
            let dy1: i128 = (p2.y as i128) - (p1.y as i128);
            let dy2: i128 = (p3.y as i128) - (p2.y as i128);
            proof {
                lemma_mul_range(131072, dx1 as int - dx0 as int, 131072, 8589934592);
                lemma_mul_range(131072, dy1 as int - dy0 as int, 131072, 8589934592);
                lemma_mul_range(4294967296, dx0 as int, 4294967296, 4294967296);
                lemma_mul_range(4294967296, dy0 as int, 4294967296, 4294967296);
            }
            let qa_x: i128 = dx0 - 2 * dx1 + dx2;
            let qb_x: i128 = 2 * (T_ONE as i128) * (dx1 - dx0);
            let qc_x: i128 = (T2 as i128) * dx0;
            let qa_y: i128 = dy0 - 2 * dy1 + dy2;
            let qb_y: i128 = 2 * (T_ONE as i128) * (dy1 - dy0);
            let qc_y: i128 = (T2 as i128) * dy0;
            let rx = quad_roots(qa_x, qb_x, qc_x);
            let ry = quad_roots(qa_y, qb_y, qc_y);
            let mut j: usize = 0;
            while j < rx.len()
                invariant
                    self.wf(),
                    s < n,
                    len == self.handles_view().len(),
                    len > 0,
                    n == self.seg_count_spec(),
                    minx <= maxx,
                    miny <= maxy,
                    forall|i: int| 0 <= i < rx@.len() ==> 0 <= #[trigger] rx@[i] <= T_ONE,
                    forall|i: int| 0 <= i < len ==> {
                        let p = (#[trigger] self.handles_view()[i]).anchor;
                        minx <= p.x <= maxx && miny <= p.y <= maxy
                    },
                    forall|s2: int, k2: int| 0 <= s2 < s + 1 && 0 <= k2 <= 8 ==> {
                        let c = #[trigger] spec_position_local(self, s2, k2 * 8192);
                        minx <= c.0 <= maxx && miny <= c.1 <= maxy
                    },
                    attained_x(self, minx as int),
                    attained_x(self, maxx as int),
                    attained_y(self, miny as int),
                    attained_y(self, maxy as int),
                decreases rx@.len() - j,
            {
                let t = rx[j];
                let p = self.position_local(s, t);
                proof {
                    assert(p.x as int == spec_position_local(self, s as int, t as int).0);
                }
                if p.x < minx {
                    minx = p.x;
                }
                if p.x > maxx {
                    maxx = p.x;
                }
                j += 1;
            }
            let mut j2: usize = 0;
            while j2 < ry.len()
                invariant
                    self.wf(),
                    s < n,
                    len == self.handles_view().len(),
                    len > 0,
                    n == self.seg_count_spec(),
                    minx <= maxx,
                    miny <= maxy,
                    forall|i: int| 0 <= i < ry@.len() ==> 0 <= #[trigger] ry@[i] <= T_ONE,
                    forall|i: int| 0 <= i < len ==> {
                        let p = (#[trigger] self.handles_view()[i]).anchor;
                        minx <= p.x <= maxx && miny <= p.y <= maxy
                    },
                    forall|s2: int, k2: int| 0 <= s2 < s + 1 && 0 <= k2 <= 8 ==> {
                        let c = #[trigger] spec_position_local(self, s2, k2 * 8192);
                        minx <= c.0 <= maxx && miny <= c.1 <= maxy
                    },
                    attained_x(self, minx as int),
                    attained_x(self, maxx as int),
                    attained_y(self, miny as int),
                    attained_y(self, maxy as int),
                decreases ry@.len() - j2,
            {
                let t = ry[j2];
                let p = self.position_local(s, t);
                proof {
                    assert(p.y as int == spec_position_local(self, s as int, t as int).1);
                }
                if p.y < miny {
                    miny = p.y;
                }
                if p.y > maxy {
                    maxy = p.y;
                }
                j2 += 1;
            }
            s += 1;
        }
        Rect { min: Point { x: minx, y: miny }, max: Point { x: maxx, y: maxy } }
    }

    /// Parameters in the open interval `(0, T_ONE)` where the cross
    /// product of the first and second derivative changes sign,
    /// globally mapped, strictly increasing, with near-duplicates
    /// (closer than `INFLECTION_MIN_GAP`) removed.
    /// The derivative cross product at one sample, exactly
    /// `inflection_cross`.
    fn cross_at(&self, s: usize, t: i64) -> (r: i128)
        requires
            self.wf(),
            (s as int) < self.seg_count_spec(),
            0 <= t <= T_ONE,
        ensures
            r == inflection_cross(self, s as int, t as int),
    {
        let (d1x, d1y) = self.derivative_local(s, t);
        let (d2x, d2y) = self.second_derivative_local(s, t);
        proof {
            lemma_mul_range(d1x as int, d2y as int,
                crate::eval::DERIV_LIMIT as int, crate::eval::DERIV2_LIMIT as int);
            lemma_mul_range(d1y as int, d2x as int,
                crate::eval::DERIV_LIMIT as int, crate::eval::DERIV2_LIMIT as int);
        }
        (d1x as i128) * (d2y as i128) - (d1y as i128) * (d2x as i128)
    }

    pub fn inflections(&self) -> (v: Vec<i64>)
        requires
            self.wf(),
        ensures
            forall|i: int| 0 <= i < v@.len() ==> 0 < #[trigger] v@[i] < T_ONE,
            forall|i: int|
                0 <= i < v@.len() - 1 ==> #[trigger] v@[i] + INFLECTION_MIN_GAP <= v@[i + 1],
            forall|i: int| 0 <= i < v@.len() ==> inflection_witness(self, #[trigger] v@[i]),
    {
        let mut out: Vec<i64> = Vec::new();
        let n = self.segment_count();
        if n == 0 {
            return out;
        }
        let mut s: usize = 0;
        while s < n
            invariant
                self.wf(),
                0 <= s <= n,
                1 <= n <= 268435456,
                n == self.seg_count_spec(),
                forall|i: int| 0 <= i < out@.len() ==> 0 < #[trigger] out@[i] < T_ONE,
                forall|i: int|
                    0 <= i < out@.len() - 1
                        ==> #[trigger] out@[i] + INFLECTION_MIN_GAP <= out@[i + 1],
                forall|i: int| 0 <= i < out@.len()
                    ==> inflection_witness(self, #[trigger] out@[i]),
            decreases n - s,
        {
            let (p0, p1, p2, p3) = self.segment_points(s);
            let vax: i128 = (p1.x as i128) - (p0.x as i128);
            let vay: i128 = (p1.y as i128) - (p0.y as i128);
            let vbx: i128 = (p2.x as i128) - (p1.x as i128);
            let vby: i128 = (p2.y as i128) - (p1.y as i128);
            let vcx: i128 = (p3.x as i128) - (p2.x as i128);
            let vcy: i128 = (p3.y as i128) - (p2.y as i128);
            proof {
                let lim = 4294967296int;
                lemma_mul_range(vax as int, vby as int, lim, lim);
                lemma_mul_range(vay as int, vbx as int, lim, lim);
                lemma_mul_range(vax as int, vcy as int, lim, lim);
                lemma_mul_range(vay as int, vcx as int, lim, lim);
                lemma_mul_range(vbx as int, vcy as int, lim, lim);
                lemma_mul_range(vby as int, vcx as int, lim, lim);
            }
            let cab: i128 = vax * vby - vay * vbx;
            let cac: i128 = vax * vcy - vay * vcx;
            let cbc: i128 = vbx * vcy - vby * vcx;
            proof {
                lemma_mul_range(65536, cac as int - 2 * (cab as int), 65536,
                    110680464442257309696);
                lemma_mul_range(4294967296, cab as int, 4294967296,
                    36893488147419103232);
            }
            // cab * u * u + cac * u * t + cbc * t * t, expanded in t
            let qa: i128 = cab - cac + cbc;
            let qb: i128 = (T_ONE as i128) * (cac - 2 * cab);
            let qc: i128 = (T2 as i128) * cab;
            let roots = quad_roots(qa, qb, qc);
            let mut j: usize = 0;
            while j < roots.len()
                invariant
                    self.wf(),
                    0 <= s < n,
                    1 <= n <= 268435456,
                    n == self.seg_count_spec(),
                    forall|i: int| 0 <= i < roots@.len() ==> 0 <= #[trigger] roots@[i] <= T_ONE,
                    forall|i: int| 0 <= i < out@.len() ==> 0 < #[trigger] out@[i] < T_ONE,
                    forall|i: int|
                        0 <= i < out@.len() - 1
                            ==> #[trigger] out@[i] + INFLECTION_MIN_GAP <= out@[i + 1],
                    forall|i: int| 0 <= i < out@.len()
                        ==> inflection_witness(self, #[trigger] out@[i]),
                decreases roots@.len() - j,
            {
                let lt = roots[j];
                if 0 < lt && lt < T_ONE {
                    // keep only candidates beside which the derivative
                    // cross product vanishes or changes sign
                    let c0 = self.cross_at(s, lt - 1);
                    let c1 = self.cross_at(s, lt);
                    let c2 = self.cross_at(s, lt + 1);
                    let ok1 = c0 == 0 || (c0 < 0 && c1 > 0) || (c0 > 0 && c1 < 0);
                    let ok2 = c1 == 0 || (c1 < 0 && c2 > 0) || (c1 > 0 && c2 < 0);
                    let ok3 = if lt + 2 <= T_ONE {
                        let c3 = self.cross_at(s, lt + 2);
                        c2 == 0 || (c2 < 0 && c3 > 0) || (c2 > 0 && c3 < 0)
                    } else {
                        false
                    };
                    if ok1 || ok2 || ok3 {
                        proof {
                            lemma_mul_range(s as int, T_ONE as int, 268435456, 65536);
                        }
                        let raw: i64 = (s as i64) * T_ONE + lt;
                        let tg: i64 = div_floor_i64(raw, n as i64);
                        proof {
                            vstd::arithmetic::div_mod::lemma_div_pos_is_pos(
                                raw as int, n as int);
                            lemma_div_range(raw as int, n as int, 17592186044416);
                        }
                        if 0 < tg && tg < T_ONE {
                            proof {
                                let a: int = if ok1 {
                                    lt as int - 1
                                } else if ok2 {
                                    lt as int
                                } else {
                                    lt as int + 1
                                };
                                assert(inflection_witness(self, tg)) by {
                                    assert(tg == crate::intersect::spec_global_of(
                                        self.seg_count_spec(), s as int, lt as int));
                                    assert(inflection_cross(self, s as int, a) == 0
                                        || (inflection_cross(self, s as int, a) < 0
                                            && inflection_cross(self, s as int, a + 1) > 0)
                                        || (inflection_cross(self, s as int, a) > 0
                                            && inflection_cross(self, s as int, a + 1) < 0));
                                }
                            }
                            let push_ok: bool = if out.len() == 0 {
                                true
                            } else {
                                let last = out[out.len() - 1];
                                last + INFLECTION_MIN_GAP <= tg
                            };
                            if push_ok {
                                out.push(tg);
                            }
                        }
                    }
                }
                j += 1;
            }
            s += 1;
        }
        out
    }
}

} // verus!

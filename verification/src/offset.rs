//! Offsetting: building a new path displaced by a signed distance
//! along the local normal, with adaptive depth-capped subdivision and
//! join resolution at corners.
//!
//! Sign convention: the displacement is `distance` times the unit
//! normal, which is the tangent rotated a quarter turn
//! counterclockwise — that is, toward the left of the direction of
//! travel.  On a counterclockwise-wound path (in a y-up frame) a
//! positive distance therefore moves toward the path's inside, and a
//! negative one outward; for clockwise winding the signs trade
//! places.

use vstd::prelude::*;
use crate::num::{
    T_ONE, COORD_LIMIT, GEOM_LIMIT, div_floor_i128, lemma_mul_range, lemma_div_range,
};
use vstd::arithmetic::div_mod::lemma_basic_div;
use vstd::arithmetic::power2::{pow2, lemma_pow2_unfold, lemma_pow2_pos, lemma2_to64};
use crate::path::{Point, Handle, Path, PathError};
use crate::eval::{spec_position_local, spec_deriv_local, spec_unit, abs_i, DERIV_LIMIT, normalize_dir};

verus! {

/// Join type tags as they cross the engine's outer boundary.
#[allow(non_camel_case_types)]
#[derive(Clone, Copy, Debug, PartialEq, Eq, Structural)]
pub enum bezrsJoinType {
    Bevel,
    Mitter,
    Round,
}

/// Cap type tags as they cross the engine's outer boundary.
#[allow(non_camel_case_types)]
#[derive(Clone, Copy, Debug, PartialEq, Eq, Structural)]
pub enum bezrsCapType {
    Butt,
    Round,
    Square,
}

/// The engine's join policy: how two adjacent offset curve ends are
/// stitched at a former handle position.
#[derive(Clone, Copy, Debug, PartialEq, Eq, Structural)]
pub enum Join {
    /// A straight segment between the two offset curve ends.
    Bevel,
    /// Extend both end tangents to their intersection, up to the given
    /// limit on the miter length; past it, fall back to `Bevel`.
    Miter(i64),
    /// An arc through the point at the offset distance from the
    /// corner, between the two ends.
    Round,
}

/// Resolves a boundary join tag and an optional miter limit into the
/// engine's join policy; an absent limit defaults to zero.
pub fn parse_join(join: bezrsJoinType, miter_limit: Option<i64>) -> (j: Join)
    ensures
        j == match join {
            bezrsJoinType::Bevel => Join::Bevel,
            bezrsJoinType::Mitter => Join::Miter(
                match miter_limit {
                    Some(l) => l,
                    None => 0,
                },
            ),
            bezrsJoinType::Round => Join::Round,
        },
{
    match join {
        bezrsJoinType::Bevel => Join::Bevel,
        bezrsJoinType::Mitter => Join::Miter(
            match miter_limit {
                Some(l) => l,
                None => 0,
            },
        ),
        bezrsJoinType::Round => Join::Round,
    }
}

/// Subdivision stops when the curve midpoint deviates from the chord
/// midpoint by no more than this, per axis.
pub const FLAT_TOL: i64 = 64;

/// Depth cap of the recursive subdivision; every offset terminates.
pub const OFFSET_MAX_DEPTH: u32 = 5;

/// Largest handle count accepted by `offset` and `outline`, so the
/// subdivided result is guaranteed to fit a well-formed path.
pub const OFFSET_MAX_INPUT: usize = 1048576;

/// Every coordinate of every handle within `GEOM_LIMIT`, the
/// precondition of offsetting.
pub open spec fn geom_bounded(path: &Path) -> bool {
    forall|i: int| 0 <= i < path.handles_view().len() ==> {
        let h = #[trigger] path.handles_view()[i];
        &&& -GEOM_LIMIT <= h.anchor.x <= GEOM_LIMIT
        &&& -GEOM_LIMIT <= h.anchor.y <= GEOM_LIMIT
        &&& -GEOM_LIMIT <= h.ctrl_in.x <= GEOM_LIMIT
        &&& -GEOM_LIMIT <= h.ctrl_in.y <= GEOM_LIMIT
        &&& -GEOM_LIMIT <= h.ctrl_out.x <= GEOM_LIMIT
        &&& -GEOM_LIMIT <= h.ctrl_out.y <= GEOM_LIMIT
    }
}

/// Whether `p` lies exactly on the path: it is the evaluated position
/// of some segment at some parameter.
pub open spec fn on_path(path: &Path, p: Point) -> bool {
    exists|s: int, t: int|
        0 <= s < path.seg_count_spec() && 0 <= t <= T_ONE
            && (p.x as int, p.y as int) == (#[trigger] spec_position_local(path, s, t))
}

/// Some parameter on some segment where the first derivative
/// vanishes: the condition under which offsetting has no usable
/// normal.
pub open spec fn has_degenerate_sample(path: &Path) -> bool {
    exists|s: int, t: int|
        0 <= s < path.seg_count_spec() && 0 <= t <= T_ONE
            && (#[trigger] spec_deriv_local(path, s, t)) == (0int, 0int)
}

/// A coordinate pair displaced by `d` along a direction scaled by
/// `T_ONE`, exactly as the engine computes it: each component moves
/// by the floor of `d` times the direction component over `T_ONE`.
pub open spec fn spec_displace(px: int, py: int, d: int, nx: int, ny: int) -> (int, int) {
    (px + (d * nx) / (T_ONE as int), py + (d * ny) / (T_ONE as int))
}

/// Whether `(ux, uy)` is the engine's unit direction of travel at
/// some sample of the path: `spec_unit` of a nonvanishing first
/// derivative there.
pub open spec fn is_unit_dir(path: &Path, ux: int, uy: int) -> bool {
    exists|s: int, t: int|
        0 <= s < path.seg_count_spec() && 0 <= t <= T_ONE
            && (#[trigger] spec_deriv_local(path, s, t)) != (0int, 0int)
            && (ux, uy) == spec_unit(
                spec_deriv_local(path, s, t).0, spec_deriv_local(path, s, t).1)
}

/// Whether `p` is an offset boundary sample: an evaluated on-path
/// position displaced by `d` along the unit normal (the unit
/// direction of travel rotated a quarter turn counterclockwise), the
/// direction taken within a small probe distance of the sample — the
/// probe absorbs the stationary parametrisation of sharp corners.
pub open spec fn displaced_anchor(path: &Path, d: int, p: Point) -> bool {
    exists|s: int, t: int, t2: int|
        #![trigger spec_position_local(path, s, t), spec_deriv_local(path, s, t2)]
        {
            &&& 0 <= s < path.seg_count_spec()
            &&& 0 <= t <= T_ONE
            &&& 0 <= t2 <= T_ONE
            &&& abs_i(t - t2) <= 32
            &&& spec_deriv_local(path, s, t2) != (0int, 0int)
            &&& {
                let u = spec_unit(
                    spec_deriv_local(path, s, t2).0, spec_deriv_local(path, s, t2).1);
                (p.x as int, p.y as int) == spec_displace(
                    spec_position_local(path, s, t).0, spec_position_local(path, s, t).1,
                    d, -u.1, u.0)
            }
        }
}

/// The meet of the line through `a` with direction `ta` and the line
/// through `b` with direction `tb` (directions scaled by `T_ONE`),
/// with the engine's floor arithmetic and sign normalisation.
pub open spec fn spec_line_meet(a: Point, ta: Point, b: Point, tb: Point) -> (int, int) {
    let den0 = (ta.x as int) * (tb.y as int) - (ta.y as int) * (tb.x as int);
    let num0 = (b.x - a.x) * (tb.y as int) - (b.y - a.y) * (tb.x as int);
    let den = if den0 < 0 { -den0 } else { den0 };
    let num = if den0 < 0 { -num0 } else { num0 };
    (a.x + (num * (ta.x as int)) / den, a.y + (num * (ta.y as int)) / den)
}

/// Whether `p` is a corner point of the offset boundary: the meet of
/// the end tangent lines through two offset boundary samples (a miter
/// point or a trimmed inner corner), or an arc point at the offset
/// distance from an original handle anchor along the bisector of the
/// two end directions (a round join).
pub open spec fn join_anchor(path: &Path, d: int, p: Point) -> bool {
    ||| exists|a: Point, ta: Point, b: Point, tb: Point|
        #![trigger spec_line_meet(a, ta, b, tb)]
        {
            &&& displaced_anchor(path, d, a)
            &&& displaced_anchor(path, d, b)
            &&& is_unit_dir(path, ta.x as int, ta.y as int)
            &&& is_unit_dir(path, tb.x as int, tb.y as int)
            &&& (p.x as int, p.y as int) == spec_line_meet(a, ta, b, tb)
        }
    ||| exists|i: int, ta: Point, tb: Point|
        #![trigger path.handles_view()[i], spec_unit(
            -(ta.y as int) - (tb.y as int), (ta.x as int) + (tb.x as int))]
        {
            &&& 0 <= i < path.handles_view().len()
            &&& is_unit_dir(path, ta.x as int, ta.y as int)
            &&& is_unit_dir(path, tb.x as int, tb.y as int)
            &&& (-(ta.y as int) - (tb.y as int), (ta.x as int) + (tb.x as int))
                != (0int, 0int)
            &&& {
                let bis = spec_unit(
                    -(ta.y as int) - (tb.y as int), (ta.x as int) + (tb.x as int));
                (p.x as int, p.y as int) == spec_displace(
                    path.handles_view()[i].anchor.x as int,
                    path.handles_view()[i].anchor.y as int, d, bis.0, bis.1)
            }
        }
}

/// Every anchor an offset produces is of one of these two forms: a
/// displaced on-path sample, or corner-join geometry built from such
/// samples and their end directions.
pub open spec fn offset_anchor(path: &Path, d: int, p: Point) -> bool {
    displaced_anchor(path, d, p) || join_anchor(path, d, p)
}

/// Displaces `p` by `d` along the unit direction `n` (scaled by
/// `T_ONE`), exactly `spec_displace`; the precondition leaves room
/// for the displacement, so no clamping is needed.  Distance zero
/// leaves the point exactly in place.
pub(crate) fn displace(p: Point, d: i64, n: Point) -> (r: Point)
    requires
        -GEOM_LIMIT <= d <= GEOM_LIMIT,
        -T_ONE <= n.x <= T_ONE,
        -T_ONE <= n.y <= T_ONE,
        -COORD_LIMIT <= p.x - abs_i(d as int),
        p.x + abs_i(d as int) <= COORD_LIMIT,
        -COORD_LIMIT <= p.y - abs_i(d as int),
        p.y + abs_i(d as int) <= COORD_LIMIT,
    ensures
        (r.x as int, r.y as int) == spec_displace(
            p.x as int, p.y as int, d as int, n.x as int, n.y as int),
        r.in_bounds(),
        abs_i(r.x - p.x) <= abs_i(d as int),
        abs_i(r.y - p.y) <= abs_i(d as int),
        d == 0 ==> r == p,
{
    proof {
        let ad = abs_i(d as int);
        lemma_mul_range(d as int, n.x as int, ad, T_ONE as int);
        lemma_mul_range(d as int, n.y as int, ad, T_ONE as int);
        assert(ad * (T_ONE as int) == 65536 * ad) by (nonlinear_arith);
        lemma_div_range((d as int) * (n.x as int), 65536, ad);
        lemma_div_range((d as int) * (n.y as int), 65536, ad);
        if d == 0 {
            assert((0int) * (n.x as int) == 0 && (0int) * (n.y as int) == 0)
                by (nonlinear_arith);
            lemma_basic_div(0, 65536);
        }
    }
    let ox = div_floor_i128((d as i128) * (n.x as i128), 65536);
    let oy = div_floor_i128((d as i128) * (n.y as i128), 65536);
    Point { x: p.x + ox as i64, y: p.y + oy as i64 }
}

/// Evaluated positions of a geometry-bounded path stay within
/// `GEOM_LIMIT`: the cubic is a convex combination of its control
/// points.
pub proof fn lemma_position_in_geom(path: &Path, s: int, t: int)
    requires
        path.wf(),
        geom_bounded(path),
        0 <= s < path.seg_count_spec(),
        0 <= t <= T_ONE,
    ensures
        -GEOM_LIMIT <= spec_position_local(path, s, t).0 <= GEOM_LIMIT,
        -GEOM_LIMIT <= spec_position_local(path, s, t).1 <= GEOM_LIMIT,
{
    let e = crate::eval::seg_end_index(path, s);
    assert(0 <= e < path.handles_view().len());
    let h0 = path.handles_view()[s];
    let h1 = path.handles_view()[e];
    crate::eval::lemma_cubic_coord_bound(
        crate::eval::seg_p0(path, s).x as int, crate::eval::seg_p1(path, s).x as int,
        crate::eval::seg_p2(path, s).x as int, crate::eval::seg_p3(path, s).x as int,
        t, GEOM_LIMIT as int);
    crate::eval::lemma_cubic_coord_bound(
        crate::eval::seg_p0(path, s).y as int, crate::eval::seg_p1(path, s).y as int,
        crate::eval::seg_p2(path, s).y as int, crate::eval::seg_p3(path, s).y as int,
        t, GEOM_LIMIT as int);
}

/// A control point at one third of the piece's end derivative away
/// from `anchor` (subtracted when `backward`), clamped to the anchor
/// when it leaves the coordinate range.  Distance plays no role here:
/// for a zero piece span the control collapses onto the anchor.
fn ctrl_toward(anchor: Point, dx: i64, dy: i64, span: i64, backward: bool) -> (r: Point)
    requires
        anchor.in_bounds(),
        -DERIV_LIMIT <= dx <= DERIV_LIMIT,
        -DERIV_LIMIT <= dy <= DERIV_LIMIT,
        0 <= span <= T_ONE,
    ensures
        r.in_bounds(),
{
    proof {
        lemma_mul_range(dx as int, span as int, DERIV_LIMIT as int, T_ONE as int);
        lemma_mul_range(dy as int, span as int, DERIV_LIMIT as int, T_ONE as int);
        lemma_div_range((dx as int) * (span as int), 196608, 4294967296);
        lemma_div_range((dy as int) * (span as int), 196608, 4294967296);
    }
    let cx = div_floor_i128((dx as i128) * (span as i128), 196608) as i64;
    let cy = div_floor_i128((dy as i128) * (span as i128), 196608) as i64;
    let (px, py) = if backward {
        (anchor.x - cx, anchor.y - cy)
    } else {
        (anchor.x + cx, anchor.y + cy)
    };
    if -COORD_LIMIT <= px && px <= COORD_LIMIT && -COORD_LIMIT <= py && py <= COORD_LIMIT {
        Point { x: px, y: py }
    } else {
        anchor
    }
}

/// The unit direction of travel at a sample, probing one step beside
/// the sample when the derivative vanishes exactly there: a degenerate
/// cubic (a corner handle) has a stationary parametrisation at its
/// ends even where the traced line has a clear direction.  Failure
/// means the derivative vanishes on the whole neighbourhood.
pub(crate) fn robust_dir(path: &Path, s: usize, t: i64) -> (r: Result<Point, PathError>)
    requires
        path.wf(),
        (s as int) < path.seg_count_spec(),
        0 <= t <= T_ONE,
    ensures
        match r {
            Ok(v) => {
                &&& -T_ONE <= v.x <= T_ONE
                &&& -T_ONE <= v.y <= T_ONE
                &&& exists|tp: int|
                    {
                        &&& 0 <= tp <= T_ONE
                        &&& abs_i(t as int - tp) <= 32
                        &&& (#[trigger] spec_deriv_local(path, s as int, tp)) != (0int, 0int)
                        &&& (v.x as int, v.y as int) == spec_unit(
                            spec_deriv_local(path, s as int, tp).0,
                            spec_deriv_local(path, s as int, tp).1)
                    }
            },
            Err(e) => {
                &&& e == PathError::DegenerateGeometry
                &&& spec_deriv_local(path, s as int, t as int) == (0int, 0int)
            },
        },
{
    let (dx, dy) = path.derivative_local(s, t);
    if dx != 0 || dy != 0 {
        match normalize_dir(dx, dy) {
            Ok(v) => {
                proof {
                    assert(spec_deriv_local(path, s as int, t as int) != (0int, 0int));
                }
                return Ok(v);
            },
            Err(_) => {
                return Err(PathError::DegenerateGeometry);  // unreachable
            },
        }
    }
    let tp = if t + 16 <= T_ONE { t + 16 } else { t - 16 };
    let (px, py) = path.derivative_local(s, tp);
    if px != 0 || py != 0 {
        match normalize_dir(px, py) {
            Ok(v) => {
                proof {
                    assert(spec_deriv_local(path, s as int, tp as int) != (0int, 0int));
                }
                return Ok(v);
            },
            Err(_) => {
                return Err(PathError::DegenerateGeometry);  // unreachable
            },
        }
    }
    let tm = if t >= 16 { t - 16 } else { t + 32 };
    let tm = if tm > T_ONE { T_ONE } else { tm };
    let (mx, my) = path.derivative_local(s, tm);
    if mx != 0 || my != 0 {
        match normalize_dir(mx, my) {
            Ok(v) => {
                proof {
                    assert(spec_deriv_local(path, s as int, tm as int) != (0int, 0int));
                }
                return Ok(v);
            },
            Err(_) => {
                return Err(PathError::DegenerateGeometry);  // unreachable
            },
        }
    }
    Err(PathError::DegenerateGeometry)
}

/// The intersection of the two end tangent lines, accepted only when
/// it stays within the miter limit of the corner and in range; the
/// accepted point is exactly `spec_line_meet`.
fn miter_point(a: Point, ta: Point, b: Point, tb: Point, corner: Point, limit: i64)
    -> (r: Option<Point>)
    requires
        a.in_bounds(),
        b.in_bounds(),
        corner.in_bounds(),
        -T_ONE <= ta.x <= T_ONE,
        -T_ONE <= ta.y <= T_ONE,
        -T_ONE <= tb.x <= T_ONE,
        -T_ONE <= tb.y <= T_ONE,
    ensures
        match r {
            Some(p) => {
                &&& p.in_bounds()
                &&& (p.x as int, p.y as int) == spec_line_meet(a, ta, b, tb)
            },
            None => true,
        },
{
    if limit <= 0 {
        return None;
    }
    proof {
        lemma_mul_range(ta.x as int, tb.y as int, 65536, 65536);
        lemma_mul_range(ta.y as int, tb.x as int, 65536, 65536);
        lemma_mul_range(b.x as int - a.x as int, tb.y as int, 4294967296, 65536);
        lemma_mul_range(b.y as int - a.y as int, tb.x as int, 4294967296, 65536);
    }
    let mut den: i128 = (ta.x as i128) * (tb.y as i128) - (ta.y as i128) * (tb.x as i128);
    let mut numl: i128 = ((b.x as i128) - (a.x as i128)) * (tb.y as i128)
        - ((b.y as i128) - (a.y as i128)) * (tb.x as i128);
    if den == 0 {
        return None;
    }
    if den < 0 {
        den = -den;
        numl = -numl;
    }
    proof {
        lemma_mul_range(numl as int, ta.x as int, 562949953421312, 65536);
        lemma_mul_range(numl as int, ta.y as int, 562949953421312, 65536);
    }
    let qx = div_floor_i128(numl * (ta.x as i128), den);
    let qy = div_floor_i128(numl * (ta.y as i128), den);
    if qx < -4294967296 || qx > 4294967296 || qy < -4294967296 || qy > 4294967296 {
        return None;
    }
    let mx: i64 = a.x + qx as i64;
    let my: i64 = a.y + qy as i64;
    if mx < -COORD_LIMIT || mx > COORD_LIMIT || my < -COORD_LIMIT || my > COORD_LIMIT {
        return None;
    }
    proof {
        lemma_mul_range(mx as int - corner.x as int, mx as int - corner.x as int,
            4294967296, 4294967296);
        lemma_mul_range(my as int - corner.y as int, my as int - corner.y as int,
            4294967296, 4294967296);
        lemma_mul_range(limit as int, limit as int,
            9223372036854775807, 9223372036854775807);
    }
    let ex: i128 = (mx as i128) - (corner.x as i128);
    let ey: i128 = (my as i128) - (corner.y as i128);
    let dist2: i128 = ex * ex + ey * ey;
    let lim2: i128 = (limit as i128) * (limit as i128);
    if dist2 <= lim2 {
        Some(Point { x: mx, y: my })
    } else {
        None
    }
}

/// Emits the offset pieces of segment `s` over the local window
/// `[lo, hi]`: subdivides until the piece is flat within `FLAT_TOL`
/// or the depth runs out, then appends one cubic piece per leaf.  The
/// handle carried in and out holds the boundary point whose outgoing
/// control the next piece still has to set.
fn offset_subdivide(
    path: &Path,
    s: usize,
    lo: i64,
    hi: i64,
    d: i64,
    depth: u32,
    pending: Handle,
    out: &mut Vec<Handle>,
) -> (r: Result<Handle, PathError>)
    requires
        path.wf(),
        geom_bounded(path),
        (s as int) < path.seg_count_spec(),
        0 <= lo < hi <= T_ONE,
        -GEOM_LIMIT <= d <= GEOM_LIMIT,
        pending.in_bounds(),
        offset_anchor(path, d as int, pending.anchor),
        d == 0 ==> on_path(path, pending.anchor),
        forall|i: int| 0 <= i < old(out)@.len() ==> (#[trigger] old(out)@[i]).in_bounds(),
        forall|i: int| 0 <= i < old(out)@.len()
            ==> offset_anchor(path, d as int, (#[trigger] old(out)@[i]).anchor),
        d == 0 ==> forall|i: int|
            0 <= i < old(out)@.len() ==> on_path(path, (#[trigger] old(out)@[i]).anchor),
    ensures
        forall|i: int| 0 <= i < final(out)@.len() ==> (#[trigger] final(out)@[i]).in_bounds(),
        forall|i: int| 0 <= i < final(out)@.len()
            ==> offset_anchor(path, d as int, (#[trigger] final(out)@[i]).anchor),
        d == 0 ==> forall|i: int|
            0 <= i < final(out)@.len() ==> on_path(path, (#[trigger] final(out)@[i]).anchor),
        final(out)@.len() <= old(out)@.len() + pow2(depth as nat),
        forall|i: int| 0 <= i < old(out)@.len() ==> final(out)@[i] == old(out)@[i],
        match r {
            Ok(h) => {
                &&& h.in_bounds()
                &&& final(out)@.len() >= old(out)@.len() + 1
                &&& final(out)@[old(out)@.len() as int].anchor == pending.anchor
                &&& displaced_anchor(path, d as int, h.anchor)
                &&& (d == 0 ==> (h.anchor.x as int, h.anchor.y as int)
                    == spec_position_local(path, s as int, hi as int))
            },
            Err(e) => e == PathError::DegenerateGeometry && has_degenerate_sample(path),
        },
    decreases depth,
{
    proof {
        lemma_pow2_pos(depth as nat);
    }
    if depth > 0 && hi - lo >= 2 {
        let half = crate::num::div_floor_i64(hi - lo, 2);
        proof {
            vstd::arithmetic::div_mod::lemma_div_is_ordered(2, hi as int - lo as int, 2);
            vstd::arithmetic::div_mod::lemma_div_multiples_vanish(1, 2);
            vstd::arithmetic::div_mod::lemma_div_is_strictly_smaller(
                hi as int - lo as int, 2);
        }
        let mid = lo + half;
        let pl = path.position_local(s, lo);
        let ph = path.position_local(s, hi);
        let pm = path.position_local(s, mid);
        let cmx = crate::num::div_floor_i64(pl.x + ph.x, 2);
        let cmy = crate::num::div_floor_i64(pl.y + ph.y, 2);
        proof {
            lemma_div_range(pl.x as int + ph.x as int, 2, COORD_LIMIT as int);
            lemma_div_range(pl.y as int + ph.y as int, 2, COORD_LIMIT as int);
        }
        let devx = pm.x - cmx;
        let devy = pm.y - cmy;
        if devx > FLAT_TOL || devx < -FLAT_TOL || devy > FLAT_TOL || devy < -FLAT_TOL {
            let h1 = match offset_subdivide(path, s, lo, mid, d, depth - 1, pending, out) {
                Ok(h) => h,
                Err(e) => {
                    proof {
                        lemma_pow2_unfold(depth as nat);
                    }
                    return Err(e);
                },
            };
            let r2 = offset_subdivide(path, s, mid, hi, d, depth - 1, h1, out);
            proof {
                lemma_pow2_unfold(depth as nat);
            }
            return r2;
        }
    }
    // flat enough, or out of depth: emit this piece as one cubic
    let (ex, ey) = path.derivative_local(s, hi);
    let tan = match robust_dir(path, s, hi) {
        Ok(v) => v,
        Err(e) => {
            return Err(e);
        },
    };
    let ph = path.position_local(s, hi);
    proof {
        lemma_position_in_geom(path, s as int, hi as int);
    }
    let b = displace(ph, d, Point { x: -tan.y, y: tan.x });
    let (lx, ly) = path.derivative_local(s, lo);
    let span = hi - lo;
    let c1 = ctrl_toward(pending.anchor, lx, ly, span, false);
    let c2 = ctrl_toward(b, ex, ey, span, true);
    out.push(Handle { anchor: pending.anchor, ctrl_in: pending.ctrl_in, ctrl_out: c1 });
    proof {
        let tp = choose|tp: int|
            0 <= tp <= T_ONE && abs_i(hi as int - tp) <= 32
                && (#[trigger] spec_deriv_local(path, s as int, tp)) != (0int, 0int)
                && (tan.x as int, tan.y as int) == spec_unit(
                    spec_deriv_local(path, s as int, tp).0,
                    spec_deriv_local(path, s as int, tp).1);
        assert(displaced_anchor(path, d as int, b)) by {
            let u = spec_unit(
                spec_deriv_local(path, s as int, tp).0,
                spec_deriv_local(path, s as int, tp).1);
            assert((b.x as int, b.y as int) == spec_displace(
                spec_position_local(path, s as int, hi as int).0,
                spec_position_local(path, s as int, hi as int).1,
                d as int, -u.1, u.0));
        }
        if d == 0 {
            assert((b.x as int, b.y as int) == spec_position_local(path, s as int, hi as int));
            assert(on_path(path, b));
        }
    }
    Ok(Handle { anchor: b, ctrl_in: c2, ctrl_out: b })
}

impl Path {
    /// A new path displaced by `distance` along the local unit normal
    /// everywhere, its pieces re-fitted per subdivided flat piece and
    /// stitched at former handle positions by `join`.  The result is
    /// well formed, keeps the closed/open flag, and offsetting by zero
    /// puts every produced anchor exactly on the original path.  A
    /// vanishing first derivative somewhere on the path is the one
    /// failure, reported as `DegenerateGeometry`; a path whose
    /// derivative vanishes nowhere always succeeds.
    pub fn offset(&self, distance: i64, join: Join) -> (r: Result<Path, PathError>)
        requires
            self.wf(),
            geom_bounded(self),
            self.handles_view().len() <= OFFSET_MAX_INPUT,
            -GEOM_LIMIT <= distance <= GEOM_LIMIT,
        ensures
            match r {
                Ok(q) => {
                    &&& q.wf()
                    &&& q.closed_view() == self.closed_view()
                    &&& (self.seg_count_spec() == 0
                        ==> q.handles_view() == self.handles_view())
                    &&& (self.seg_count_spec() > 0
                        ==> q.handles_view().len() >= self.seg_count_spec())
                    &&& q.handles_view().len() <= 34 * self.handles_view().len() + 1
                    &&& (self.seg_count_spec() > 0 ==> forall|i: int|
                        0 <= i < q.handles_view().len() ==> offset_anchor(
                            self, distance as int, (#[trigger] q.handles_view()[i]).anchor))
                    &&& (distance == 0 && self.seg_count_spec() > 0 ==> forall|i: int|
                        0 <= i < q.handles_view().len()
                            ==> on_path(self, (#[trigger] q.handles_view()[i]).anchor))
                    &&& (distance == 0 && self.seg_count_spec() > 0 && !self.closed_view()
                        ==> {
                        let qh = q.handles_view();
                        &&& (qh[0].anchor.x as int, qh[0].anchor.y as int)
                            == spec_position_local(self, 0, 0)
                        &&& (qh[qh.len() - 1].anchor.x as int, qh[qh.len() - 1].anchor.y as int)
                            == spec_position_local(
                                self, self.seg_count_spec() - 1, T_ONE as int)
                    })
                },
                Err(e) => {
                    &&& e == PathError::DegenerateGeometry
                    &&& has_degenerate_sample(self)
                },
            },
            !has_degenerate_sample(self) ==> r is Ok,
    {
        let n = self.segment_count();
        if n == 0 {
            let q = Path::create(self.handles(), self.is_closed());
            proof {
                assert(!self.closed_view());
            }
            return Ok(q);
        }
        // starting boundary point of segment 0
        let t0 = match robust_dir(self, 0, 0) {
            Ok(v) => v,
            Err(e) => {
                return Err(e);
            },
        };
        let p0 = self.position_local(0, 0);
        proof {
            lemma_position_in_geom(self, 0, 0);
        }
        let a0 = displace(p0, distance, Point { x: -t0.y, y: t0.x });
        proof {
            let tp0 = choose|tp: int|
                0 <= tp <= T_ONE && abs_i(0 - tp) <= 32
                    && (#[trigger] spec_deriv_local(self, 0, tp)) != (0int, 0int)
                    && (t0.x as int, t0.y as int) == spec_unit(
                        spec_deriv_local(self, 0, tp).0, spec_deriv_local(self, 0, tp).1);
            assert(displaced_anchor(self, distance as int, a0)) by {
                let u = spec_unit(
                    spec_deriv_local(self, 0, tp0).0, spec_deriv_local(self, 0, tp0).1);
                assert((a0.x as int, a0.y as int) == spec_displace(
                    spec_position_local(self, 0, 0).0, spec_position_local(self, 0, 0).1,
                    distance as int, -u.1, u.0));
            }
            if distance == 0 {
                assert((a0.x as int, a0.y as int) == spec_position_local(self, 0, 0));
                assert(on_path(self, a0));
            }
        }
        let mut pending = Handle { anchor: a0, ctrl_in: a0, ctrl_out: a0 };
        let mut out: Vec<Handle> = Vec::new();
        let mut s: usize = 0;
        while s < n
            invariant
                self.wf(),
                geom_bounded(self),
                n == self.seg_count_spec(),
                1 <= n <= OFFSET_MAX_INPUT,
                0 <= s <= n,
                -GEOM_LIMIT <= distance <= GEOM_LIMIT,
                pending.in_bounds(),
                offset_anchor(self, distance as int, pending.anchor),
                distance == 0 ==> on_path(self, pending.anchor),
                s == 0 ==> pending == (Handle { anchor: a0, ctrl_in: a0, ctrl_out: a0 }),
                displaced_anchor(self, distance as int, a0),
                distance == 0 ==> (a0.x as int, a0.y as int)
                    == spec_position_local(self, 0, 0),
                forall|i: int| 0 <= i < out@.len() ==> (#[trigger] out@[i]).in_bounds(),
                forall|i: int| 0 <= i < out@.len()
                    ==> offset_anchor(self, distance as int, (#[trigger] out@[i]).anchor),
                distance == 0 ==> forall|i: int|
                    0 <= i < out@.len() ==> on_path(self, (#[trigger] out@[i]).anchor),
                distance == 0 && 0 < s ==> out@.len() > 0
                    && (out@[0].anchor.x as int, out@[0].anchor.y as int)
                        == spec_position_local(self, 0, 0),
                distance == 0 && s == n && !self.closed_view()
                    ==> (pending.anchor.x as int, pending.anchor.y as int)
                        == spec_position_local(self, n as int - 1, T_ONE as int),
                out@.len() <= s * 34,
                out@.len() >= s,
            decreases n - s,
        {
            let h1 = match offset_subdivide(
                self, s, 0, T_ONE, distance, OFFSET_MAX_DEPTH, pending, &mut out)
            {
                Ok(h) => h,
                Err(e) => {
                    return Err(e);
                },
            };
            proof {
                lemma2_to64();
            }
            pending = h1;
            proof {
                if distance == 0 {
                    assert((pending.anchor.x as int, pending.anchor.y as int)
                        == spec_position_local(self, s as int, T_ONE as int));
                    assert(on_path(self, pending.anchor));
                }
            }
            // stitch to the next segment's start (wrapping when closed)
            if s + 1 < n || self.is_closed() {
                let ns = if s + 1 < n { s + 1 } else { 0 };
                let nt = match robust_dir(self, ns, 0) {
                    Ok(v) => v,
                    Err(e) => {
                        return Err(e);
                    },
                };
                let np = self.position_local(ns, 0);
                proof {
                    lemma_position_in_geom(self, ns as int, 0);
                }
                let na = displace(np, distance, Point { x: -nt.y, y: nt.x });
                proof {
                    let tpn = choose|tp: int|
                        0 <= tp <= T_ONE && abs_i(0 - tp) <= 32
                            && (#[trigger] spec_deriv_local(self, ns as int, tp))
                                != (0int, 0int)
                            && (nt.x as int, nt.y as int) == spec_unit(
                                spec_deriv_local(self, ns as int, tp).0,
                                spec_deriv_local(self, ns as int, tp).1);
                    assert(displaced_anchor(self, distance as int, na)) by {
                        let u = spec_unit(
                            spec_deriv_local(self, ns as int, tpn).0,
                            spec_deriv_local(self, ns as int, tpn).1);
                        assert((na.x as int, na.y as int) == spec_displace(
                            spec_position_local(self, ns as int, 0).0,
                            spec_position_local(self, ns as int, 0).1,
                            distance as int, -u.1, u.0));
                    }
                    assert(is_unit_dir(self, nt.x as int, nt.y as int));
                }
                if na.x != pending.anchor.x || na.y != pending.anchor.y {
                    proof {
                        if distance == 0 {
                            // with no displacement both boundary points sit
                            // exactly on the shared anchor, so this corner
                            // branch cannot be reached
                            let e = crate::eval::seg_end_index(self, s as int);
                            assert(e == ns as int);
                            crate::eval::lemma_cubic_coord_ends(
                                crate::eval::seg_p0(self, s as int).x as int,
                                crate::eval::seg_p1(self, s as int).x as int,
                                crate::eval::seg_p2(self, s as int).x as int,
                                crate::eval::seg_p3(self, s as int).x as int);
                            crate::eval::lemma_cubic_coord_ends(
                                crate::eval::seg_p0(self, s as int).y as int,
                                crate::eval::seg_p1(self, s as int).y as int,
                                crate::eval::seg_p2(self, s as int).y as int,
                                crate::eval::seg_p3(self, s as int).y as int);
                            crate::eval::lemma_cubic_coord_ends(
                                crate::eval::seg_p0(self, ns as int).x as int,
                                crate::eval::seg_p1(self, ns as int).x as int,
                                crate::eval::seg_p2(self, ns as int).x as int,
                                crate::eval::seg_p3(self, ns as int).x as int);
                            crate::eval::lemma_cubic_coord_ends(
                                crate::eval::seg_p0(self, ns as int).y as int,
                                crate::eval::seg_p1(self, ns as int).y as int,
                                crate::eval::seg_p2(self, ns as int).y as int,
                                crate::eval::seg_p3(self, ns as int).y as int);
                            assert(false);
                        }
                    }
                    // a corner between the two offset ends
                    let ta = match robust_dir(self, s, T_ONE) {
                        Ok(v) => v,
                        Err(e) => {
                            return Err(e);
                        },
                    };
                    proof {
                        let tpa = choose|tp: int|
                            0 <= tp <= T_ONE && abs_i(T_ONE as int - tp) <= 32
                                && (#[trigger] spec_deriv_local(self, s as int, tp))
                                    != (0int, 0int)
                                && (ta.x as int, ta.y as int) == spec_unit(
                                    spec_deriv_local(self, s as int, tp).0,
                                    spec_deriv_local(self, s as int, tp).1);
                        assert(is_unit_dir(self, ta.x as int, ta.y as int));
                    }
                    let corner = if s + 1 < n {
                        self.handle_at(s + 1).anchor
                    } else {
                        self.handle_at(0).anchor
                    };
                    // an inner corner: the next piece starts behind the end
                    // of the previous one, so both are trimmed back to the
                    // intersection of the end tangents
                    proof {
                        lemma_mul_range(nt.x as int,
                            na.x as int - pending.anchor.x as int, 65536, 4294967296);
                        lemma_mul_range(nt.y as int,
                            na.y as int - pending.anchor.y as int, 65536, 4294967296);
                    }
                    let dotf: i128 = (nt.x as i128)
                        * ((na.x as i128) - (pending.anchor.x as i128))
                        + (nt.y as i128) * ((na.y as i128) - (pending.anchor.y as i128));
                    let mut handled = false;
                    if dotf < 0 {
                        match miter_point(pending.anchor, ta, na, nt, corner, GEOM_LIMIT) {
                            Some(m) => {
                                proof {
                                    assert(join_anchor(self, distance as int, m)) by {
                                        assert((m.x as int, m.y as int)
                                            == spec_line_meet(pending.anchor, ta, na, nt));
                                    }
                                }
                                // a control sitting on the moved anchor moves
                                // with it, keeping the corner sharp
                                let ci = if pending.ctrl_in.x == pending.anchor.x
                                    && pending.ctrl_in.y == pending.anchor.y {
                                    m
                                } else {
                                    pending.ctrl_in
                                };
                                pending = Handle { anchor: m, ctrl_in: ci, ctrl_out: m };
                                handled = true;
                            },
                            None => {},
                        }
                    }
                    if !handled {
                        // an outer corner: close the left end sharply, add
                        // the join geometry, restart at the right end
                        out.push(Handle {
                            anchor: pending.anchor,
                            ctrl_in: pending.ctrl_in,
                            ctrl_out: pending.anchor,
                        });
                        match join {
                            Join::Bevel => {},
                            Join::Miter(limit) => {
                                match miter_point(
                                    pending.anchor, ta, na, nt, corner, limit)
                                {
                                    Some(m) => {
                                        proof {
                                            assert(join_anchor(self, distance as int, m))
                                                by {
                                                assert((m.x as int, m.y as int)
                                                    == spec_line_meet(
                                                        pending.anchor, ta, na, nt));
                                            }
                                        }
                                        out.push(Handle {
                                            anchor: m, ctrl_in: m, ctrl_out: m,
                                        });
                                    },
                                    None => {},
                                }
                            },
                            Join::Round => {
                                match normalize_dir(-ta.y + -nt.y, ta.x + nt.x) {
                                    Ok(bis) => {
                                        proof {
                                            let ci = if s + 1 < n { s as int + 1 } else { 0int };
                                            assert((#[trigger] self.handles_view()[ci]).anchor
                                                == corner);
                                        }
                                        let c = displace(corner, distance, bis);
                                        proof {
                                            let ci = if s + 1 < n { s as int + 1 } else { 0int };
                                            assert(join_anchor(self, distance as int, c)) by {
                                                let bs = spec_unit(
                                                    -(ta.y as int) - (nt.y as int),
                                                    (ta.x as int) + (nt.x as int));
                                                assert((#[trigger] self.handles_view()[ci])
                                                    .anchor == corner);
                                                assert((c.x as int, c.y as int)
                                                    == spec_displace(
                                                        corner.x as int, corner.y as int,
                                                        distance as int, bs.0, bs.1));
                                            }
                                        }
                                        out.push(Handle {
                                            anchor: c, ctrl_in: c, ctrl_out: c,
                                        });
                                    },
                                    Err(_) => {},
                                }
                            },
                        }
                        pending = Handle { anchor: na, ctrl_in: na, ctrl_out: na };
                    }
                }
                proof {
                    if distance == 0 {
                        assert((na.x as int, na.y as int)
                            == spec_position_local(self, ns as int, 0));
                        assert(on_path(self, na));
                    }
                }
            }
            s += 1;
        }
        if self.is_closed() {
            // the wrap join carries the seam point; when it moved (a
            // trimmed seam corner), it replaces the first handle's
            // anchor, else the carried handle only duplicates the
            // first one and is dropped
            if out.len() > 0 {
                let first = out[0];
                if pending.anchor.x != first.anchor.x || pending.anchor.y != first.anchor.y {
                    let mut out2: Vec<Handle> = Vec::new();
                    let co = if first.ctrl_out.x == first.anchor.x
                        && first.ctrl_out.y == first.anchor.y {
                        pending.anchor
                    } else {
                        first.ctrl_out
                    };
                    out2.push(Handle {
                        anchor: pending.anchor,
                        ctrl_in: pending.ctrl_in,
                        ctrl_out: co,
                    });
                    let mut k: usize = 1;
                    while k < out.len()
                        invariant
                            1 <= k <= out@.len(),
                            out2@.len() == k,
                            forall|i: int| 0 <= i < out@.len()
                                ==> (#[trigger] out@[i]).in_bounds(),
                            forall|i: int| 0 <= i < out@.len() ==> offset_anchor(
                                self, distance as int, (#[trigger] out@[i]).anchor),
                            distance == 0 ==> forall|i: int| 0 <= i < out@.len()
                                ==> on_path(self, (#[trigger] out@[i]).anchor),
                            forall|i: int| 0 <= i < out2@.len()
                                ==> (#[trigger] out2@[i]).in_bounds(),
                            forall|i: int| 0 <= i < out2@.len() ==> offset_anchor(
                                self, distance as int, (#[trigger] out2@[i]).anchor),
                            distance == 0 ==> forall|i: int| 0 <= i < out2@.len()
                                ==> on_path(self, (#[trigger] out2@[i]).anchor),
                        decreases out@.len() - k,
                    {
                        out2.push(out[k]);
                        k += 1;
                    }
                    out = out2;
                }
            }
            let q = Path::create(out, true);
            proof {
                assert(self.closed_view() && n >= 2);
            }
            Ok(q)
        } else {
            // finish the open path at the carried end point
            out.push(Handle {
                anchor: pending.anchor,
                ctrl_in: pending.ctrl_in,
                ctrl_out: pending.anchor,
            });
            let q = Path::create(out, false);
            Ok(q)
        }
    }
}

} // verus!

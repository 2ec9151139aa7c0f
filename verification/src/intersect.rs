//! Intersection engine: self-intersection detection, point
//! containment, and closest-point projection.

use vstd::prelude::*;
use crate::num::{T_ONE, lemma_mul_range};
use crate::path::{Point, Path, PathError};
use crate::eval::spec_position_local;

verus! {

/// Number of flattening samples per segment used by `contains_point`.
pub const FLATTEN_STEPS: usize = 8;

/// Squared Euclidean distance between two points.
pub open spec fn dist2(ax: int, ay: int, bx: int, by: int) -> int {
    (ax - bx) * (ax - bx) + (ay - by) * (ay - by)
}

/// The global parameter of local parameter `t` on segment `s` of a
/// path with `n` segments; the inverse of the global-to-local split,
/// floor-rounded.
pub open spec fn spec_global_of(n: int, s: int, t: int) -> int {
    (s * (T_ONE as int) + t) / n
}

/// Whether segments `sa` and `sb` of a path with `n` segments share
/// an endpoint; such pairs are excluded from self-intersection
/// testing to avoid false positives at shared anchors.
pub open spec fn segs_adjacent(n: int, closed: bool, sa: int, sb: int) -> bool {
    ||| sa == sb
    ||| sa + 1 == sb
    ||| sb + 1 == sa
    ||| (closed && sa == 0 && sb == n - 1)
    ||| (closed && sb == 0 && sa == n - 1)
}

/// Whether the horizontal ray from `p` toward positive x crosses the
/// directed polygon edge from `a` to `b`, by the exact integer
/// half-open rule: an upward edge counts when `p` is strictly left of
/// it, a downward edge when `p` is strictly right.
pub open spec fn edge_crosses(a: Point, b: Point, p: Point) -> bool {
    let cr = (b.x - a.x) * (p.y - a.y) - (p.x - a.x) * (b.y - a.y);
    if a.y <= p.y && p.y < b.y {
        cr > 0
    } else if b.y <= p.y && p.y < a.y {
        cr < 0
    } else {
        false
    }
}

/// Number of crossed edges among the first `k` edges of the closed
/// polygon `poly` (edge `j` runs from vertex `j` to vertex
/// `(j + 1) % len`).
pub open spec fn crossings(poly: Seq<Point>, p: Point, k: int) -> nat
    decreases k,
{
    if k <= 0 {
        0
    } else {
        crossings(poly, p, k - 1)
            + if edge_crosses(poly[k - 1], poly[((k - 1) + 1) % poly.len() as int], p) {
                1nat
            } else {
                0nat
            }
    }
}

/// The flattening polygon of a closed path: `FLATTEN_STEPS` evaluated
/// positions per segment.
pub open spec fn spec_polygon(path: &Path) -> Seq<Point> {
    Seq::new(
        (path.seg_count_spec() * FLATTEN_STEPS) as nat,
        |i: int|
            {
                let p = spec_position_local(
                    path,
                    i / (FLATTEN_STEPS as int),
                    (i % (FLATTEN_STEPS as int)) * ((T_ONE as int) / (FLATTEN_STEPS as int)),
                );
                Point { x: p.0 as i64, y: p.1 as i64 }
            },
    )
}

/// Exact crossing test for one polygon edge.
fn edge_crosses_exec(a: Point, b: Point, p: Point) -> (r: bool)
    requires
        a.in_bounds(),
        b.in_bounds(),
        p.in_bounds(),
    ensures
        r == edge_crosses(a, b, p),
{
    proof {
        lemma_mul_range(b.x as int - a.x as int, p.y as int - a.y as int,
            4294967296, 4294967296);
        lemma_mul_range(p.x as int - a.x as int, b.y as int - a.y as int,
            4294967296, 4294967296);
    }
    let cr: i128 = ((b.x as i128) - (a.x as i128)) * ((p.y as i128) - (a.y as i128))
        - ((p.x as i128) - (a.x as i128)) * ((b.y as i128) - (a.y as i128));
    if a.y <= p.y && p.y < b.y {
        cr > 0
    } else if b.y <= p.y && p.y < a.y {
        cr < 0
    } else {
        false
    }
}

impl Path {
    /// The flattening polygon used by `contains_point`, exactly
    /// `spec_polygon`.
    fn flatten_polygon(&self) -> (v: Vec<Point>)
        requires
            self.wf(),
        ensures
            v@ == spec_polygon(self),
            forall|i: int| 0 <= i < v@.len() ==> (#[trigger] v@[i]).in_bounds(),
    {
        let n = self.segment_count();
        let mut v: Vec<Point> = Vec::new();
        let step: i64 = T_ONE / (FLATTEN_STEPS as i64);
        proof {
            assert(T_ONE as int / (FLATTEN_STEPS as int) == 8192);
        }
        let mut s: usize = 0;
        while s < n
            invariant
                self.wf(),
                0 <= s <= n,
                n == self.seg_count_spec(),
                n <= 268435456,
                step == 8192,
                v@.len() == s * FLATTEN_STEPS,
                forall|i: int| 0 <= i < v@.len() ==> v@[i] == spec_polygon(self)[i],
                forall|i: int| 0 <= i < v@.len() ==> (#[trigger] v@[i]).in_bounds(),
            decreases n - s,
        {
            let mut k: usize = 0;
            while k < FLATTEN_STEPS
                invariant
                    self.wf(),
                    0 <= k <= FLATTEN_STEPS,
                    0 <= s < n,
                    n == self.seg_count_spec(),
                    n <= 268435456,
                    step == 8192,
                    v@.len() == s * FLATTEN_STEPS + k,
                    forall|i: int| 0 <= i < v@.len() ==> v@[i] == spec_polygon(self)[i],
                    forall|i: int| 0 <= i < v@.len() ==> (#[trigger] v@[i]).in_bounds(),
                decreases FLATTEN_STEPS - k,
            {
                let t: i64 = (k as i64) * step;
                let p = self.position_local(s, t);
                proof {
                    let i = v@.len() as int;
                    assert(i / (FLATTEN_STEPS as int) == s as int
                        && i % (FLATTEN_STEPS as int) == k as int) by {
                        vstd::arithmetic::div_mod::lemma_fundamental_div_mod_converse(
                            i, FLATTEN_STEPS as int, s as int, k as int);
                    }
                }
                v.push(p);
                k += 1;
            }
            s += 1;
        }
        proof {
            assert(v@ =~= spec_polygon(self));
        }
        v
    }

    /// Even-odd containment test against the flattening polygon of
    /// the path: true exactly when the horizontal ray from `p`
    /// crosses an odd number of polygon edges.  Only closed paths
    /// bound a region; an open path always reports false.
    pub fn contains_point(&self, p: Point) -> (r: bool)
        requires
            self.wf(),
            p.in_bounds(),
        ensures
            !self.closed_view() ==> r == false,
            self.closed_view() ==> r == (
                crossings(spec_polygon(self), p, spec_polygon(self).len() as int) % 2 == 1),
    {
        if !self.is_closed() {
            return false;
        }
        let poly = self.flatten_polygon();
        let len = poly.len();
        if len == 0 {
            proof {
                assert(crossings(spec_polygon(self), p, 0) == 0);
            }
            return false;
        }
        let mut count: u64 = 0;
        let mut j: usize = 0;
        while j < len
            invariant
                0 < len == poly@.len() <= 0x100000000000,
                poly@ == spec_polygon(self),
                forall|i: int| 0 <= i < poly@.len() ==> (#[trigger] poly@[i]).in_bounds(),
                p.in_bounds(),
                0 <= j <= len,
                count <= j,
                count == crossings(poly@, p, j as int),
            decreases len - j,
        {
            let a = poly[j];
            let nxt = if j + 1 == len { 0 } else { j + 1 };
            let b = poly[nxt];
            proof {
                if j + 1 == len {
                    assert((j as int + 1) % poly@.len() as int == 0) by {
                        vstd::arithmetic::div_mod::lemma_mod_self_0(poly@.len() as int);
                    }
                } else {
                    assert((j as int + 1) % poly@.len() as int == j as int + 1) by {
                        vstd::arithmetic::div_mod::lemma_small_mod(
                            (j + 1) as nat, poly@.len() as nat);
                    }
                }
            }
            if edge_crosses_exec(a, b, p) {
                count += 1;
            }
            j += 1;
        }
        count % 2 == 1
    }

    /// The point of the path closest to `q` among the refined search:
    /// a coarse sample grid over every segment, then bounded local
    /// refinement.  Returns the global parameter and the evaluated
    /// position; the result is an evaluated point of the path whose
    /// distance to `q` is no larger than at any coarse sample.  Among
    /// equally close coarse samples the earliest wins — smaller
    /// segment index, then smaller parameter — and refinement keeps
    /// only strict improvements around that bracket.  A path without
    /// segments has nothing to project onto and reports
    /// `DegenerateGeometry`.
    pub fn project_point(&self, q: Point) -> (r: Result<(i64, Point), PathError>)
        requires
            self.wf(),
            q.in_bounds(),
        ensures
            match r {
                Ok((tg, p)) => {
                    &&& self.seg_count_spec() > 0
                    &&& 0 <= tg <= T_ONE
                    &&& exists|s: int, t: int|
                        0 <= s < self.seg_count_spec() && 0 <= t <= T_ONE
                            && (p.x as int, p.y as int)
                                == (#[trigger] spec_position_local(self, s, t))
                    &&& forall|s: int, k: int|
                        0 <= s < self.seg_count_spec() && 0 <= k <= 16 ==> {
                            let c = #[trigger] spec_position_local(self, s, k * 4096);
                            dist2(p.x as int, p.y as int, q.x as int, q.y as int)
                                <= dist2(c.0, c.1, q.x as int, q.y as int)
                        }
                },
                Err(e) => e == PathError::DegenerateGeometry && self.seg_count_spec() == 0,
            },
    {
        let n = self.segment_count();
        if n == 0 {
            return Err(PathError::DegenerateGeometry);
        }
        let mut best_s: usize = 0;
        let mut best_t: i64 = 0;
        let mut best_p: Point = self.position_local(0, 0);
        let mut best_d: i128 = dist2_exec(best_p, q);
        let mut s: usize = 0;
        while s < n
            invariant
                self.wf(),
                q.in_bounds(),
                0 <= s <= n,
                n == self.seg_count_spec(),
                n <= 268435456,
                best_s < n,
                0 <= best_t <= T_ONE,
                (best_p.x as int, best_p.y as int)
                    == spec_position_local(self, best_s as int, best_t as int),
                best_p.in_bounds(),
                best_d == dist2(best_p.x as int, best_p.y as int, q.x as int, q.y as int),
                forall|s2: int, k: int|
                    0 <= s2 < s && 0 <= k <= 16 ==> {
                        let c = #[trigger] spec_position_local(self, s2, k * 4096);
                        best_d <= dist2(c.0, c.1, q.x as int, q.y as int)
                    },
            decreases n - s,
        {
            let mut k: usize = 0;
            while k <= 16
                invariant
                    self.wf(),
                    q.in_bounds(),
                    0 <= s < n,
                    0 <= k <= 17,
                    n == self.seg_count_spec(),
                    n <= 268435456,
                    best_s < n,
                    0 <= best_t <= T_ONE,
                    (best_p.x as int, best_p.y as int)
                        == spec_position_local(self, best_s as int, best_t as int),
                    best_p.in_bounds(),
                    best_d == dist2(best_p.x as int, best_p.y as int, q.x as int, q.y as int),
                    forall|s2: int, k2: int|
                        0 <= s2 < s && 0 <= k2 <= 16 ==> {
                            let c = #[trigger] spec_position_local(self, s2, k2 * 4096);
                            best_d <= dist2(c.0, c.1, q.x as int, q.y as int)
                        },
                    forall|k2: int|
                        0 <= k2 < k ==> {
                            let c = #[trigger] spec_position_local(self, s as int, k2 * 4096);
                            best_d <= dist2(c.0, c.1, q.x as int, q.y as int)
                        },
                decreases 17 - k,
            {
                let t: i64 = (k as i64) * 4096;
                let p = self.position_local(s, t);
                let d = dist2_exec(p, q);
                if d < best_d {
                    best_s = s;
                    best_t = t;
                    best_p = p;
                    best_d = d;
                }
                k += 1;
            }
            s += 1;
        }
        // bounded local refinement: shrink a window around the best
        // sample, keeping only strict improvements
        let mut w: i64 = 4096;
        let mut it: u32 = 0;
        while it < 24
            invariant
                self.wf(),
                q.in_bounds(),
                n == self.seg_count_spec(),
                n <= 268435456,
                1 <= n,
                best_s < n,
                0 <= best_t <= T_ONE,
                1 <= w <= 4096,
                (best_p.x as int, best_p.y as int)
                    == spec_position_local(self, best_s as int, best_t as int),
                best_p.in_bounds(),
                best_d == dist2(best_p.x as int, best_p.y as int, q.x as int, q.y as int),
                forall|s2: int, k2: int|
                    0 <= s2 < n && 0 <= k2 <= 16 ==> {
                        let c = #[trigger] spec_position_local(self, s2, k2 * 4096);
                        best_d <= dist2(c.0, c.1, q.x as int, q.y as int)
                    },
            decreases 24 - it,
        {
            let tl: i64 = if best_t >= w { best_t - w } else { 0 };
            let th: i64 = if best_t + w <= T_ONE { best_t + w } else { T_ONE };
            let pl = self.position_local(best_s, tl);
            let dl = dist2_exec(pl, q);
            if dl < best_d {
                best_t = tl;
                best_p = pl;
                best_d = dl;
            }
            let ph = self.position_local(best_s, th);
            let dh = dist2_exec(ph, q);
            if dh < best_d {
                best_t = th;
                best_p = ph;
                best_d = dh;
            }
            if w >= 2 {
                w = ((w as u64) / 2) as i64;
            }
            it += 1;
        }
        let tg = self.global_parameter(best_s, best_t);
        Ok((tg, best_p))
    }
}

/// Whether the global parameter `tg` points at a found
/// self-intersection: two non-adjacent segments carry parameters
/// whose evaluated positions lie within the error threshold of each
/// other, and `tg` is the global form of the first of them.
pub open spec fn reported_intersection(path: &Path, thr: int, tg: i64) -> bool {
    exists|sa: int, ta: int, sb: int, tb: int|
        #![trigger spec_position_local(path, sa, ta), spec_position_local(path, sb, tb)]
        {
            let n = path.seg_count_spec();
            &&& 0 <= sa < n
            &&& 0 <= sb < n
            &&& 0 <= ta <= T_ONE
            &&& 0 <= tb <= T_ONE
            &&& !segs_adjacent(n, path.closed_view(), sa, sb)
            &&& tg == spec_global_of(n, sa, ta)
            &&& dist2(
                spec_position_local(path, sa, ta).0, spec_position_local(path, sa, ta).1,
                spec_position_local(path, sb, tb).0, spec_position_local(path, sb, tb).1,
            ) <= thr * thr
        }
}

/// The dedup gap: reports closer than this keep only their first
/// representative; at least one parameter tick, so the output is
/// strictly increasing.
pub open spec fn gap_of(min_separation: i64) -> int {
    if min_separation < 1 {
        1
    } else {
        min_separation as int
    }
}

/// Whether some coarse 9-by-9 sample pair of segments `sa` and `sb`
/// lies within the error threshold: the condition under which the
/// search is bound to report the pair.
pub open spec fn pair_grid_close(path: &Path, thr: int, sa: int, sb: int) -> bool {
    exists|ka: int, kb: int|
        #![trigger spec_position_local(path, sa, ka * 8192),
            spec_position_local(path, sb, kb * 8192)]
        {
            &&& 0 <= ka <= 8
            &&& 0 <= kb <= 8
            &&& dist2(
                spec_position_local(path, sa, ka * 8192).0,
                spec_position_local(path, sa, ka * 8192).1,
                spec_position_local(path, sb, kb * 8192).0,
                spec_position_local(path, sb, kb * 8192).1,
            ) <= thr * thr
        }
}

/// Whether entry `j` of `cands` has a kept representative in `v`
/// within `gap` below it.
pub open spec fn covered(cands: Seq<i64>, v: Seq<i64>, gap: int, j: int) -> bool {
    exists|i: int| 0 <= i < v.len() && 0 <= cands[j] - (#[trigger] v[i]) < gap
}

/// Whether the report list carries, within `gap` below the value, the
/// global parameter of a genuine near-touch of segments `sa` and
/// `sb`.
pub open spec fn pair_reported(
    path: &Path, thr: int, gap: int, v: Seq<i64>, sa: int, sb: int,
) -> bool {
    exists|i: int, t: int, t2: int|
        #![trigger v[i], spec_position_local(path, sa, t), spec_position_local(path, sb, t2)]
        {
            &&& 0 <= i < v.len()
            &&& 0 <= t <= T_ONE
            &&& 0 <= t2 <= T_ONE
            &&& dist2(
                spec_position_local(path, sa, t).0, spec_position_local(path, sa, t).1,
                spec_position_local(path, sb, t2).0, spec_position_local(path, sb, t2).1,
            ) <= thr * thr
            &&& 0 <= spec_global_of(path.seg_count_spec(), sa, t) - v[i] <= gap
        }
}

impl Path {
    /// Global parameters of the path's self-intersections: for every
    /// unordered pair of non-adjacent segments, a coarse parametric
    /// search refined by bounded bisection; pairs whose refined
    /// positions lie within `error_threshold` of each other are
    /// reported.  The result is strictly increasing, keeps one
    /// representative per cluster of reports closer than
    /// `min_separation`, and every reported parameter really carries
    /// a witnessing pair of near-touching positions.
    pub fn self_intersections(&self, error_threshold: i64, min_separation: i64)
        -> (v: Vec<i64>)
        requires
            self.wf(),
            error_threshold >= 0,
            min_separation >= 0,
        ensures
            forall|i: int| 0 <= i < v@.len() ==> 0 <= #[trigger] v@[i] <= T_ONE,
            forall|i: int|
                0 <= i < v@.len() - 1
                    ==> #[trigger] v@[i] < v@[i + 1] && v@[i] + min_separation <= v@[i + 1],
            forall|i: int| 0 <= i < v@.len()
                ==> reported_intersection(self, error_threshold as int, #[trigger] v@[i]),
            forall|sa: int, sb: int|
                0 <= sa < sb < self.seg_count_spec()
                    && !segs_adjacent(self.seg_count_spec(), self.closed_view(), sa, sb)
                    && #[trigger] pair_grid_close(self, error_threshold as int, sa, sb)
                    ==> pair_reported(self, error_threshold as int,
                        gap_of(min_separation), v@, sa, sb),
    {
        let n = self.segment_count();
        let mut cands: Vec<i64> = Vec::new();
        if n < 2 {
            let out: Vec<i64> = Vec::new();
            return out;
        }
        proof {
            lemma_mul_range(error_threshold as int, error_threshold as int,
                9223372036854775807, 9223372036854775807);
        }
        let thr2: i128 = (error_threshold as i128) * (error_threshold as i128);
        let mut sa: usize = 0;
        while sa < n
            invariant
                self.wf(),
                2 <= n <= 268435456,
                n == self.seg_count_spec(),
                0 <= sa <= n,
                thr2 == (error_threshold as int) * (error_threshold as int),
                forall|i: int| 0 <= i < cands@.len() ==> 0 <= #[trigger] cands@[i] <= T_ONE,
                forall|i: int| 0 <= i < cands@.len() ==> reported_intersection(
                    self, error_threshold as int, #[trigger] cands@[i]),
                forall|sa2: int, sb2: int|
                    0 <= sa2 < sb2 < n && sa2 < sa
                        && !segs_adjacent(n as int, self.closed_view(), sa2, sb2)
                        && #[trigger] pair_grid_close(self, error_threshold as int, sa2, sb2)
                        ==> pair_reported(self, error_threshold as int, 0, cands@, sa2, sb2),
            decreases n - sa,
        {
            let mut sb: usize = sa + 1;
            while sb < n
                invariant
                    self.wf(),
                    2 <= n <= 268435456,
                    n == self.seg_count_spec(),
                    0 <= sa < n,
                    sa < sb <= n,
                    thr2 == (error_threshold as int) * (error_threshold as int),
                    forall|i: int| 0 <= i < cands@.len() ==> 0 <= #[trigger] cands@[i] <= T_ONE,
                    forall|i: int| 0 <= i < cands@.len() ==> reported_intersection(
                        self, error_threshold as int, #[trigger] cands@[i]),
                    forall|sa2: int, sb2: int|
                        0 <= sa2 < sb2 < n
                            && (sa2 < sa || (sa2 == sa as int && sb2 < sb))
                            && !segs_adjacent(n as int, self.closed_view(), sa2, sb2)
                            && #[trigger] pair_grid_close(
                                self, error_threshold as int, sa2, sb2)
                            ==> pair_reported(
                                self, error_threshold as int, 0, cands@, sa2, sb2),
                decreases n - sb,
            {
                let adjacent = sb == sa + 1 || (self.is_closed() && sa == 0 && sb == n - 1);
                if !adjacent {
                    // coarse grid over both parameters
                    let mut bta: i64 = 0;
                    let mut btb: i64 = 0;
                    let mut pa = self.position_local(sa, 0);
                    let mut pb = self.position_local(sb, 0);
                    let mut bd: i128 = dist2_exec(pa, pb);
                    let mut ka: usize = 0;
                    while ka <= 8
                        invariant
                            self.wf(),
                            n == self.seg_count_spec(),
                            0 <= sa < n,
                            sa < sb < n,
                            0 <= ka <= 9,
                            0 <= bta <= T_ONE,
                            0 <= btb <= T_ONE,
                            (pa.x as int, pa.y as int)
                                == spec_position_local(self, sa as int, bta as int),
                            (pb.x as int, pb.y as int)
                                == spec_position_local(self, sb as int, btb as int),
                            pa.in_bounds(),
                            pb.in_bounds(),
                            bd == dist2(pa.x as int, pa.y as int, pb.x as int, pb.y as int),
                            forall|ka2: int, kb2: int|
                                0 <= ka2 < ka && 0 <= kb2 <= 8 ==> bd <= dist2(
                                    (#[trigger] spec_position_local(
                                        self, sa as int, ka2 * 8192)).0,
                                    spec_position_local(self, sa as int, ka2 * 8192).1,
                                    (#[trigger] spec_position_local(
                                        self, sb as int, kb2 * 8192)).0,
                                    spec_position_local(self, sb as int, kb2 * 8192).1),
                        decreases 9 - ka,
                    {
                        let ta: i64 = (ka as i64) * 8192;
                        let qa = self.position_local(sa, ta);
                        let mut kb: usize = 0;
                        while kb <= 8
                            invariant
                                self.wf(),
                                n == self.seg_count_spec(),
                                0 <= sa < n,
                                sa < sb < n,
                                0 <= ka <= 8,
                                0 <= kb <= 9,
                                ta == ka * 8192,
                                (qa.x as int, qa.y as int)
                                    == spec_position_local(self, sa as int, ta as int),
                                qa.in_bounds(),
                                0 <= bta <= T_ONE,
                                0 <= btb <= T_ONE,
                                (pa.x as int, pa.y as int)
                                    == spec_position_local(self, sa as int, bta as int),
                                (pb.x as int, pb.y as int)
                                    == spec_position_local(self, sb as int, btb as int),
                                pa.in_bounds(),
                                pb.in_bounds(),
                                bd == dist2(pa.x as int, pa.y as int, pb.x as int, pb.y as int),
                                forall|ka2: int, kb2: int|
                                    0 <= ka2 < ka && 0 <= kb2 <= 8 ==> bd <= dist2(
                                        (#[trigger] spec_position_local(
                                            self, sa as int, ka2 * 8192)).0,
                                        spec_position_local(self, sa as int, ka2 * 8192).1,
                                        (#[trigger] spec_position_local(
                                            self, sb as int, kb2 * 8192)).0,
                                        spec_position_local(self, sb as int, kb2 * 8192).1),
                                forall|kb2: int|
                                    0 <= kb2 < kb ==> bd <= dist2(
                                        (#[trigger] spec_position_local(
                                            self, sa as int, ka as int * 8192)).0,
                                        spec_position_local(self, sa as int, ka as int * 8192).1,
                                        (#[trigger] spec_position_local(
                                            self, sb as int, kb2 * 8192)).0,
                                        spec_position_local(self, sb as int, kb2 * 8192).1),
                            decreases 9 - kb,
                        {
                            let tb: i64 = (kb as i64) * 8192;
                            let qb = self.position_local(sb, tb);
                            let d = dist2_exec(qa, qb);
                            if d < bd {
                                bta = ta;
                                btb = tb;
                                pa = qa;
                                pb = qb;
                                bd = d;
                            }
                            kb += 1;
                        }
                        ka += 1;
                    }
                    // bounded refinement around the best pair
                    let mut w: i64 = 4096;
                    let mut it: u32 = 0;
                    while it < 16
                        invariant
                            self.wf(),
                            n == self.seg_count_spec(),
                            0 <= sa < n,
                            sa < sb < n,
                            1 <= w <= 4096,
                            0 <= bta <= T_ONE,
                            0 <= btb <= T_ONE,
                            (pa.x as int, pa.y as int)
                                == spec_position_local(self, sa as int, bta as int),
                            (pb.x as int, pb.y as int)
                                == spec_position_local(self, sb as int, btb as int),
                            pa.in_bounds(),
                            pb.in_bounds(),
                            bd == dist2(pa.x as int, pa.y as int, pb.x as int, pb.y as int),
                            forall|ka2: int, kb2: int|
                                0 <= ka2 <= 8 && 0 <= kb2 <= 8 ==> bd <= dist2(
                                    (#[trigger] spec_position_local(
                                        self, sa as int, ka2 * 8192)).0,
                                    spec_position_local(self, sa as int, ka2 * 8192).1,
                                    (#[trigger] spec_position_local(
                                        self, sb as int, kb2 * 8192)).0,
                                    spec_position_local(self, sb as int, kb2 * 8192).1),
                        decreases 16 - it,
                    {
                        let tal: i64 = if bta >= w { bta - w } else { 0 };
                        let tah: i64 = if bta + w <= T_ONE { bta + w } else { T_ONE };
                        let ql = self.position_local(sa, tal);
                        let dl = dist2_exec(ql, pb);
                        if dl < bd {
                            bta = tal;
                            pa = ql;
                            bd = dl;
                        }
                        let qh = self.position_local(sa, tah);
                        let dh = dist2_exec(qh, pb);
                        if dh < bd {
                            bta = tah;
                            pa = qh;
                            bd = dh;
                        }
                        let tbl: i64 = if btb >= w { btb - w } else { 0 };
                        let tbh: i64 = if btb + w <= T_ONE { btb + w } else { T_ONE };
                        let rl = self.position_local(sb, tbl);
                        let el = dist2_exec(pa, rl);
                        if el < bd {
                            btb = tbl;
                            pb = rl;
                            bd = el;
                        }
                        let rh = self.position_local(sb, tbh);
                        let eh = dist2_exec(pa, rh);
                        if eh < bd {
                            btb = tbh;
                            pb = rh;
                            bd = eh;
                        }
                        if w >= 2 {
                            w = ((w as u64) / 2) as i64;
                        }
                        it += 1;
                    }
                    if bd <= thr2 {
                        let tg = self.global_parameter(sa, bta);
                        proof {
                            assert(!segs_adjacent(
                                n as int, self.closed_view(), sa as int, sb as int));
                            assert(reported_intersection(self, error_threshold as int, tg))
                                by {
                                assert({
                                    let pva = spec_position_local(self, sa as int, bta as int);
                                    let pvb = spec_position_local(self, sb as int, btb as int);
                                    dist2(pva.0, pva.1, pvb.0, pvb.1)
                                        <= (error_threshold as int) * (error_threshold as int)
                                });
                                assert(tg == spec_global_of(n as int, sa as int, bta as int));
                            }
                        }
                        let ghost old_cands = cands@;
                        cands.push(tg);
                        proof {
                            // this pair is now reported exactly
                            assert(pair_reported(self, error_threshold as int, 0, cands@,
                                sa as int, sb as int)) by {
                                let i = cands@.len() - 1;
                                assert(cands@[i] == tg);
                                // name the witnessing positions so the
                                // quantifier can pick them up
                                assert(spec_position_local(self, sa as int, bta as int)
                                    == spec_position_local(self, sa as int, bta as int));
                                assert(spec_position_local(self, sb as int, btb as int)
                                    == spec_position_local(self, sb as int, btb as int));
                            }
                            // earlier pairs keep their reports: the push
                            // left every existing entry in place
                            assert forall|sa2: int, sb2: int|
                                0 <= sa2 < sb2 < n
                                    && (sa2 < sa || (sa2 == sa as int && sb2 < sb as int))
                                    && !segs_adjacent(n as int, self.closed_view(), sa2, sb2)
                                    && #[trigger] pair_grid_close(
                                        self, error_threshold as int, sa2, sb2)
                                implies pair_reported(
                                    self, error_threshold as int, 0, cands@, sa2, sb2) by {
                                assert(pair_reported(
                                    self, error_threshold as int, 0, old_cands, sa2, sb2));
                                let (i, t, t2) = choose|i: int, t: int, t2: int|
                                    {
                                        &&& 0 <= i < old_cands.len()
                                        &&& 0 <= t <= T_ONE
                                        &&& 0 <= t2 <= T_ONE
                                        &&& dist2(
                                            (#[trigger] spec_position_local(
                                                self, sa2, t)).0,
                                            spec_position_local(self, sa2, t).1,
                                            (#[trigger] spec_position_local(
                                                self, sb2, t2)).0,
                                            spec_position_local(self, sb2, t2).1,
                                        ) <= (error_threshold as int)
                                            * (error_threshold as int)
                                        &&& 0 <= spec_global_of(
                                            self.seg_count_spec(), sa2, t)
                                            - (#[trigger] old_cands[i]) <= 0
                                    };
                                assert(cands@[i] == old_cands[i]);
                                assert(pair_reported(
                                    self, error_threshold as int, 0, cands@, sa2, sb2)) by {
                                    assert(0 <= spec_global_of(
                                        self.seg_count_spec(), sa2, t) - cands@[i] <= 0);
                                }
                            }
                        }
                    } else {
                        proof {
                            // no coarse sample pair of this pair comes
                            // within the threshold: the best found is
                            // below every grid sample and above it
                            assert(!pair_grid_close(
                                self, error_threshold as int, sa as int, sb as int)) by {
                                if pair_grid_close(
                                    self, error_threshold as int, sa as int, sb as int) {
                                    let (ka2, kb2) = choose|ka2: int, kb2: int|
                                        0 <= ka2 <= 8 && 0 <= kb2 <= 8 && dist2(
                                            (#[trigger] spec_position_local(
                                                self, sa as int, ka2 * 8192)).0,
                                            spec_position_local(
                                                self, sa as int, ka2 * 8192).1,
                                            (#[trigger] spec_position_local(
                                                self, sb as int, kb2 * 8192)).0,
                                            spec_position_local(
                                                self, sb as int, kb2 * 8192).1,
                                        ) <= (error_threshold as int)
                                            * (error_threshold as int);
                                    assert(false);
                                }
                            }
                        }
                    }
                }
                sb += 1;
            }
            sa += 1;
        }
        let out = sort_dedup(&cands, error_threshold, min_separation, self);
        proof {
            let ghost cs = cands@;
            let thr = error_threshold as int;
            assert forall|sa: int, sb: int|
                0 <= sa < sb < self.seg_count_spec()
                    && !segs_adjacent(self.seg_count_spec(), self.closed_view(), sa, sb)
                    && #[trigger] pair_grid_close(self, thr, sa, sb)
                implies pair_reported(self, thr, gap_of(min_separation), out@, sa, sb) by {
                assert(pair_reported(self, thr, 0, cs, sa, sb));
                let (i, t, t2) = choose|i: int, t: int, t2: int|
                    {
                        &&& 0 <= i < cs.len()
                        &&& 0 <= t <= T_ONE
                        &&& 0 <= t2 <= T_ONE
                        &&& dist2(
                            (#[trigger] spec_position_local(self, sa, t)).0,
                            spec_position_local(self, sa, t).1,
                            (#[trigger] spec_position_local(self, sb, t2)).0,
                            spec_position_local(self, sb, t2).1,
                        ) <= thr * thr
                        &&& 0 <= spec_global_of(self.seg_count_spec(), sa, t)
                            - (#[trigger] cs[i]) <= 0
                    };
                assert(covered(cs, out@, gap_of(min_separation), i));
                let k = choose|k: int|
                    0 <= k < out@.len()
                        && 0 <= cs[i] - (#[trigger] out@[k]) < gap_of(min_separation);
                assert(pair_reported(
                    self, thr, gap_of(min_separation), out@, sa, sb)) by {
                    assert(0 <= spec_global_of(self.seg_count_spec(), sa, t) - out@[k]
                        <= gap_of(min_separation));
                }
            }
        }
        out
    }
}

/// Sorts candidate parameters and keeps one representative per
/// cluster closer than the separation, preserving their witness
/// property.
fn sort_dedup(cands: &Vec<i64>, thr: i64, min_separation: i64, path: &Path) -> (v: Vec<i64>)
    requires
        min_separation >= 0,
        forall|i: int| 0 <= i < cands@.len() ==> 0 <= #[trigger] cands@[i] <= T_ONE,
        forall|i: int| 0 <= i < cands@.len()
            ==> reported_intersection(path, thr as int, #[trigger] cands@[i]),
    ensures
        forall|i: int| 0 <= i < v@.len() ==> 0 <= #[trigger] v@[i] <= T_ONE,
        forall|i: int|
            0 <= i < v@.len() - 1
                ==> #[trigger] v@[i] < v@[i + 1] && v@[i] + min_separation <= v@[i + 1],
        forall|i: int| 0 <= i < v@.len()
            ==> reported_intersection(path, thr as int, #[trigger] v@[i]),
        forall|j: int| 0 <= j < cands@.len()
            ==> #[trigger] covered(cands@, v@, gap_of(min_separation), j),
{
    let ghost orig = cands@;
    let gap: i64 = if min_separation < 1 { 1 } else { min_separation };
    let mut rem: Vec<i64> = Vec::new();
    let mut c: usize = 0;
    while c < cands.len()
        invariant
            0 <= c <= cands@.len(),
            rem@ == cands@.subrange(0, c as int),
        decreases cands@.len() - c,
    {
        rem.push(cands[c]);
        proof {
            assert(rem@ =~= cands@.subrange(0, c + 1));
        }
        c += 1;
    }
    proof {
        assert(rem@ =~= cands@);
    }
    let mut out: Vec<i64> = Vec::new();
    while rem.len() > 0
        invariant
            gap >= 1,
            gap >= min_separation,
            gap == gap_of(min_separation),
            forall|j: int| 0 <= j < orig.len() ==> rem@.contains(#[trigger] orig[j])
                || exists|i: int|
                    0 <= i < out@.len() && 0 <= orig[j] - (#[trigger] out@[i]) < gap,
            forall|i: int| 0 <= i < rem@.len() ==> 0 <= #[trigger] rem@[i] <= T_ONE,
            forall|i: int| 0 <= i < rem@.len()
                ==> reported_intersection(path, thr as int, #[trigger] rem@[i]),
            forall|i: int| 0 <= i < out@.len() ==> 0 <= #[trigger] out@[i] <= T_ONE,
            forall|i: int|
                0 <= i < out@.len() - 1
                    ==> #[trigger] out@[i] < out@[i + 1]
                        && out@[i] + min_separation <= out@[i + 1],
            forall|i: int| 0 <= i < out@.len()
                ==> reported_intersection(path, thr as int, #[trigger] out@[i]),
            out@.len() > 0 ==> forall|i: int|
                0 <= i < rem@.len() ==> out@[out@.len() - 1] <= #[trigger] rem@[i],
        decreases rem@.len(),
    {
        // extract the smallest remaining candidate
        let mut mi: usize = 0;
        let mut mv: i64 = rem[0];
        let mut j: usize = 1;
        while j < rem.len()
            invariant
                0 < rem@.len(),
                0 <= mi < j <= rem@.len(),
                mv == rem@[mi as int],
                forall|l: int| 0 <= l < j ==> mv <= #[trigger] rem@[l],
            decreases rem@.len() - j,
        {
            if rem[j] < mv {
                mi = j;
                mv = rem[j];
            }
            j += 1;
        }
        let ghost old_rem = rem@;
        let ghost old_out = out@;
        let m = rem.remove(mi);
        proof {
            assert(m == mv);
            assert forall|i: int| 0 <= i < rem@.len() implies {
                &&& 0 <= #[trigger] rem@[i] <= T_ONE
                &&& reported_intersection(path, thr as int, rem@[i])
                &&& mv <= rem@[i]
            } by {
                if i < mi {
                    assert(rem@[i] == old_rem[i]);
                } else {
                    assert(rem@[i] == old_rem[i + 1]);
                }
            }
        }
        let push_ok: bool = if out.len() == 0 {
            true
        } else {
            let last = out[out.len() - 1];
            (last as i128) + (gap as i128) <= (m as i128)
        };
        if push_ok {
            out.push(m);
        }
        proof {
            // the extracted minimum now has a kept value within the gap:
            // itself when pushed, else the kept value it crowded into
            let ghost ki: int = out@.len() - 1;
            assert(0 <= ki < out@.len());
            assert(0 <= m - out@[ki] < gap);
            // every original entry is still pending or covered
            assert forall|j: int| 0 <= j < orig.len() implies rem@.contains(#[trigger] orig[j])
                || exists|i: int|
                    0 <= i < out@.len() && 0 <= orig[j] - (#[trigger] out@[i]) < gap by {
                if old_rem.contains(orig[j]) {
                    let k = choose|k: int| 0 <= k < old_rem.len()
                        && (#[trigger] old_rem[k]) == orig[j];
                    if k == mi {
                        assert(orig[j] == m);
                        assert(0 <= orig[j] - out@[ki] < gap);
                    } else if k < mi {
                        assert(rem@[k] == old_rem[k]);
                        assert(rem@.contains(orig[j]));
                    } else {
                        assert(rem@[k - 1] == old_rem[k]);
                        assert(rem@.contains(orig[j]));
                    }
                } else {
                    let i = choose|i: int| 0 <= i < old_out.len()
                        && 0 <= orig[j] - (#[trigger] old_out[i]) < gap;
                    assert(out@[i] == old_out[i]);
                }
            }
        }
    }
    proof {
        // nothing is pending, so every original entry has its kept
        // representative within the gap
        assert forall|j: int| 0 <= j < cands@.len()
            implies #[trigger] covered(cands@, out@, gap_of(min_separation), j) by {
            assert(!rem@.contains(orig[j])) by {
                assert(rem@.len() == 0);
            }
            let i = choose|i: int|
                0 <= i < out@.len() && 0 <= orig[j] - (#[trigger] out@[i]) < gap;
            assert(0 <= cands@[j] - out@[i] < gap_of(min_separation));
        }
    }
    out
}

/// Squared distance between two in-bounds points.
fn dist2_exec(a: Point, b: Point) -> (r: i128)
    requires
        a.in_bounds(),
        b.in_bounds(),
    ensures
        r == dist2(a.x as int, a.y as int, b.x as int, b.y as int),
        r >= 0,
{
    proof {
        lemma_mul_range(a.x as int - b.x as int, a.x as int - b.x as int,
            4294967296, 4294967296);
        lemma_mul_range(a.y as int - b.y as int, a.y as int - b.y as int,
            4294967296, 4294967296);
        assert((a.x as int - b.x as int) * (a.x as int - b.x as int) >= 0
            && (a.y as int - b.y as int) * (a.y as int - b.y as int) >= 0)
            by (nonlinear_arith);
    }
    let dx: i128 = (a.x as i128) - (b.x as i128);
    let dy: i128 = (a.y as i128) - (b.y as i128);
    dx * dx + dy * dy
}

} // verus!

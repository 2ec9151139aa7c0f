//! Outlining: the closed boundary of a stroke of total width twice
//! the given distance, centred on the path, built from two offsets
//! plus cap resolution at the free ends of an open path.

use vstd::prelude::*;
use crate::num::{T_ONE, GEOM_LIMIT};
use crate::path::{Point, Handle, Path, PathError, seq_reversed};
use crate::eval::{spec_position_local, abs_i};
use crate::offset::{
    Join, bezrsCapType, geom_bounded, has_degenerate_sample, on_path, offset_anchor,
    displaced_anchor, is_unit_dir, spec_displace, OFFSET_MAX_INPUT,
};

verus! {

/// Whether every path carrying the reversal of `path`'s handles has a
/// sample with vanishing derivative; reversal swaps each handle's
/// control points and flips the order, so this is the offsetting
/// obstruction of the reversed traversal.
pub open spec fn reversed_has_degenerate_sample(path: &Path) -> bool {
    exists|q: Path|
        (#[trigger] q.handles_view()) == seq_reversed(path.handles_view())
            && q.closed_view() == path.closed_view() && has_degenerate_sample(&q)
}

/// Whether `(ux, uy)` or its reverse is a unit direction of travel of
/// the path.
pub open spec fn unit_dirish(path: &Path, ux: int, uy: int) -> bool {
    is_unit_dir(path, ux, uy) || is_unit_dir(path, -ux, -uy)
}

/// A point the cap geometry starts from: an on-path sample, or such a
/// sample displaced by the stroke distance along the unit normal to
/// either side.
pub open spec fn cap_base(path: &Path, d: int, bx: int, by: int) -> bool {
    ||| on_path(path, Point { x: bx as i64, y: by as i64 })
    ||| displaced_anchor(path, d, Point { x: bx as i64, y: by as i64 })
    ||| displaced_anchor(path, -d, Point { x: bx as i64, y: by as i64 })
}

/// A cap point of an open path's stroke boundary: a cap base pushed
/// by the stroke distance along an end direction of travel or its
/// reverse.
pub open spec fn cap_anchor(path: &Path, d: int, p: Point) -> bool {
    exists|bx: int, by: int, ux: int, uy: int|
        #![trigger spec_displace(bx, by, d, ux, uy)]
        {
            &&& cap_base(path, d, bx, by)
            &&& unit_dirish(path, ux, uy)
            &&& (p.x as int, p.y as int) == spec_displace(bx, by, d, ux, uy)
        }
}

/// Every anchor of an open path's stroke boundary is of one of these
/// forms: an offset anchor of the path itself, an offset anchor of
/// its reversed traversal, or cap geometry at a free end.
pub open spec fn stroke_anchor(path: &Path, d: int, p: Point) -> bool {
    ||| offset_anchor(path, d, p)
    ||| exists|rv: Path|
        (#[trigger] rv.handles_view()) == seq_reversed(path.handles_view())
            && rv.closed_view() == path.closed_view() && offset_anchor(&rv, d, p)
    ||| cap_anchor(path, d, p)
}

impl Path {
    /// The boundary of a stroke of width `2 * distance` centred on the
    /// path.  For an open path the forward offset and the offset of
    /// the reversed path are joined end to end with `cap` geometry
    /// into one closed path whose every anchor is an offset anchor of
    /// the path, of its reversal, or a cap point; the second result is
    /// absent.  For a closed path the outer and inner boundary are
    /// returned as two independent closed paths, anchored by the
    /// path's and the reversal's offset anchors respectively.  A path
    /// without segments is returned unchanged with no second path.
    /// The one failure is a vanishing first derivative on the path or
    /// on its reversal, reported as `DegenerateGeometry`.
    pub fn outline(&self, distance: i64, join: Join, cap: bezrsCapType)
        -> (r: Result<(Path, Option<Path>), PathError>)
        requires
            self.wf(),
            geom_bounded(self),
            self.handles_view().len() <= OFFSET_MAX_INPUT,
            0 <= distance <= 536870912,
        ensures
            match r {
                Ok((p1, p2)) => {
                    &&& p1.wf()
                    &&& (self.seg_count_spec() == 0 ==> {
                        &&& p1.handles_view() == self.handles_view()
                        &&& !p1.closed_view()
                        &&& p2 is None
                    })
                    &&& (self.seg_count_spec() > 0 && !self.closed_view() ==> {
                        &&& p1.closed_view()
                        &&& p2 is None
                        &&& forall|i: int|
                            0 <= i < p1.handles_view().len() ==> stroke_anchor(
                                self, distance as int,
                                (#[trigger] p1.handles_view()[i]).anchor)
                    })
                    &&& (self.closed_view() ==> {
                        &&& p1.closed_view()
                        &&& forall|i: int|
                            0 <= i < p1.handles_view().len() ==> offset_anchor(
                                self, distance as int,
                                (#[trigger] p1.handles_view()[i]).anchor)
                        &&& match p2 {
                            Some(q) => {
                                &&& q.wf()
                                &&& q.closed_view()
                                &&& exists|rv: Path|
                                    (#[trigger] rv.handles_view())
                                        == seq_reversed(self.handles_view())
                                        && rv.closed_view() == self.closed_view()
                                        && forall|i: int|
                                            0 <= i < q.handles_view().len()
                                                ==> offset_anchor(&rv, distance as int,
                                                (#[trigger] q.handles_view()[i]).anchor)
                            },
                            None => false,
                        }
                    })
                },
                Err(e) => {
                    &&& e == PathError::DegenerateGeometry
                    &&& (has_degenerate_sample(self) || reversed_has_degenerate_sample(self))
                },
            },
            (!has_degenerate_sample(self) && !reversed_has_degenerate_sample(self))
                ==> r is Ok,
    {
        let n = self.segment_count();
        if n == 0 {
            let q = Path::create(self.handles(), false);
            return Ok((q, None));
        }
        let fwd = match self.offset(distance, join) {
            Ok(p) => p,
            Err(e) => {
                return Err(e);
            },
        };
        let mut revp = Path::create(self.handles(), self.is_closed());
        revp.reverse();
        proof {
            let rs = seq_reversed(self.handles_view());
            assert forall|i: int| 0 <= i < rs.len() implies {
                let h = #[trigger] rs[i];
                &&& -GEOM_LIMIT <= h.anchor.x <= GEOM_LIMIT
                &&& -GEOM_LIMIT <= h.anchor.y <= GEOM_LIMIT
                &&& -GEOM_LIMIT <= h.ctrl_in.x <= GEOM_LIMIT
                &&& -GEOM_LIMIT <= h.ctrl_in.y <= GEOM_LIMIT
                &&& -GEOM_LIMIT <= h.ctrl_out.x <= GEOM_LIMIT
                &&& -GEOM_LIMIT <= h.ctrl_out.y <= GEOM_LIMIT
            } by {
                assert(self.handles_view()[rs.len() - 1 - i]
                    == self.handles_view()[self.handles_view().len() - 1 - i]);
            }
            assert(geom_bounded(&revp));
        }
        let back = match revp.offset(distance, join) {
            Ok(p) => p,
            Err(e) => {
                proof {
                    assert(reversed_has_degenerate_sample(self)) by {
                        assert(revp.handles_view() == seq_reversed(self.handles_view())
                            && revp.closed_view() == self.closed_view()
                            && has_degenerate_sample(&revp));
                    }
                }
                return Err(e);
            },
        };
        if self.is_closed() {
            proof {
                assert(revp.handles_view() == seq_reversed(self.handles_view()));
            }
            return Ok((fwd, Some(back)));
        }
        // open path: stitch the two offsets into one closed boundary
        let fwd_handles = fwd.handles();
        let back_handles = back.handles();
        let mut out: Vec<Handle> = Vec::new();
        let mut k: usize = 0;
        while k < fwd_handles.len()
            invariant
                0 <= k <= fwd_handles@.len(),
                out@.len() == k,
                forall|i: int| 0 <= i < fwd_handles@.len()
                    ==> (#[trigger] fwd_handles@[i]).in_bounds(),
                forall|i: int| 0 <= i < fwd_handles@.len() ==> offset_anchor(
                    self, distance as int, (#[trigger] fwd_handles@[i]).anchor),
                forall|i: int| 0 <= i < out@.len() ==> (#[trigger] out@[i]).in_bounds(),
                forall|i: int| 0 <= i < out@.len() ==> stroke_anchor(
                    self, distance as int, (#[trigger] out@[i]).anchor),
            decreases fwd_handles@.len() - k,
        {
            out.push(fwd_handles[k]);
            k += 1;
        }
        // cap at the path end, between the forward offset's tail and
        // the backward offset's head
        let te = match crate::offset::robust_dir(self, n - 1, T_ONE) {
            Ok(v) => v,
            Err(e) => {
                return Err(e);
            },
        };
        let ts = match crate::offset::robust_dir(self, 0, 0) {
            Ok(v) => v,
            Err(e) => {
                return Err(e);
            },
        };
        proof {
            let tpe = choose|tp: int|
                0 <= tp <= T_ONE && abs_i(T_ONE as int - tp) <= 32
                    && (#[trigger] crate::eval::spec_deriv_local(self, n as int - 1, tp))
                        != (0int, 0int)
                    && (te.x as int, te.y as int) == crate::eval::spec_unit(
                        crate::eval::spec_deriv_local(self, n as int - 1, tp).0,
                        crate::eval::spec_deriv_local(self, n as int - 1, tp).1);
            assert(is_unit_dir(self, te.x as int, te.y as int));
            let tps = choose|tp: int|
                0 <= tp <= T_ONE && abs_i(0 - tp) <= 32
                    && (#[trigger] crate::eval::spec_deriv_local(self, 0, tp))
                        != (0int, 0int)
                    && (ts.x as int, ts.y as int) == crate::eval::spec_unit(
                        crate::eval::spec_deriv_local(self, 0, tp).0,
                        crate::eval::spec_deriv_local(self, 0, tp).1);
            assert(is_unit_dir(self, ts.x as int, ts.y as int));
        }
        let pe = self.position_local(n - 1, T_ONE);
        let ps = self.position_local(0, 0);
        proof {
            crate::offset::lemma_position_in_geom(self, n as int - 1, T_ONE as int);
            crate::offset::lemma_position_in_geom(self, 0, 0);
            assert(on_path(self, pe) && on_path(self, ps)) by {
                assert((pe.x as int, pe.y as int)
                    == spec_position_local(self, n as int - 1, T_ONE as int));
                assert((ps.x as int, ps.y as int) == spec_position_local(self, 0, 0));
            }
        }
        let ne = Point { x: -te.y, y: te.x };
        let nts = Point { x: -ts.x, y: -ts.y };
        let nsd = Point { x: -ts.y, y: ts.x };
        match cap {
            bezrsCapType::Butt => {},
            bezrsCapType::Square => {
                // the offset extended past the endpoint on both sides
                let b1 = crate::offset::displace(pe, distance, ne);
                let e1 = crate::offset::displace(b1, distance, te);
                let b2 = crate::offset::displace(pe, -distance, ne);
                let e2 = crate::offset::displace(b2, distance, te);
                proof {
                    lemma_end_cap_bases(self, distance, n, te, pe, b1, b2);
                    assert(cap_anchor(self, distance as int, e1)) by {
                        assert((e1.x as int, e1.y as int) == spec_displace(
                            b1.x as int, b1.y as int, distance as int,
                            te.x as int, te.y as int));
                    }
                    assert(cap_anchor(self, distance as int, e2)) by {
                        assert((e2.x as int, e2.y as int) == spec_displace(
                            b2.x as int, b2.y as int, distance as int,
                            te.x as int, te.y as int));
                    }
                }
                out.push(Handle { anchor: e1, ctrl_in: e1, ctrl_out: e1 });
                out.push(Handle { anchor: e2, ctrl_in: e2, ctrl_out: e2 });
            },
            bezrsCapType::Round => {
                // the arc's far point, past the endpoint on the axis
                let ce = crate::offset::displace(pe, distance, te);
                proof {
                    assert(cap_base(self, distance as int, pe.x as int, pe.y as int)) by {
                        assert(Point { x: (pe.x as int) as i64, y: (pe.y as int) as i64 }
                            == pe);
                    }
                    assert(cap_anchor(self, distance as int, ce)) by {
                        assert((ce.x as int, ce.y as int) == spec_displace(
                            pe.x as int, pe.y as int, distance as int,
                            te.x as int, te.y as int));
                    }
                }
                out.push(Handle { anchor: ce, ctrl_in: ce, ctrl_out: ce });
            },
        }
        let mut k2: usize = 0;
        while k2 < back_handles.len()
            invariant
                0 <= k2 <= back_handles@.len(),
                out@.len() <= fwd_handles@.len() + 2 + k2,
                out@.len() >= fwd_handles@.len() + k2,
                revp.handles_view() == seq_reversed(self.handles_view()),
                revp.closed_view() == self.closed_view(),
                forall|i: int| 0 <= i < back_handles@.len()
                    ==> (#[trigger] back_handles@[i]).in_bounds(),
                forall|i: int| 0 <= i < back_handles@.len() ==> offset_anchor(
                    &revp, distance as int, (#[trigger] back_handles@[i]).anchor),
                forall|i: int| 0 <= i < out@.len() ==> (#[trigger] out@[i]).in_bounds(),
                forall|i: int| 0 <= i < out@.len() ==> stroke_anchor(
                    self, distance as int, (#[trigger] out@[i]).anchor),
            decreases back_handles@.len() - k2,
        {
            proof {
                assert(stroke_anchor(self, distance as int,
                    back_handles@[k2 as int].anchor)) by {
                    assert(revp.handles_view() == seq_reversed(self.handles_view())
                        && revp.closed_view() == self.closed_view()
                        && offset_anchor(&revp, distance as int,
                            back_handles@[k2 as int].anchor));
                }
            }
            out.push(back_handles[k2]);
            k2 += 1;
        }
        // cap at the path start, between the backward offset's tail
        // and the forward offset's head
        match cap {
            bezrsCapType::Butt => {},
            bezrsCapType::Square => {
                let b3 = crate::offset::displace(ps, -distance, nsd);
                let e3 = crate::offset::displace(b3, distance, nts);
                let b4 = crate::offset::displace(ps, distance, nsd);
                let e4 = crate::offset::displace(b4, distance, nts);
                proof {
                    lemma_start_cap_bases(self, distance, ts, ps, b3, b4);
                    assert(is_unit_dir(self, -(nts.x as int), -(nts.y as int)));
                    assert(cap_anchor(self, distance as int, e3)) by {
                        assert((e3.x as int, e3.y as int) == spec_displace(
                            b3.x as int, b3.y as int, distance as int,
                            nts.x as int, nts.y as int));
                    }
                    assert(cap_anchor(self, distance as int, e4)) by {
                        assert((e4.x as int, e4.y as int) == spec_displace(
                            b4.x as int, b4.y as int, distance as int,
                            nts.x as int, nts.y as int));
                    }
                }
                out.push(Handle { anchor: e3, ctrl_in: e3, ctrl_out: e3 });
                out.push(Handle { anchor: e4, ctrl_in: e4, ctrl_out: e4 });
            },
            bezrsCapType::Round => {
                let cs = crate::offset::displace(ps, distance, nts);
                proof {
                    assert(cap_base(self, distance as int, ps.x as int, ps.y as int)) by {
                        assert(Point { x: (ps.x as int) as i64, y: (ps.y as int) as i64 }
                            == ps);
                    }
                    assert(is_unit_dir(self, -(nts.x as int), -(nts.y as int)));
                    assert(cap_anchor(self, distance as int, cs)) by {
                        assert((cs.x as int, cs.y as int) == spec_displace(
                            ps.x as int, ps.y as int, distance as int,
                            nts.x as int, nts.y as int));
                    }
                }
                out.push(Handle { anchor: cs, ctrl_in: cs, ctrl_out: cs });
            },
        }
        let q = Path::create(out, true);
        Ok((q, None))
    }
}

/// The two sideways-displaced end-cap bases at the path's tail are
/// displaced boundary samples.
proof fn lemma_end_cap_bases(
    path: &Path, distance: i64, n: usize, te: Point, pe: Point, b1: Point, b2: Point,
)
    requires
        path.wf(),
        n == path.seg_count_spec(),
        n >= 1,
        is_unit_dir(path, te.x as int, te.y as int),
        exists|tp: int|
            0 <= tp <= T_ONE && abs_i(T_ONE as int - tp) <= 32
                && (#[trigger] crate::eval::spec_deriv_local(path, n as int - 1, tp))
                    != (0int, 0int)
                && (te.x as int, te.y as int) == crate::eval::spec_unit(
                    crate::eval::spec_deriv_local(path, n as int - 1, tp).0,
                    crate::eval::spec_deriv_local(path, n as int - 1, tp).1),
        (pe.x as int, pe.y as int) == spec_position_local(path, n as int - 1, T_ONE as int),
        (b1.x as int, b1.y as int) == spec_displace(
            pe.x as int, pe.y as int, distance as int, -(te.y as int), te.x as int),
        (b2.x as int, b2.y as int) == spec_displace(
            pe.x as int, pe.y as int, -(distance as int), -(te.y as int), te.x as int),
    ensures
        cap_base(path, distance as int, b1.x as int, b1.y as int),
        cap_base(path, distance as int, b2.x as int, b2.y as int),
{
    let tp = choose|tp: int|
        0 <= tp <= T_ONE && abs_i(T_ONE as int - tp) <= 32
            && (#[trigger] crate::eval::spec_deriv_local(path, n as int - 1, tp))
                != (0int, 0int)
            && (te.x as int, te.y as int) == crate::eval::spec_unit(
                crate::eval::spec_deriv_local(path, n as int - 1, tp).0,
                crate::eval::spec_deriv_local(path, n as int - 1, tp).1);
    let u = crate::eval::spec_unit(
        crate::eval::spec_deriv_local(path, n as int - 1, tp).0,
        crate::eval::spec_deriv_local(path, n as int - 1, tp).1);
    assert(Point { x: (b1.x as int) as i64, y: (b1.y as int) as i64 } == b1);
    assert(Point { x: (b2.x as int) as i64, y: (b2.y as int) as i64 } == b2);
    assert(displaced_anchor(path, distance as int, b1)) by {
        assert((b1.x as int, b1.y as int) == spec_displace(
            spec_position_local(path, n as int - 1, T_ONE as int).0,
            spec_position_local(path, n as int - 1, T_ONE as int).1,
            distance as int, -u.1, u.0));
    }
    assert(displaced_anchor(path, -(distance as int), b2)) by {
        assert((b2.x as int, b2.y as int) == spec_displace(
            spec_position_local(path, n as int - 1, T_ONE as int).0,
            spec_position_local(path, n as int - 1, T_ONE as int).1,
            -(distance as int), -u.1, u.0));
    }
}

/// The two sideways-displaced start-cap bases at the path's head are
/// displaced boundary samples.
proof fn lemma_start_cap_bases(
    path: &Path, distance: i64, ts: Point, ps: Point, b3: Point, b4: Point,
)
    requires
        path.wf(),
        path.seg_count_spec() >= 1,
        exists|tp: int|
            0 <= tp <= T_ONE && abs_i(0 - tp) <= 32
                && (#[trigger] crate::eval::spec_deriv_local(path, 0, tp)) != (0int, 0int)
                && (ts.x as int, ts.y as int) == crate::eval::spec_unit(
                    crate::eval::spec_deriv_local(path, 0, tp).0,
                    crate::eval::spec_deriv_local(path, 0, tp).1),
        (ps.x as int, ps.y as int) == spec_position_local(path, 0, 0),
        (b3.x as int, b3.y as int) == spec_displace(
            ps.x as int, ps.y as int, -(distance as int), -(ts.y as int), ts.x as int),
        (b4.x as int, b4.y as int) == spec_displace(
            ps.x as int, ps.y as int, distance as int, -(ts.y as int), ts.x as int),
    ensures
        cap_base(path, distance as int, b3.x as int, b3.y as int),
        cap_base(path, distance as int, b4.x as int, b4.y as int),
{
    let tp = choose|tp: int|
        0 <= tp <= T_ONE && abs_i(0 - tp) <= 32
            && (#[trigger] crate::eval::spec_deriv_local(path, 0, tp)) != (0int, 0int)
            && (ts.x as int, ts.y as int) == crate::eval::spec_unit(
                crate::eval::spec_deriv_local(path, 0, tp).0,
                crate::eval::spec_deriv_local(path, 0, tp).1);
    let u = crate::eval::spec_unit(
        crate::eval::spec_deriv_local(path, 0, tp).0,
        crate::eval::spec_deriv_local(path, 0, tp).1);
    assert(Point { x: (b3.x as int) as i64, y: (b3.y as int) as i64 } == b3);
    assert(Point { x: (b4.x as int) as i64, y: (b4.y as int) as i64 } == b4);
    assert(displaced_anchor(path, -(distance as int), b3)) by {
        assert((b3.x as int, b3.y as int) == spec_displace(
            spec_position_local(path, 0, 0).0, spec_position_local(path, 0, 0).1,
            -(distance as int), -u.1, u.0));
    }
    assert(displaced_anchor(path, distance as int, b4)) by {
        assert((b4.x as int, b4.y as int) == spec_displace(
            spec_position_local(path, 0, 0).0, spec_position_local(path, 0, 0).1,
            distance as int, -u.1, u.0));
    }
}

} // verus!

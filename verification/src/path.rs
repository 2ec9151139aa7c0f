//! The path data model: points, handles, open/closed paths, and the
//! structural edits (create, insert, append, reverse) together with
//! their invariants.

use vstd::prelude::*;
use crate::num::COORD_LIMIT;

verus! {

/// Largest number of handles a well-formed path may hold; keeps every
/// derived index computation far from overflow.
pub const MAX_HANDLES: usize = 268435456;

/// A point in the plane, in fixed-point integer coordinates.
#[derive(Clone, Copy, Debug, PartialEq, Eq, Structural)]
pub struct Point {
    pub x: i64,
    pub y: i64,
}

impl Point {
    /// Both coordinates within the engine's coordinate limit.
    pub open spec fn in_bounds(self) -> bool {
        &&& -COORD_LIMIT <= self.x <= COORD_LIMIT
        &&& -COORD_LIMIT <= self.y <= COORD_LIMIT
    }

    pub fn new(x: i64, y: i64) -> (p: Point)
        ensures
            p == (Point { x, y }),
    {
        Point { x, y }
    }
}

/// One control unit of a path: an anchor plus the two absolute control
/// points of the adjacent segments.  A handle whose control points both
/// equal its anchor behaves as a sharp corner.
#[derive(Clone, Copy, Debug, PartialEq, Eq, Structural)]
pub struct Handle {
    /// The on-path anchor point.
    pub anchor: Point,
    /// Absolute control point of the incoming segment.
    pub ctrl_in: Point,
    /// Absolute control point of the outgoing segment.
    pub ctrl_out: Point,
}

impl Handle {
    pub open spec fn in_bounds(self) -> bool {
        self.anchor.in_bounds() && self.ctrl_in.in_bounds() && self.ctrl_out.in_bounds()
    }

    /// A corner handle: both control points at the anchor.
    pub fn corner(anchor: Point) -> (h: Handle)
        ensures
            h == (Handle { anchor, ctrl_in: anchor, ctrl_out: anchor }),
    {
        Handle { anchor, ctrl_in: anchor, ctrl_out: anchor }
    }

    pub fn new(anchor: Point, ctrl_in: Point, ctrl_out: Point) -> (h: Handle)
        ensures
            h == (Handle { anchor, ctrl_in, ctrl_out }),
    {
        Handle { anchor, ctrl_in, ctrl_out }
    }
}

/// A handle as it appears when the path is traced in the opposite
/// direction: the incoming and outgoing control points trade places.
pub open spec fn rev_handle(h: Handle) -> Handle {
    Handle { anchor: h.anchor, ctrl_in: h.ctrl_out, ctrl_out: h.ctrl_in }
}

/// A handle sequence traced in the opposite direction: order reversed
/// and every handle's control points swapped.
pub open spec fn seq_reversed(s: Seq<Handle>) -> Seq<Handle> {
    Seq::new(s.len(), |i: int| rev_handle(s[s.len() - 1 - i]))
}

/// Reversing a handle sequence twice restores it exactly: order and
/// control offsets both come back.
pub proof fn lemma_reverse_reverse(s: Seq<Handle>)
    ensures
        seq_reversed(seq_reversed(s)) == s,
{
    let r = seq_reversed(seq_reversed(s));
    assert forall|i: int| 0 <= i < s.len() implies r[i] == s[i] by {
        assert(seq_reversed(s)[s.len() - 1 - i] == rev_handle(s[i]));
    }
    assert(r =~= s);
}

/// The error kinds of the engine.
#[derive(Clone, Copy, Debug, PartialEq, Eq, Structural)]
pub enum PathError {
    /// An index out of range or a malformed input value.
    InvalidArgument,
    /// Geometry on which the requested quantity is undefined, such as a
    /// zero-length tangent.
    DegenerateGeometry,
    /// A bounded numerical solver exhausted its budget without meeting
    /// its tolerance.  The engine's own solvers return their best
    /// bounded candidate instead of failing, so none of them produces
    /// this kind today; it belongs to the error taxonomy for callers
    /// and stricter solvers.
    NumericDivergence,
    /// An operation on a destroyed or absent reference; raised only by
    /// boundary layers that manage references, never by the engine.
    InvalidHandleUse,
}

/// An ordered sequence of handles plus a closed/open flag.  Segment
/// `i` is the cubic between handle `i` and handle `i + 1` (wrapping to
/// handle `0` when closed).
#[derive(Clone, Debug, PartialEq, Eq)]
pub struct Path {
    handles: Vec<Handle>,
    closed: bool,
}

impl Path {
    /// The handle sequence.
    pub closed spec fn handles_view(&self) -> Seq<Handle> {
        self.handles@
    }

    /// The closed/open flag.
    pub closed spec fn closed_view(&self) -> bool {
        self.closed
    }

    /// Well-formedness: a closed path holds at least two handles, the
    /// handle count is capped, and every coordinate is in bounds.
    pub open spec fn wf(&self) -> bool {
        &&& (self.closed_view() ==> self.handles_view().len() >= 2)
        &&& self.handles_view().len() <= MAX_HANDLES
        &&& forall|i: int|
            0 <= i < self.handles_view().len() ==> (#[trigger] self.handles_view()[i]).in_bounds()
    }

    /// Number of cubic segments the path is made of.
    pub open spec fn seg_count_spec(&self) -> int {
        if self.closed_view() {
            self.handles_view().len() as int
        } else if self.handles_view().len() == 0 {
            0
        } else {
            self.handles_view().len() - 1
        }
    }

    /// Builds a path from a handle list.  Honouring `closed` needs at
    /// least two handles; with fewer the path is coerced to open, which
    /// callers can observe through `is_closed`.
    pub fn create(handles: Vec<Handle>, closed: bool) -> (p: Path)
        requires
            handles@.len() <= MAX_HANDLES,
            forall|i: int| 0 <= i < handles@.len() ==> (#[trigger] handles@[i]).in_bounds(),
        ensures
            p.handles_view() == handles@,
            p.closed_view() == (closed && handles@.len() >= 2),
            p.wf(),
    {
        let coerced = closed && handles.len() >= 2;
        Path { handles, closed: coerced }
    }

    /// Whether every handle of `handles` is within the coordinate
    /// limit; the executable gate for `create`'s precondition.
    pub fn handles_in_limits(handles: &Vec<Handle>) -> (b: bool)
        ensures
            b == forall|i: int|
                0 <= i < handles@.len() ==> (#[trigger] handles@[i]).in_bounds(),
    {
        let mut k: usize = 0;
        while k < handles.len()
            invariant
                0 <= k <= handles@.len(),
                forall|i: int| 0 <= i < k ==> (#[trigger] handles@[i]).in_bounds(),
            decreases handles@.len() - k,
        {
            let h = handles[k];
            if !(-COORD_LIMIT <= h.anchor.x && h.anchor.x <= COORD_LIMIT
                && -COORD_LIMIT <= h.anchor.y && h.anchor.y <= COORD_LIMIT
                && -COORD_LIMIT <= h.ctrl_in.x && h.ctrl_in.x <= COORD_LIMIT
                && -COORD_LIMIT <= h.ctrl_in.y && h.ctrl_in.y <= COORD_LIMIT
                && -COORD_LIMIT <= h.ctrl_out.x && h.ctrl_out.x <= COORD_LIMIT
                && -COORD_LIMIT <= h.ctrl_out.y && h.ctrl_out.y <= COORD_LIMIT)
            {
                assert(!handles@[k as int].in_bounds());
                return false;
            }
            assert(handles@[k as int].in_bounds());
            k += 1;
        }
        true
    }

    /// A copy of the handle list, owned by the caller.
    pub fn handles(&self) -> (v: Vec<Handle>)
        ensures
            v@ == self.handles_view(),
    {
        let mut v: Vec<Handle> = Vec::new();
        let mut k: usize = 0;
        while k < self.handles.len()
            invariant
                0 <= k <= self.handles@.len(),
                v@ == self.handles@.subrange(0, k as int),
            decreases self.handles@.len() - k,
        {
            v.push(self.handles[k]);
            proof {
                assert(v@ =~= self.handles@.subrange(0, k + 1));
            }
            k += 1;
        }
        proof {
            assert(v@ =~= self.handles@);
        }
        v
    }

    /// The handle at index `i`.
    pub fn handle_at(&self, i: usize) -> (h: Handle)
        requires
            i < self.handles_view().len(),
        ensures
            h == self.handles_view()[i as int],
    {
        self.handles[i]
    }

    /// Number of handles.
    pub fn len(&self) -> (n: usize)
        ensures
            n == self.handles_view().len(),
    {
        self.handles.len()
    }

    pub fn is_closed(&self) -> (b: bool)
        ensures
            b == self.closed_view(),
    {
        self.closed
    }

    /// Segment count: one less than the handle count for an open path,
    /// equal to it for a closed one, zero when no segment exists.
    pub fn segment_count(&self) -> (n: usize)
        ensures
            n == self.seg_count_spec(),
    {
        if self.closed {
            self.handles.len()
        } else if self.handles.len() == 0 {
            0
        } else {
            self.handles.len() - 1
        }
    }

    /// Inserts a handle at `index`, in `[0, len]`; `len` appends.  An
    /// out-of-range index or an out-of-bounds handle is rejected as
    /// `InvalidArgument` and leaves the path unchanged.
    pub fn insert(&mut self, index: usize, h: Handle) -> (r: Result<(), PathError>)
        requires
            old(self).wf(),
        ensures
            final(self).wf(),
            match r {
                Ok(()) => {
                    &&& index <= old(self).handles_view().len()
                    &&& h.in_bounds()
                    &&& old(self).handles_view().len() < MAX_HANDLES
                    &&& final(self).handles_view() == old(self).handles_view().insert(index as int, h)
                    &&& final(self).closed_view() == old(self).closed_view()
                },
                Err(e) => {
                    &&& e == PathError::InvalidArgument
                    &&& (index > old(self).handles_view().len() || !h.in_bounds()
                        || old(self).handles_view().len() >= MAX_HANDLES)
                    &&& *final(self) == *old(self)
                },
            },
    {
        if index > self.handles.len() || self.handles.len() >= MAX_HANDLES {
            return Err(PathError::InvalidArgument);
        }
        if !(-COORD_LIMIT <= h.anchor.x && h.anchor.x <= COORD_LIMIT
            && -COORD_LIMIT <= h.anchor.y && h.anchor.y <= COORD_LIMIT
            && -COORD_LIMIT <= h.ctrl_in.x && h.ctrl_in.x <= COORD_LIMIT
            && -COORD_LIMIT <= h.ctrl_in.y && h.ctrl_in.y <= COORD_LIMIT
            && -COORD_LIMIT <= h.ctrl_out.x && h.ctrl_out.x <= COORD_LIMIT
            && -COORD_LIMIT <= h.ctrl_out.y && h.ctrl_out.y <= COORD_LIMIT)
        {
            return Err(PathError::InvalidArgument);
        }
        self.handles.insert(index, h);
        Ok(())
    }

    /// Appends a handle; `insert` at the end.
    pub fn append(&mut self, h: Handle) -> (r: Result<(), PathError>)
        requires
            old(self).wf(),
        ensures
            final(self).wf(),
            match r {
                Ok(()) => {
                    &&& h.in_bounds()
                    &&& old(self).handles_view().len() < MAX_HANDLES
                    &&& final(self).handles_view() == old(self).handles_view().push(h)
                    &&& final(self).closed_view() == old(self).closed_view()
                },
                Err(e) => {
                    &&& e == PathError::InvalidArgument
                    &&& (!h.in_bounds() || old(self).handles_view().len() >= MAX_HANDLES)
                    &&& *final(self) == *old(self)
                },
            },
    {
        let n = self.handles.len();
        let r = self.insert(n, h);
        proof {
            if r is Ok {
                assert(old(self).handles_view().insert(old(self).handles_view().len() as int, h)
                    =~= old(self).handles_view().push(h));
            }
        }
        r
    }

    /// Reverses the path: handle order flips and every handle's control
    /// points trade places, so the same geometry is traced in the
    /// opposite direction.  Applying it twice restores the path (see
    /// `lemma_reverse_reverse`).
    pub fn reverse(&mut self)
        requires
            old(self).wf(),
        ensures
            final(self).wf(),
            final(self).handles_view() == seq_reversed(old(self).handles_view()),
            final(self).closed_view() == old(self).closed_view(),
    {
        let ghost s = self.handles@;
        let n = self.handles.len();
        let mut out: Vec<Handle> = Vec::new();
        let mut k: usize = 0;
        while k < n
            invariant
                0 <= k <= n,
                n == s.len(),
                self.handles@ == s,
                out@.len() == k,
                forall|j: int| 0 <= j < k ==> out@[j] == rev_handle(s[s.len() - 1 - j]),
            decreases n - k,
        {
            let h = self.handles[n - 1 - k];
            out.push(Handle { anchor: h.anchor, ctrl_in: h.ctrl_out, ctrl_out: h.ctrl_in });
            k += 1;
        }
        self.handles = out;
        proof {
            assert(self.handles@ =~= seq_reversed(s));
        }
    }
}

} // verus!

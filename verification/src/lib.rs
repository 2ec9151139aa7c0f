//! A 2D vector path geometry engine over cubic Bezier segments.
//!
//! Paths are ordered sequences of handles (an anchor plus two absolute
//! control points), open or closed.  All geometry is carried out in
//! fixed-point integer arithmetic: coordinates are plain `i64` values in
//! whatever unit the caller chooses, and parametric positions are `i64`
//! values in `[0, T_ONE]` standing for the real interval `[0, 1]`.
//! Every operation is deterministic, free of I/O, and bounded: all
//! iterative solvers carry an explicit iteration or depth cap.

pub mod num;
pub mod path;
pub mod eval;
pub mod bounds;
pub mod offset;
pub mod outline;
pub mod intersect;

pub use num::{T_ONE, COORD_LIMIT, GEOM_LIMIT};
pub use path::{Point, Handle, Path, PathError, MAX_HANDLES};
pub use bounds::Rect;
pub use offset::{bezrsJoinType, bezrsCapType, Join, parse_join};

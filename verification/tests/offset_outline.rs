use bezrs::{bezrsCapType, bezrsJoinType, parse_join, Handle, Join, Path, Point, T_ONE};

const S: i64 = 65536;

fn pt(x: i64, y: i64) -> Point {
    Point { x, y }
}

fn corner(x: i64, y: i64) -> Handle {
    let a = pt(x, y);
    Handle { anchor: a, ctrl_in: a, ctrl_out: a }
}

fn ccw_square() -> Path {
    Path::create(
        vec![
            corner(0, 0),
            corner(10 * S, 0),
            corner(10 * S, 10 * S),
            corner(0, 10 * S),
        ],
        true,
    )
}

#[test]
fn parse_join_maps_tags() {
    assert_eq!(parse_join(bezrsJoinType::Bevel, Some(3)), Join::Bevel);
    assert_eq!(parse_join(bezrsJoinType::Round, None), Join::Round);
    assert_eq!(parse_join(bezrsJoinType::Mitter, Some(4 * S)), Join::Miter(4 * S));
    assert_eq!(parse_join(bezrsJoinType::Mitter, None), Join::Miter(0));
}

#[test]
fn offset_by_zero_reproduces_a_line() {
    let p = Path::create(
        vec![
            Handle { anchor: pt(0, 0), ctrl_in: pt(0, 0), ctrl_out: pt(3 * S, 0) },
            Handle { anchor: pt(10 * S, 0), ctrl_in: pt(7 * S, 0), ctrl_out: pt(10 * S, 0) },
        ],
        false,
    );
    let q = p.offset(0, Join::Bevel).unwrap();
    let h = q.handles();
    assert!(h.len() >= 2);
    // every produced handle still lies on the original line
    for hh in h.iter() {
        assert_eq!(hh.anchor.y, 0);
        assert!(0 <= hh.anchor.x && hh.anchor.x <= 10 * S);
        assert_eq!(hh.ctrl_in.y, 0);
        assert_eq!(hh.ctrl_out.y, 0);
    }
    assert_eq!(h[0].anchor, pt(0, 0));
    assert_eq!(h[h.len() - 1].anchor, pt(10 * S, 0));
    assert!(!q.is_closed());
}

#[test]
fn offset_by_zero_stays_on_a_curve() {
    let k = 361966;
    let p = Path::create(
        vec![
            Handle { anchor: pt(10 * S, 0), ctrl_in: pt(10 * S, -k), ctrl_out: pt(10 * S, k) },
            Handle { anchor: pt(0, 10 * S), ctrl_in: pt(k, 10 * S), ctrl_out: pt(-k, 10 * S) },
        ],
        false,
    );
    let q = p.offset(0, Join::Round).unwrap();
    // each produced anchor projects back onto the original arc with a
    // tiny residual
    for hh in q.handles().iter() {
        let (_t, best) = p.project_point(hh.anchor).unwrap();
        let dx = (best.x - hh.anchor.x) as i128;
        let dy = (best.y - hh.anchor.y) as i128;
        assert!(dx * dx + dy * dy <= 64 * 64);
    }
}

#[test]
fn square_offset_inward_shrinks_bounding_box() {
    let p = ccw_square();
    let d = S;  // one unit inward (positive distance, counterclockwise winding)
    let q = p.offset(d, Join::Bevel).unwrap();
    assert!(q.is_closed());
    let bb = q.bounding_box();
    let tol = 256;
    assert!((bb.min.x - d).abs() <= tol);
    assert!((bb.min.y - d).abs() <= tol);
    assert!((bb.max.x - (10 * S - d)).abs() <= tol);
    assert!((bb.max.y - (10 * S - d)).abs() <= tol);
}

#[test]
fn square_offset_outward_grows_bounding_box() {
    let p = ccw_square();
    let d = -S;  // one unit outward
    let q = p.offset(d, Join::Miter(4 * S)).unwrap();
    assert!(q.is_closed());
    let bb = q.bounding_box();
    let tol = 256;
    assert!((bb.min.x + S).abs() <= tol);
    assert!((bb.min.y + S).abs() <= tol);
    assert!((bb.max.x - 11 * S).abs() <= tol);
    assert!((bb.max.y - 11 * S).abs() <= tol);
}

#[test]
fn offset_of_degenerate_path_reports_degenerate_geometry() {
    // two coincident handles: the derivative vanishes everywhere, so
    // no offset direction exists anywhere on the segment
    let p = Path::create(vec![corner(0, 0), corner(0, 0)], false);
    assert_eq!(p.offset(S, Join::Bevel).err(), Some(bezrs::PathError::DegenerateGeometry));
}

#[test]
fn corner_polyline_offsets_cleanly() {
    // sharp corners have a stationary parametrisation at the handle
    // itself, but the traced line has a clear direction beside it
    let p = Path::create(vec![corner(0, 0), corner(10 * S, 0)], false);
    let q = p.offset(S, Join::Bevel).unwrap();
    for hh in q.handles().iter() {
        assert_eq!(hh.anchor.y, S);
    }
}

#[test]
fn offset_of_segmentless_path_is_a_copy() {
    let p = Path::create(vec![corner(3 * S, 4 * S)], false);
    let q = p.offset(S, Join::Bevel).unwrap();
    assert_eq!(q.handles(), p.handles());
    assert!(!q.is_closed());
}

#[test]
fn outline_of_segmentless_path_is_a_copy_without_second() {
    let p = Path::create(vec![corner(3 * S, 4 * S)], false);
    let (q, second) = p.outline(S, Join::Bevel, bezrsCapType::Butt).unwrap();
    assert_eq!(q.handles(), p.handles());
    assert!(second.is_none());
}

#[test]
fn outline_of_open_path_is_one_closed_path() {
    let p = Path::create(
        vec![
            Handle { anchor: pt(0, 0), ctrl_in: pt(0, 0), ctrl_out: pt(3 * S, 0) },
            Handle { anchor: pt(10 * S, 0), ctrl_in: pt(7 * S, 0), ctrl_out: pt(10 * S, 0) },
        ],
        false,
    );
    let (boundary, second) = p.outline(S, Join::Bevel, bezrsCapType::Butt).unwrap();
    assert!(boundary.is_closed());
    assert!(second.is_none());
    // the stroke of a horizontal line spans one unit to each side
    let bb = boundary.bounding_box();
    let tol = 256;
    assert!((bb.min.y + S).abs() <= tol);
    assert!((bb.max.y - S).abs() <= tol);
}

#[test]
fn outline_of_closed_path_returns_two_paths() {
    let k = 361966;
    let circle = Path::create(
        vec![
            Handle { anchor: pt(10 * S, 0), ctrl_in: pt(10 * S, -k), ctrl_out: pt(10 * S, k) },
            Handle { anchor: pt(0, 10 * S), ctrl_in: pt(k, 10 * S), ctrl_out: pt(-k, 10 * S) },
            Handle { anchor: pt(-10 * S, 0), ctrl_in: pt(-10 * S, k), ctrl_out: pt(-10 * S, -k) },
            Handle { anchor: pt(0, -10 * S), ctrl_in: pt(-k, -10 * S), ctrl_out: pt(k, -10 * S) },
        ],
        true,
    );
    let (outer, inner) = circle.outline(S, Join::Round, bezrsCapType::Round).unwrap();
    assert!(outer.is_closed());
    let inner = inner.expect("a closed path outlines into two boundaries");
    assert!(inner.is_closed());
}

#[test]
fn square_cap_extends_past_the_ends() {
    let p = Path::create(
        vec![
            Handle { anchor: pt(0, 0), ctrl_in: pt(0, 0), ctrl_out: pt(3 * S, 0) },
            Handle { anchor: pt(10 * S, 0), ctrl_in: pt(7 * S, 0), ctrl_out: pt(10 * S, 0) },
        ],
        false,
    );
    let (boundary, _) = p.outline(S, Join::Bevel, bezrsCapType::Square).unwrap();
    let bb = boundary.bounding_box();
    let tol = 256;
    // extended by the stroke distance beyond both endpoints
    assert!((bb.min.x + S).abs() <= tol);
    assert!((bb.max.x - 11 * S).abs() <= tol);
}

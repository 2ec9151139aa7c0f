use bezrs::{Handle, Path, PathError, Point, T_ONE};

const S: i64 = 65536;

fn pt(x: i64, y: i64) -> Point {
    Point { x, y }
}

fn corner(x: i64, y: i64) -> Handle {
    let a = pt(x, y);
    Handle { anchor: a, ctrl_in: a, ctrl_out: a }
}

fn smooth(ax: i64, ay: i64, ix: i64, iy: i64, ox: i64, oy: i64) -> Handle {
    Handle { anchor: pt(ax, ay), ctrl_in: pt(ix, iy), ctrl_out: pt(ox, oy) }
}

fn line_path() -> Path {
    // a straight open path from the origin to (10, 0), collinear controls
    Path::create(
        vec![
            smooth(0, 0, 0, 0, 3 * S, 0),
            smooth(10 * S, 0, 7 * S, 0, 10 * S, 0),
        ],
        false,
    )
}

#[test]
fn position_zero_is_first_anchor() {
    let p = Path::create(
        vec![corner(3 * S, 4 * S), corner(10 * S, 0), corner(20 * S, 5 * S)],
        false,
    );
    assert_eq!(p.position(0), Ok(pt(3 * S, 4 * S)));
}

#[test]
fn position_one_is_last_anchor_when_open() {
    let p = Path::create(
        vec![corner(3 * S, 4 * S), corner(10 * S, 0), corner(20 * S, 5 * S)],
        false,
    );
    assert_eq!(p.position(T_ONE), Ok(pt(20 * S, 5 * S)));
}

#[test]
fn position_one_wraps_to_start_when_closed() {
    let p = Path::create(
        vec![corner(0, 0), corner(10 * S, 0), corner(10 * S, 10 * S), corner(0, 10 * S)],
        true,
    );
    assert_eq!(p.position(T_ONE), p.position(0));
    assert_eq!(p.position(0), Ok(pt(0, 0)));
}

#[test]
fn straight_path_midpoint() {
    let p = Path::create(vec![corner(0, 0), corner(10 * S, 0)], false);
    assert_eq!(p.position(T_ONE / 2), Ok(pt(5 * S, 0)));
}

#[test]
fn straight_path_curvature_is_zero() {
    let p = Path::create(vec![corner(0, 0), corner(10 * S, 0)], false);
    // interior parameters: the degenerate cubic still traces the line
    assert_eq!(p.curvature(T_ONE / 4), Ok(0));
    assert_eq!(p.curvature(T_ONE / 2), Ok(0));
    assert_eq!(p.curvature(3 * (T_ONE / 4)), Ok(0));
    // at the very end the parametrisation's derivative vanishes
    assert_eq!(p.curvature(0), Err(PathError::DegenerateGeometry));
}

#[test]
fn position_on_empty_path_is_degenerate() {
    let p = Path::create(vec![], false);
    assert_eq!(p.position(0), Err(PathError::DegenerateGeometry));
    assert_eq!(p.tangent(0), Err(PathError::DegenerateGeometry));
    assert_eq!(p.curvature(0), Err(PathError::DegenerateGeometry));
}

#[test]
fn tangent_and_normal_on_a_line() {
    let p = line_path();
    // unit tangent points along +x at full parameter scale
    assert_eq!(p.tangent(T_ONE / 2), Ok(pt(T_ONE, 0)));
    // the normal is the tangent turned a quarter turn counterclockwise
    assert_eq!(p.normal(T_ONE / 2), Ok(pt(0, T_ONE)));
}

#[test]
fn tangent_of_collapsed_corner_is_degenerate() {
    let p = Path::create(vec![corner(0, 0), corner(10 * S, 0)], false);
    assert_eq!(p.tangent(0), Err(PathError::DegenerateGeometry));
}

#[test]
fn local_and_global_parameters_agree() {
    let p = Path::create(
        vec![corner(0, 0), corner(10 * S, 0), corner(10 * S, 10 * S)],
        false,
    );
    // global 0.5 over two segments lands on segment 1 at local 0
    assert_eq!(p.position(T_ONE / 2), Ok(p.position_local(1, 0)));
    assert_eq!(p.position_local(0, 0), pt(0, 0));
    assert_eq!(p.position_local(1, T_ONE), pt(10 * S, 10 * S));
}

#[test]
fn local_evaluators_match_global_ones() {
    let p = line_path();
    assert_eq!(p.tangent_local(0, T_ONE / 2), p.tangent(T_ONE / 2));
    assert_eq!(p.normal_local(0, T_ONE / 2), p.normal(T_ONE / 2));
    assert_eq!(p.curvature_local(0, T_ONE / 2), p.curvature(T_ONE / 2));
}

#[test]
fn global_parameter_inverts_the_segment_split() {
    let p = Path::create(
        vec![corner(0, 0), corner(10 * S, 0), corner(10 * S, 10 * S), corner(0, 10 * S)],
        true,
    );
    // four segments: segment boundaries map back to quarters
    assert_eq!(p.global_parameter(0, 0), 0);
    assert_eq!(p.global_parameter(1, 0), T_ONE / 4);
    assert_eq!(p.global_parameter(2, 0), T_ONE / 2);
    assert_eq!(p.global_parameter(3, T_ONE), T_ONE);
}

#[test]
fn curvature_of_a_bend_is_positive() {
    // a quarter-circle-like bend
    let k = 361966;
    let p = Path::create(
        vec![
            smooth(10 * S, 0, 10 * S, -k, 10 * S, k),
            smooth(0, 10 * S, k, 10 * S, -k, 10 * S),
        ],
        false,
    );
    let c = p.curvature(T_ONE / 2).unwrap();
    assert!(c > 0);
}

#[test]
fn quarter_turn_rotation_is_exact() {
    let p = Path::create(
        vec![corner(10 * S, 0), corner(0, 10 * S), corner(-10 * S, 0)],
        false,
    );
    // cosine 0, sine T_ONE: a quarter turn about the origin maps
    // (x, y) exactly to (-y, x)
    let q = p.rotate_fixed(0, T_ONE, pt(0, 0)).unwrap();
    let h = q.handles();
    assert_eq!(h[0].anchor, pt(0, 10 * S));
    assert_eq!(h[1].anchor, pt(-10 * S, 0));
    assert_eq!(h[2].anchor, pt(0, -10 * S));
    assert!(!q.is_closed());
}

#[test]
fn rotation_keeps_closed_flag_and_centre() {
    let sq = Path::create(
        vec![
            corner(2 * S, 2 * S),
            corner(4 * S, 2 * S),
            corner(4 * S, 4 * S),
            corner(2 * S, 4 * S),
        ],
        true,
    );
    // a half turn about the square's centre maps corners to corners
    let q = sq.rotate_fixed(-T_ONE, 0, pt(3 * S, 3 * S)).unwrap();
    let h = q.handles();
    assert_eq!(h[0].anchor, pt(4 * S, 4 * S));
    assert_eq!(h[2].anchor, pt(2 * S, 2 * S));
    assert!(q.is_closed());
}

use bezrs::{Handle, Path, PathError, Point, T_ONE};

const S: i64 = 65536;

fn pt(x: i64, y: i64) -> Point {
    Point { x, y }
}

fn corner(x: i64, y: i64) -> Handle {
    let a = pt(x, y);
    Handle { anchor: a, ctrl_in: a, ctrl_out: a }
}

fn circle_approx() -> Path {
    let k = 361966;
    Path::create(
        vec![
            Handle { anchor: pt(10 * S, 0), ctrl_in: pt(10 * S, -k), ctrl_out: pt(10 * S, k) },
            Handle { anchor: pt(0, 10 * S), ctrl_in: pt(k, 10 * S), ctrl_out: pt(-k, 10 * S) },
            Handle { anchor: pt(-10 * S, 0), ctrl_in: pt(-10 * S, k), ctrl_out: pt(-10 * S, -k) },
            Handle { anchor: pt(0, -10 * S), ctrl_in: pt(-k, -10 * S), ctrl_out: pt(k, -10 * S) },
        ],
        true,
    )
}

#[test]
fn figure_eight_has_exactly_one_self_intersection() {
    // a bowtie: the two diagonal edges cross once at the centre
    let p = Path::create(
        vec![
            corner(0, 0),
            corner(10 * S, 10 * S),
            corner(10 * S, 0),
            corner(0, 10 * S),
        ],
        true,
    );
    let hits = p.self_intersections(64, 64);
    assert_eq!(hits.len(), 1);
    assert!(0 < hits[0] && hits[0] < T_ONE);
    // the crossing sits midway along the first diagonal: global 1/8
    assert!((hits[0] - T_ONE / 8).abs() <= 64);
}

#[test]
fn plain_square_has_no_self_intersections() {
    let p = Path::create(
        vec![
            corner(0, 0),
            corner(10 * S, 0),
            corner(10 * S, 10 * S),
            corner(0, 10 * S),
        ],
        true,
    );
    let hits = p.self_intersections(64, 64);
    assert_eq!(hits.len(), 0);
}

#[test]
fn self_intersections_are_sorted_with_separation() {
    let p = Path::create(
        vec![
            corner(0, 0),
            corner(10 * S, 10 * S),
            corner(10 * S, 0),
            corner(0, 10 * S),
        ],
        true,
    );
    let hits = p.self_intersections(128, 500);
    for w in hits.windows(2) {
        assert!(w[0] < w[1]);
        assert!(w[1] - w[0] >= 500);
    }
}

#[test]
fn contains_point_inside_circle() {
    let p = circle_approx();
    assert!(p.contains_point(pt(0, 0)));
    assert!(p.contains_point(pt(3 * S, 3 * S)));
}

#[test]
fn contains_point_well_outside_circle() {
    let p = circle_approx();
    assert!(!p.contains_point(pt(30 * S, 0)));
    assert!(!p.contains_point(pt(-15 * S, 22 * S)));
}

#[test]
fn contains_point_is_false_for_open_paths() {
    let p = Path::create(vec![corner(0, 0), corner(10 * S, 0)], false);
    assert!(!p.contains_point(pt(5 * S, 0)));
}

#[test]
fn project_point_on_the_path_has_near_zero_residual() {
    let p = Path::create(vec![corner(0, 0), corner(10 * S, 0)], false);
    let q = pt(3 * S, 0);
    let (tg, best) = p.project_point(q).unwrap();
    assert!(0 <= tg && tg <= T_ONE);
    assert_eq!(best.y, 0);
    let dx = (best.x - q.x) as i128;
    assert!(dx * dx <= 100 * 100);
}

#[test]
fn project_point_of_an_anchor_is_exact() {
    let p = Path::create(vec![corner(0, 0), corner(10 * S, 0)], false);
    let (tg, best) = p.project_point(pt(10 * S, 0)).unwrap();
    assert_eq!(best, pt(10 * S, 0));
    assert_eq!(tg, T_ONE);
}

#[test]
fn project_point_picks_the_nearest_side() {
    let p = Path::create(
        vec![corner(0, 0), corner(10 * S, 0), corner(10 * S, 10 * S)],
        false,
    );
    // a probe near the vertical leg projects onto it
    let (_tg, best) = p.project_point(pt(9 * S, 8 * S)).unwrap();
    assert!((best.x - 10 * S).abs() <= 200);
    assert!((best.y - 8 * S).abs() <= 600);
}

#[test]
fn project_point_on_empty_path_is_degenerate() {
    let p = Path::create(vec![], false);
    assert_eq!(p.project_point(pt(0, 0)), Err(PathError::DegenerateGeometry));
}

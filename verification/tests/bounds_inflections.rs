use bezrs::{Handle, Path, Point, T_ONE};

const S: i64 = 65536;

fn pt(x: i64, y: i64) -> Point {
    Point { x, y }
}

fn corner(x: i64, y: i64) -> Handle {
    let a = pt(x, y);
    Handle { anchor: a, ctrl_in: a, ctrl_out: a }
}

fn smooth(ax: i64, ay: i64, ix: i64, iy: i64, ox: i64, oy: i64) -> Handle {
    Handle { anchor: pt(ax, ay), ctrl_in: pt(ix, iy), ctrl_out: pt(ox, oy) }
}

#[test]
fn bounding_box_contains_every_anchor() {
    let anchors = [
        (0, 0),
        (10 * S, -3 * S),
        (20 * S, 7 * S),
        (-5 * S, 2 * S),
    ];
    let handles: Vec<Handle> = anchors
        .iter()
        .map(|&(x, y)| smooth(x, y, x - S, y + S, x + S, y - S))
        .collect();
    let p = Path::create(handles, true);
    let bb = p.bounding_box();
    for &(x, y) in anchors.iter() {
        assert!(bb.min.x <= x && x <= bb.max.x);
        assert!(bb.min.y <= y && y <= bb.max.y);
    }
}

#[test]
fn bounding_box_of_empty_path_is_zero_at_origin() {
    let p = Path::create(vec![], false);
    let bb = p.bounding_box();
    assert_eq!(bb.min, pt(0, 0));
    assert_eq!(bb.max, pt(0, 0));
}

#[test]
fn bounding_box_finds_curve_extremum() {
    // a bump over the x axis: its top at three quarters of the control
    // height, reached midway
    let p = Path::create(
        vec![
            smooth(0, 0, 0, 0, 0, 10 * S),
            smooth(10 * S, 0, 10 * S, 10 * S, 10 * S, 0),
        ],
        false,
    );
    let bb = p.bounding_box();
    assert_eq!(bb.min, pt(0, 0));
    assert_eq!(bb.max.x, 10 * S);
    // exact extremum: 7.5 units
    assert_eq!(bb.max.y, 7 * S + S / 2);
}

#[test]
fn s_curve_has_one_inflection() {
    // an S-shaped single segment: curvature changes sign once inside
    let p = Path::create(
        vec![
            smooth(0, 0, 0, 0, 0, 10 * S),
            smooth(10 * S, 0, 10 * S, -10 * S, 10 * S, 0),
        ],
        false,
    );
    let infl = p.inflections();
    assert_eq!(infl.len(), 1);
    assert!(0 < infl[0] && infl[0] < T_ONE);
    // the S is symmetric, so the sign change sits midway
    assert!((infl[0] - T_ONE / 2).abs() <= 16);
}

#[test]
fn straight_path_has_no_inflections() {
    let p = Path::create(vec![corner(0, 0), corner(10 * S, 0), corner(20 * S, 0)], false);
    let infl = p.inflections();
    assert_eq!(infl.len(), 0);
}

#[test]
fn inflections_are_sorted_and_deduplicated() {
    // two S-shaped segments in sequence
    let p = Path::create(
        vec![
            smooth(0, 0, 0, 0, 0, 10 * S),
            smooth(10 * S, 0, 10 * S, -10 * S, 10 * S, 10 * S),
            smooth(20 * S, 0, 20 * S, -10 * S, 20 * S, 0),
        ],
        false,
    );
    let infl = p.inflections();
    for w in infl.windows(2) {
        assert!(w[0] + 16 <= w[1]);
    }
    for &t in infl.iter() {
        assert!(0 < t && t < T_ONE);
    }
}

use bezrs::{Handle, Path, PathError, Point};

const S: i64 = 65536;

fn pt(x: i64, y: i64) -> Point {
    Point { x, y }
}

fn corner(x: i64, y: i64) -> Handle {
    let a = pt(x, y);
    Handle { anchor: a, ctrl_in: a, ctrl_out: a }
}

fn smooth(ax: i64, ay: i64, ix: i64, iy: i64, ox: i64, oy: i64) -> Handle {
    Handle { anchor: pt(ax, ay), ctrl_in: pt(ix, iy), ctrl_out: pt(ox, oy) }
}

#[test]
fn reverse_twice_restores_path() {
    let handles = vec![
        smooth(0, 0, -S, 0, S, 0),
        smooth(10 * S, 0, 9 * S, S, 11 * S, -S),
        corner(20 * S, 5 * S),
    ];
    let mut p = Path::create(handles.clone(), false);
    p.reverse();
    p.reverse();
    assert_eq!(p.handles(), handles);
    assert!(!p.is_closed());
}

#[test]
fn reverse_swaps_controls_and_order() {
    let handles = vec![smooth(0, 0, -S, -S, S, S), smooth(4 * S, 0, 3 * S, 0, 5 * S, 0)];
    let mut p = Path::create(handles, true);
    p.reverse();
    let r = p.handles();
    assert_eq!(r.len(), 2);
    assert_eq!(r[0].anchor, pt(4 * S, 0));
    assert_eq!(r[0].ctrl_in, pt(5 * S, 0));
    assert_eq!(r[0].ctrl_out, pt(3 * S, 0));
    assert_eq!(r[1].anchor, pt(0, 0));
    assert_eq!(r[1].ctrl_in, pt(S, S));
    assert_eq!(r[1].ctrl_out, pt(-S, -S));
    assert!(p.is_closed());
}

#[test]
fn create_coerces_closed_with_too_few_handles() {
    let p = Path::create(vec![corner(0, 0)], true);
    assert!(!p.is_closed());
    let q = Path::create(vec![corner(0, 0), corner(S, 0)], true);
    assert!(q.is_closed());
    let e = Path::create(vec![], true);
    assert!(!e.is_closed());
    assert_eq!(e.len(), 0);
}

#[test]
fn segment_counts() {
    assert_eq!(Path::create(vec![], false).segment_count(), 0);
    assert_eq!(Path::create(vec![corner(0, 0)], false).segment_count(), 0);
    assert_eq!(Path::create(vec![corner(0, 0), corner(S, 0)], false).segment_count(), 1);
    assert_eq!(Path::create(vec![corner(0, 0), corner(S, 0)], true).segment_count(), 2);
    let sq = vec![corner(0, 0), corner(S, 0), corner(S, S), corner(0, S)];
    assert_eq!(Path::create(sq.clone(), false).segment_count(), 3);
    assert_eq!(Path::create(sq, true).segment_count(), 4);
}

#[test]
fn insert_at_length_appends() {
    let mut p = Path::create(vec![corner(0, 0), corner(S, 0)], false);
    assert_eq!(p.insert(2, corner(2 * S, 0)), Ok(()));
    assert_eq!(p.handles()[2].anchor, pt(2 * S, 0));
    let mut q = Path::create(vec![corner(0, 0), corner(S, 0)], false);
    assert_eq!(q.append(corner(2 * S, 0)), Ok(()));
    assert_eq!(p.handles(), q.handles());
}

#[test]
fn insert_in_middle_shifts_handles() {
    let mut p = Path::create(vec![corner(0, 0), corner(2 * S, 0)], false);
    assert_eq!(p.insert(1, corner(S, S)), Ok(()));
    let h = p.handles();
    assert_eq!(h.len(), 3);
    assert_eq!(h[0].anchor, pt(0, 0));
    assert_eq!(h[1].anchor, pt(S, S));
    assert_eq!(h[2].anchor, pt(2 * S, 0));
}

#[test]
fn insert_out_of_range_is_invalid_argument() {
    let mut p = Path::create(vec![corner(0, 0), corner(S, 0)], false);
    assert_eq!(p.insert(3, corner(2 * S, 0)), Err(PathError::InvalidArgument));
    assert_eq!(p.handles().len(), 2);
}

#[test]
fn insert_out_of_bounds_handle_is_invalid_argument() {
    let mut p = Path::create(vec![corner(0, 0)], false);
    let far = corner(i64::MAX / 2, 0);
    assert_eq!(p.append(far), Err(PathError::InvalidArgument));
    assert_eq!(p.handles().len(), 1);
}

#[test]
fn handles_in_limits_flags_out_of_range_coordinates() {
    let good = vec![corner(0, 0), corner(10 * S, -10 * S)];
    assert!(Path::handles_in_limits(&good));
    let bad = vec![corner(0, 0), corner(i64::MAX / 2, 0)];
    assert!(!Path::handles_in_limits(&bad));
}

use geo_visibility::angle_comparator::AngleComparator;
use geo_visibility::comparable_line::ComparableLine;
use geo_visibility::geometry::{approx_equal, cross, Line, Point, Vertex};
use geo_visibility::orientation::Orientation;
use geo_visibility::ray::Ray;
use std::cmp::Ordering;

fn pt(x: i64, y: i64) -> Point {
    Point::new(x, y)
}

fn seg(a: (i64, i64), b: (i64, i64)) -> Line {
    Line::new(pt(a.0, a.1), pt(b.0, b.1))
}

#[test]
fn test_dot() {
    assert_eq!(pt(1, 2).dot(&pt(3, 4)), 11);
    assert_eq!(pt(1, 2).dot(&pt(0, 0)), 0);
}

#[test]
fn test_det() {
    assert_eq!(cross(pt(3, 4), pt(1, 2)), 2);
}

#[test]
fn points_coincide_only_when_equal() {
    assert!(approx_equal(&pt(3, -4), &pt(3, -4)));
    assert!(!approx_equal(&pt(3, -4), &pt(3, -3)));
}

#[test]
fn test_orientation() {
    assert_eq!(
        Orientation::from(pt(0, 0), pt(1, 0), pt(2, 1)),
        Orientation::LeftTurn
    );
    assert_eq!(
        Orientation::from(pt(0, 0), pt(1, 0), pt(2, -1)),
        Orientation::RightTurn
    );
    assert_eq!(
        Orientation::from(pt(0, 0), pt(1, 0), pt(2, 0)),
        Orientation::Collinear
    );
    assert_eq!(
        Orientation::from(pt(0, 0), pt(0, 0), pt(4, 5)),
        Orientation::Collinear
    );
    assert_eq!(
        Orientation::from(pt(0, 0), pt(0, 0), pt(0, 0)),
        Orientation::Collinear
    );
}

#[test]
fn orientation_is_unchanged_by_translation() {
    let (a, b, c) = ((1, 2), (5, -3), (-2, 7));
    for (tx, ty) in [(0, 0), (10, -20), (-300, 45), (1000, 1000)] {
        assert_eq!(
            Orientation::from(
                pt(a.0 + tx, a.1 + ty),
                pt(b.0 + tx, b.1 + ty),
                pt(c.0 + tx, c.1 + ty)
            ),
            Orientation::from(pt(a.0, a.1), pt(b.0, b.1), pt(c.0, c.1))
        );
    }
}

#[test]
fn orientation_of_rational_vertices() {
    let a = Vertex::from_point(pt(0, 0));
    let half = Vertex { x: 1, y: 1, w: 2 };
    let b = Vertex::from_point(pt(1, 1));
    assert_eq!(Orientation::of_vertices(&a, &half, &b), Orientation::Collinear);
    let off = Vertex { x: 1, y: 2, w: 2 };
    assert_eq!(Orientation::of_vertices(&a, &b, &off), Orientation::LeftTurn);
    assert_eq!(Orientation::of_vertices(&a, &off, &b), Orientation::RightTurn);
}

#[test]
fn compare_angle_with_two_points_in_general_position() {
    let angle_cmp = AngleComparator { origin: pt(0, 0) };

    assert_eq!(angle_cmp.cmp(&pt(0, 1), &pt(1, 1)), Ordering::Less);
    assert_ne!(angle_cmp.cmp(&pt(1, 1), &pt(0, 1)), Ordering::Less);

    assert_eq!(angle_cmp.cmp(&pt(1, 1), &pt(1, -1)), Ordering::Less);
    assert_ne!(angle_cmp.cmp(&pt(1, -1), &pt(1, 1)), Ordering::Less);

    assert_eq!(angle_cmp.cmp(&pt(1, 0), &pt(-1, -1)), Ordering::Less);
    assert_ne!(angle_cmp.cmp(&pt(-1, -1), &pt(1, 0)), Ordering::Less);

    assert_eq!(angle_cmp.cmp(&pt(0, 1), &pt(0, -1)), Ordering::Less);
    assert_ne!(angle_cmp.cmp(&pt(0, -1), &pt(0, 1)), Ordering::Less);
}

#[test]
fn compare_angle_with_two_points_if_they_are_collinear_with_the_origin() {
    let angle_cmp = AngleComparator { origin: pt(0, 0) };

    assert_eq!(angle_cmp.cmp(&pt(1, 0), &pt(2, 0)), Ordering::Less);
    assert_ne!(angle_cmp.cmp(&pt(2, 0), &pt(1, 0)), Ordering::Less);

    assert_ne!(angle_cmp.cmp(&pt(1, 0), &pt(1, 0)), Ordering::Less);
    assert_ne!(angle_cmp.cmp(&pt(0, 0), &pt(0, 0)), Ordering::Less);
}

#[test]
fn angle_order_is_a_strict_total_order_on_sample_points() {
    let angle_cmp = AngleComparator { origin: pt(3, -2) };
    let mut points = Vec::new();
    for x in -2..=8 {
        for y in -7..=3 {
            if (x, y) != (3, -2) {
                points.push(pt(x, y));
            }
        }
    }
    let less = |a: &Point, b: &Point| angle_cmp.cmp(a, b) == Ordering::Less;
    for a in &points {
        assert!(!less(a, a));
        for b in &points {
            if a != b {
                assert!(less(a, b) != less(b, a));
            }
        }
    }
    for a in points.iter().step_by(7) {
        for b in points.iter().step_by(5) {
            for c in points.iter().step_by(3) {
                if less(a, b) && less(b, c) {
                    assert!(less(a, c));
                }
            }
        }
    }
}

#[test]
fn angle_order_on_the_vertical_line() {
    let angle_cmp = AngleComparator { origin: pt(0, 0) };
    // above the origin: farther first; below: farther first too
    assert_eq!(angle_cmp.cmp(&pt(0, 2), &pt(0, 1)), Ordering::Less);
    assert_eq!(angle_cmp.cmp(&pt(0, -2), &pt(0, -1)), Ordering::Less);
    // straight up comes before the right half, straight down after it
    assert_eq!(angle_cmp.cmp(&pt(0, 5), &pt(1, 100)), Ordering::Less);
    assert_eq!(angle_cmp.cmp(&pt(1, -100), &pt(0, -5)), Ordering::Less);
}

fn test_line_segment_is_closer(origin: Point, a: Point, b: Point, c: Point, d: Point) {
    let cmp = |p: Point, q: Point, r: Point, s: Point| {
        ComparableLine::new(origin, Line::new(p, q)).cmp(&ComparableLine::new(origin, Line::new(r, s)))
    };
    assert_eq!(cmp(a, b, c, d), Ordering::Less);
    assert_eq!(cmp(b, a, c, d), Ordering::Less);
    assert_eq!(cmp(a, b, d, c), Ordering::Less);
    assert_eq!(cmp(b, a, d, c), Ordering::Less);

    assert_ne!(cmp(c, d, a, b), Ordering::Less);
    assert_ne!(cmp(d, c, a, b), Ordering::Less);
    assert_ne!(cmp(c, d, b, a), Ordering::Less);
    assert_ne!(cmp(d, c, b, a), Ordering::Less);
}

fn test_line_segments_are_equal(origin: Point, a: Point, b: Point, c: Point, d: Point) {
    let cmp = |p: Point, q: Point, r: Point, s: Point| {
        ComparableLine::new(origin, Line::new(p, q)).cmp(&ComparableLine::new(origin, Line::new(r, s)))
    };
    assert_ne!(cmp(a, b, c, d), Ordering::Less);
    assert_ne!(cmp(b, a, c, d), Ordering::Less);
    assert_ne!(cmp(a, b, d, c), Ordering::Less);
    assert_ne!(cmp(b, a, d, c), Ordering::Less);

    assert_ne!(cmp(c, d, a, b), Ordering::Less);
    assert_ne!(cmp(d, c, a, b), Ordering::Less);
    assert_ne!(cmp(c, d, b, a), Ordering::Less);
    assert_ne!(cmp(d, c, b, a), Ordering::Less);
}

#[test]
fn compare_two_line_segments_with_no_common_endpoints() {
    let origin = pt(0, 0);
    test_line_segment_is_closer(origin, pt(1, 1), pt(1, -1), pt(2, 1), pt(2, -1));
    test_line_segment_is_closer(origin, pt(1, 1), pt(1, -1), pt(2, 2), pt(2, 3));
}

#[test]
fn compare_two_line_segments_with_common_endpoints() {
    let origin = pt(0, 0);
    test_line_segments_are_equal(origin, pt(1, 1), pt(1, 0), pt(1, 0), pt(1, -1));
    test_line_segments_are_equal(origin, pt(1, 1), pt(1, 0), pt(1, 0), pt(1, 1));
    test_line_segment_is_closer(origin, pt(2, 0), pt(1, 1), pt(2, 1), pt(2, 0));
    test_line_segment_is_closer(origin, pt(2, 1), pt(2, 0), pt(2, 0), pt(3, 1));
}

#[test]
fn a_segment_compares_equal_to_itself() {
    let origin = pt(0, 0);
    let s = ComparableLine::new(origin, seg((3, -1), (4, 2)));
    let r = ComparableLine::new(origin, seg((4, 2), (3, -1)));
    assert_eq!(s.cmp(&s), Ordering::Equal);
    assert_eq!(s.cmp(&r), Ordering::Equal);
}

#[test]
fn segments_on_one_line_go_by_their_first_endpoint() {
    let origin = pt(0, 0);
    let near = ComparableLine::new(origin, seg((1, 5), (2, 5)));
    let far = ComparableLine::new(origin, seg((3, 5), (4, 5)));
    assert_eq!(near.cmp(&far), Ordering::Less);
    assert_eq!(far.cmp(&near), Ordering::Greater);
}

fn ray(a: (i64, i64), b: (i64, i64)) -> Ray {
    Ray::new(seg(a, b))
}

fn hits_at(r: Option<Vertex>, x: i64, y: i64) -> bool {
    match r {
        Some(v) => v.is_at(&pt(x, y)),
        None => false,
    }
}

// every coordinate is scaled by 1000 so that 1e-3 and 0.5 become integers
#[test]
fn test_ray() {
    let k = 1000;
    assert_eq!(
        ray((0, 0), (k, 0)).intersects(&seg((-k, k), (-k, -k))),
        None
    );
    assert_eq!(
        ray((0, 0), (k, 0)).intersects(&seg((-1, k), (-1, -k))),
        None
    );
    assert_eq!(
        ray((0, 0), (k, 0)).intersects(&seg((-2 * k, 0), (-k, 0))),
        None
    );
    assert!(hits_at(
        ray((0, 0), (k, 0)).intersects(&seg((0, k), (0, -k))),
        0,
        0
    ));
    assert!(hits_at(
        ray((0, 0), (k, 0)).intersects(&seg((-k, 0), (0, 0))),
        0,
        0
    ));
    assert!(hits_at(
        ray((0, 0), (k, 0)).intersects(&seg((0, 0), (-k, 0))),
        0,
        0
    ));
    assert!(hits_at(
        ray((0, 0), (k, 0)).intersects(&seg((2 * k, k), (2 * k, -k))),
        2 * k,
        0
    ));
    assert!(hits_at(
        ray((0, 0), (k, 0)).intersects(&seg((2 * k, 0), (3 * k, 0))),
        2 * k,
        0
    ));
    assert!(hits_at(
        ray((0, 0), (k, 0)).intersects(&seg((3 * k, 0), (2 * k, 0))),
        2 * k,
        0
    ));
    assert!(hits_at(
        ray((k / 2, 0), (2 * k, 0)).intersects(&seg((k, 0), (k, -k))),
        k,
        0
    ));
}

#[test]
fn ray_crossing_at_a_fraction() {
    // the ray through (3, 1) meets x = 2 at (2, 2/3)
    let v = ray((0, 0), (3, 1)).intersects(&seg((2, -5), (2, 5))).unwrap();
    assert!(v.w > 0);
    assert_eq!(v.x, 2 * v.w);
    assert_eq!(3 * v.y, 2 * v.w);
    assert!(!v.is_at(&pt(2, 1)));
}

#[test]
fn ray_crossing_ignores_the_order_of_the_endpoints() {
    let cases = [
        ((0, 0), (3, 1), (2, -5), (2, 5)),
        ((1, 1), (4, 7), (-3, 9), (8, 2)),
        ((0, 0), (1, 0), (2, 0), (5, 0)),
        ((0, 0), (1, 0), (-2, 0), (5, 0)),
        ((5, 5), (6, 5), (1, 0), (1, 9)),
        ((0, 0), (1, 1), (4, 0), (0, 4)),
    ];
    for (o, p, a, b) in cases {
        let r = ray(o, p);
        assert_eq!(r.intersects(&seg(a, b)), r.intersects(&seg(b, a)));
    }
    assert!(ray((0, 0), (1, 1)).intersects(&seg((4, 0), (0, 4))).is_some());
}

#[test]
fn partial_cmp_wraps_cmp() {
    let origin = pt(0, 0);
    let near = ComparableLine::new(origin, seg((1, -1), (1, 1)));
    let far = ComparableLine::new(origin, seg((2, -1), (2, 1)));
    assert_eq!(near.partial_cmp(&far), Some(Ordering::Less));
    assert_eq!(far.partial_cmp(&near), Some(Ordering::Greater));
    assert_eq!(near.partial_cmp(&near), Some(Ordering::Equal));
}

#[test]
fn crossing_just_behind_the_ray_origin_counts() {
    // t is about -6.1e-5, within the 1e-4 tolerance
    let r = ray((-8191, 0), (8192, 0)).intersects(&seg((-8192, -1), (-8192, 1)));
    assert!(hits_at(r, -8192, 0));
    // t is -1e-3: behind the ray
    let r = ray((0, 0), (1000, 0)).intersects(&seg((-1, 1000), (-1, -1000)));
    assert_eq!(r, None);
}

use geo_visibility::geometry::{Line, Point, Vertex};
use geo_visibility::visibility::{
    checked_visibility, point_visibility, remove_collinear_vertices, sort_events_by_angle,
};
use geo_visibility::visibility_event::{VisibilityEvent, VisibilityEventType};
use geo_visibility::Visibility;

fn pt(x: i64, y: i64) -> Point {
    Point::new(x, y)
}

fn lines(segments: &[[[i64; 2]; 2]]) -> Vec<Line> {
    segments
        .iter()
        .map(|[[x1, y1], [x2, y2]]| Line::new(pt(*x1, *y1), pt(*x2, *y2)))
        .collect()
}

fn test_visibility([origin_x, origin_y]: [i64; 2], segments: &[[[i64; 2]; 2]], visibility: &[[i64; 2]]) {
    let origin = pt(origin_x, origin_y);
    let result = point_visibility(&origin, &lines(segments));
    assert!(result.unresolved.is_empty());
    assert_eq!(result.vertices.len(), visibility.len());
    for (i, v) in result.vertices.iter().enumerate() {
        assert!(
            v.is_at(&pt(visibility[i][0], visibility[i][1])),
            "vertex {} is {:?}",
            i,
            v
        );
    }
}

const BOUNDARY: [[[i64; 2]; 2]; 4] = [
    [[-250, -250], [-250, 250]],
    [[-250, 250], [250, 250]],
    [[250, 250], [250, -250]],
    [[250, -250], [-250, -250]],
];

fn with_boundary(inner: &[[[i64; 2]; 2]]) -> Vec<[[i64; 2]; 2]> {
    let mut all = BOUNDARY.to_vec();
    all.extend_from_slice(inner);
    all
}

#[test]
fn calculate_visibility_polygon_with_no_line_segments() {
    test_visibility([0, 0], &[], &[]);
}

#[test]
fn calculate_visibility_polygon_with_no_obstaces_apart_from_the_boundary() {
    test_visibility(
        [0, 0],
        &BOUNDARY,
        &[[250, 250], [250, -250], [-250, -250], [-250, 250]],
    );
}

#[test]
fn calculate_visibility_polygon_with_a_polyline_as_an_obstacle() {
    test_visibility(
        [0, 0],
        &with_boundary(&[[[-50, 50], [50, 50]], [[50, 50], [50, -50]]]),
        &[
            [50, 50],
            [50, -50],
            [250, -250],
            [-250, -250],
            [-250, 250],
            [-50, 50],
        ],
    );
}

#[test]
fn calculate_visibility_polygon_with_a_convex_polygon_as_an_obstacle() {
    test_visibility(
        [0, 0],
        &with_boundary(&[
            [[-50, 50], [50, 50]],
            [[50, 50], [50, 100]],
            [[50, 100], [-50, 100]],
            [[-50, 100], [-50, 50]],
        ]),
        &[
            [50, 50],
            [250, 250],
            [250, -250],
            [-250, -250],
            [-250, 250],
            [-50, 50],
        ],
    );
}

#[test]
fn calculate_visibility_polygon_with_a_concave_polygon_as_an_obstacle() {
    test_visibility(
        [0, 0],
        &with_boundary(&[
            [[-50, 50], [0, 100]],
            [[0, 100], [50, 50]],
            [[50, 50], [0, 200]],
            [[0, 200], [-50, 50]],
        ]),
        &[
            [0, 100],
            [50, 50],
            [250, 250],
            [250, -250],
            [-250, -250],
            [-250, 250],
            [-50, 50],
        ],
    );
}

#[test]
fn calculate_visibility_polygon_with_two_polygons_as_obstacles() {
    test_visibility(
        [0, 0],
        &with_boundary(&[
            [[-50, -50], [0, -100]],
            [[0, -100], [50, -50]],
            [[50, -50], [0, -200]],
            [[0, -200], [-50, -50]],
            [[-50, 50], [0, 100]],
            [[0, 100], [50, 50]],
            [[50, 50], [0, 200]],
            [[0, 200], [-50, 50]],
        ]),
        &[
            [0, 100],
            [50, 50],
            [250, 250],
            [250, -250],
            [50, -50],
            [0, -100],
            [-50, -50],
            [-250, -250],
            [-250, 250],
            [-50, 50],
        ],
    );
}

#[test]
fn a_vertex_between_its_neighbours_is_dropped() {
    // the left side of the boundary is split at its midpoint (-250, 0)
    test_visibility(
        [0, 0],
        &[
            [[-250, -250], [-250, 0]],
            [[-250, 0], [-250, 250]],
            [[-250, 250], [250, 250]],
            [[250, 250], [250, -250]],
            [[250, -250], [-250, -250]],
        ],
        &[[250, 250], [250, -250], [-250, -250], [-250, 250]],
    );
}

#[test]
fn convex_boundary_alone_gives_its_vertices() {
    // a hexagon around an origin off the centre
    test_visibility(
        [10, -20],
        &[
            [[-200, 0], [-100, 170]],
            [[-100, 170], [100, 170]],
            [[100, 170], [200, 0]],
            [[200, 0], [100, -170]],
            [[100, -170], [-100, -170]],
            [[-100, -170], [-200, 0]],
        ],
        &[
            [100, 170],
            [200, 0],
            [100, -170],
            [-100, -170],
            [-200, 0],
            [-100, 170],
        ],
    );
}

#[test]
fn segments_through_the_origin_are_ignored() {
    let result = point_visibility(&pt(0, 0), &lines(&[[[1, 1], [5, 5]], [[-3, 0], [-9, 0]]]));
    assert!(result.vertices.is_empty());
    assert!(result.unresolved.is_empty());
}

#[test]
fn coordinates_out_of_range_are_refused() {
    let far = lines(&[[[-9000, 0], [0, 10]]]);
    assert!(checked_visibility(&pt(0, 0), &far).is_none());
    assert!(checked_visibility(&pt(9000, 0), &[]).is_none());
    assert!(pt(0, 0).visibility(far.as_slice()).is_none());
    let square = lines(&BOUNDARY);
    let r = pt(0, 0).visibility(square.as_slice()).unwrap();
    assert_eq!(r.vertices.len(), 4);
}

#[test]
fn collinear_vertices_are_removed_in_one_pass() {
    let v = |x: i128, y: i128| Vertex { x, y, w: 1 };
    let ring = vec![v(0, 0), v(2, 0), v(4, 0), v(4, 4), v(0, 4), v(0, 2)];
    let kept = remove_collinear_vertices(&ring);
    assert_eq!(kept, vec![v(0, 0), v(4, 0), v(4, 4), v(0, 4)]);
    // a fractional midpoint is collinear too
    let ring = vec![v(0, 0), Vertex { x: 3, y: 0, w: 2 }, v(3, 0), v(0, 3)];
    assert_eq!(remove_collinear_vertices(&ring), vec![v(0, 0), v(3, 0), v(0, 3)]);
}

#[test]
fn calls_on_separate_inputs_do_not_interfere() {
    let a = lines(&BOUNDARY);
    let b = lines(&with_boundary(&[[[-50, 50], [50, 50]], [[50, 50], [50, -50]]]));
    let first_a = point_visibility(&pt(0, 0), &a);
    let first_b = point_visibility(&pt(0, 0), &b);
    let second_a = point_visibility(&pt(0, 0), &a);
    assert_eq!(first_a.vertices, second_a.vertices);
    assert_eq!(first_b.vertices.len(), 6);
}

// coordinates are given in tenths, rounded to integers
#[test]
fn test_sort_events_by_angle() {
    let mut events = vec![
        VisibilityEvent::end(&Line::new(pt(1925, 3900), pt(704, 3891))),
        VisibilityEvent::end(&Line::new(pt(1925, 3900), pt(230, 3923))),
    ];
    let result = events.clone();
    sort_events_by_angle(&pt(299, 2689), &mut events);
    assert_eq!(events, result);
}

#[test]
fn sort_puts_end_before_start_at_one_point() {
    let s = Line::new(pt(5, 5), pt(5, -5));
    let mut events = vec![
        VisibilityEvent::start(&s),
        VisibilityEvent::end(&Line::new(pt(5, 5), pt(-5, 5))),
        VisibilityEvent::start(&Line::new(pt(-5, -5), pt(-5, 5))),
        VisibilityEvent::end(&Line::new(pt(5, -5), pt(5, 5))),
    ];
    sort_events_by_angle(&pt(0, 0), &mut events);
    let kinds: Vec<_> = events.iter().map(|e| (e.point(), e.event_type)).collect();
    assert_eq!(
        kinds,
        vec![
            (pt(5, 5), VisibilityEventType::EndVertex),
            (pt(5, 5), VisibilityEventType::StartVertex),
            (pt(5, -5), VisibilityEventType::EndVertex),
            (pt(-5, -5), VisibilityEventType::StartVertex),
        ]
    );
}

// coordinates are given in hundredths so that 1.53 and -0.4 become integers
#[test]
fn issue_27() {
    let point = pt(153, -40);
    let obstacles = lines(&[
        [[0, 50], [150, 50]],
        [[0, 0], [0, 100]],
        [[150, 50], [150, 150]],
        [[50, -50], [50, 50]],
        [[-2500, -2500], [2500, -2500]],
        [[2500, -2500], [2500, 2500]],
        [[2500, 2500], [-2500, 2500]],
        [[-2500, 2500], [-2500, -2500]],
    ]);
    let vis = point_visibility(&point, &obstacles);
    assert!(vis.vertices.len() >= 3);
}

#[test]
fn a_segment_through_the_origin_changes_nothing() {
    let square = lines(&BOUNDARY);
    let mut with_extra = square.clone();
    with_extra.insert(2, Line::new(pt(10, 10), pt(100, 100)));
    let a = point_visibility(&pt(0, 0), &square);
    let b = point_visibility(&pt(0, 0), &with_extra);
    assert_eq!(a.vertices, b.vertices);
}

#[test]
fn polygon_vertices_lie_on_obstacles() {
    let obstacles = lines(&with_boundary(&[[[-50, 50], [50, 50]], [[50, 50], [50, -50]]]));
    let result = point_visibility(&pt(7, -3), &obstacles);
    assert!(!result.vertices.is_empty());
    for v in &result.vertices {
        let on_some = obstacles.iter().any(|l| {
            let (ax, ay, bx, by) = (
                l.start.x as i128,
                l.start.y as i128,
                l.end.x as i128,
                l.end.y as i128,
            );
            let on_line = (bx - ax) * (v.y - ay * v.w) == (by - ay) * (v.x - ax * v.w);
            let in_x = ax.min(bx) * v.w <= v.x && v.x <= ax.max(bx) * v.w;
            let in_y = ay.min(by) * v.w <= v.y && v.y <= ay.max(by) * v.w;
            on_line && in_x && in_y
        });
        assert!(on_some, "{:?}", v);
    }
}

use vstd::prelude::*;

use crate::geometry::{
    coord_ok, cross, cross_spec, dot_spec, lemma_delta_product, sub_spec, Line, Point, Vertex,
};
use crate::orientation::{lemma_mul_bound, orient_spec, Orientation};

verus! {

/// Half-line from `line.start` through `line.end`.
#[derive(Debug, Clone, Copy, PartialEq, Eq, Structural)]
pub struct Ray {
    pub line: Line,
}

/// A ray parameter `t` with `|t| < 1 / RAY_TOLERANCE_INV` counts as 0, so a
/// crossing just behind the ray's origin is still found.
pub const RAY_TOLERANCE_INV: i64 = 10000;

pub open spec fn abs_int(v: int) -> int {
    if v < 0 {
        -v
    } else {
        v
    }
}

/// The vertex standing at an integer point.
pub open spec fn vertex_of(p: (int, int)) -> Vertex {
    Vertex { x: p.0 as i128, y: p.1 as i128, w: 1 }
}

/// `o + (tn / det) * d`, with the denominator made positive.
pub open spec fn scaled_vertex(o: (int, int), d: (int, int), tn: int, det: int) -> Vertex {
    let s = if det > 0 { 1int } else { -1int };
    Vertex {
        x: (s * (o.0 * det + tn * d.0)) as i128,
        y: (s * (o.1 * det + tn * d.1)) as i128,
        w: (s * det) as i128,
    }
}

/// Where the ray from `o` through `p` first meets the segment `[a, b]`.
///
/// With `d = p - o` and `det = cross(b - a, d)`: when the ray is parallel to
/// the segment (`det == 0`), there is no meeting unless `a`, `b`, `o` are
/// collinear; then, with `dist_a = dot(o - a, d)` and `dist_b = dot(o - b, d)`,
/// none when both are positive, `o` when exactly one is, else the endpoint of
/// larger `dist`. Otherwise the segment parameter `cross(o - a, d) / det`
/// must lie in `[0, 1]` and the ray parameter
/// `t = -cross(b - a, o - a) / det` must be positive or within
/// 1e-4 of 0 (`|t| * RAY_TOLERANCE_INV < 1`); the meeting is
/// `o + t * d`.
pub open spec fn ray_hit(o: (int, int), p: (int, int), a: (int, int), b: (int, int)) -> Option<
    Vertex,
> {
    let d = sub_spec(p, o);
    let ao = sub_spec(o, a);
    let ab = sub_spec(b, a);
    let det = cross_spec(ab, d);
    if det == 0 {
        if orient_spec(a, b, o) != Orientation::Collinear {
            None
        } else {
            let dist_a = dot_spec(ao, d);
            let dist_b = dot_spec(sub_spec(o, b), d);
            if dist_a > 0 && dist_b > 0 {
                None
            } else if (dist_a > 0) != (dist_b > 0) {
                Some(vertex_of(o))
            } else if dist_a > dist_b {
                Some(vertex_of(a))
            } else {
                Some(vertex_of(b))
            }
        }
    } else {
        let un = cross_spec(ao, d);
        let tn = -cross_spec(ab, ao);
        let u_inside = if det > 0 {
            0 <= un <= det
        } else {
            det <= un <= 0
        };
        let ahead = (if det > 0 {
            tn > 0
        } else {
            tn < 0
        }) || RAY_TOLERANCE_INV * abs_int(tn) < abs_int(det);
        if u_inside && ahead {
            Some(scaled_vertex(o, d, tn, det))
        } else {
            None
        }
    }
}

impl Ray {
    pub fn new(line: Line) -> (r: Ray)
        ensures
            r.line == line,
    {
        Ray { line }
    }

    /// The nearest point where the ray meets `segment`, if any.
    pub fn intersects(&self, segment: &Line) -> (r: Option<Vertex>)
        requires
            self.line.in_range(),
            segment.in_range(),
        ensures
            r == ray_hit(self.line.start@, self.line.end@, segment.start@, segment.end@),
            r matches Some(v) ==> v.wf(),
    {
        let origin = self.line.start;
        let direction = self.line.end.minus(&origin);
        let a = segment.start;
        let b = segment.end;
        let ao = origin.minus(&a);
        let ab = b.minus(&a);
        let det = cross(ab, direction);
        if det == 0 {
            if Orientation::from(a, b, origin) != Orientation::Collinear {
                None
            } else {
                let dist_a = ao.dot(&direction);
                let dist_b = origin.minus(&b).dot(&direction);
                if dist_a > 0 && dist_b > 0 {
                    None
                } else if (dist_a > 0) != (dist_b > 0) {
                    Some(Vertex::from_point(origin))
                } else if dist_a > dist_b {
                    Some(Vertex::from_point(a))
                } else {
                    Some(Vertex::from_point(b))
                }
            }
        } else {
            let un = cross(ao, direction);
            let tn = -cross(ab, ao);
            let u_inside = if det > 0 {
                0 <= un && un <= det
            } else {
                det <= un && un <= 0
            };
            let abs_tn: i64 = if tn < 0 {
                -tn
            } else {
                tn
            };
            let abs_det: i64 = if det < 0 {
                -det
            } else {
                det
            };
            let ahead = (if det > 0 {
                tn > 0
            } else {
                tn < 0
            }) || RAY_TOLERANCE_INV * abs_tn < abs_det;
            if u_inside && ahead {
                let s: i128 = if det > 0 {
                    1
                } else {
                    -1
                };
                let det_w = det as i128;
                let tn_w = tn as i128;
                proof {
                    lemma_mul_bound(origin.x as int, det as int, 0x2000, 0x2000_0000);
                    lemma_mul_bound(tn as int, direction.x as int, 0x2000_0000, 0x4000);
                    lemma_mul_bound(origin.y as int, det as int, 0x2000, 0x2000_0000);
                    lemma_mul_bound(tn as int, direction.y as int, 0x2000_0000, 0x4000);
                    lemma_hit_bounds(origin.x as int, direction.x as int, tn as int, det as int);
                    lemma_hit_bounds(origin.y as int, direction.y as int, tn as int, det as int);
                }
                let x = s * ((origin.x as i128) * det_w + tn_w * (direction.x as i128));
                let y = s * ((origin.y as i128) * det_w + tn_w * (direction.y as i128));
                Some(Vertex { x, y, w: s * det_w })
            } else {
                None
            }
        }
    }
}

proof fn lemma_hit_bounds(oc: int, dc: int, tn: int, det: int)
    requires
        -0x2000 <= oc <= 0x2000,
        -0x4000 <= dc <= 0x4000,
        -0x2000_0000 <= tn <= 0x2000_0000,
        -0x2000_0000 <= det <= 0x2000_0000,
    ensures
        -0x1000_0000_0000 <= oc * det + tn * dc <= 0x1000_0000_0000,
{
    assert(-0x1000_0000_0000 <= oc * det + tn * dc <= 0x1000_0000_0000) by (nonlinear_arith)
        requires
            -0x2000 <= oc <= 0x2000,
            -0x4000 <= dc <= 0x4000,
            -0x2000_0000 <= tn <= 0x2000_0000,
            -0x2000_0000 <= det <= 0x2000_0000,
    ;
}

/// Swapping the endpoints of the segment does not change where a ray with a
/// direction meets it.
pub proof fn lemma_ray_hit_endpoint_order(
    o: (int, int),
    p: (int, int),
    a: (int, int),
    b: (int, int),
)
    requires
        p != o,
    ensures
        ray_hit(o, p, a, b) == ray_hit(o, p, b, a),
{
    let (dx, dy) = (p.0 - o.0, p.1 - o.1);
    let (ux, uy) = (b.0 - a.0, b.1 - a.1);
    let (ax, ay) = (o.0 - a.0, o.1 - a.1);
    let (bx, by) = (o.0 - b.0, o.1 - b.1);
    let det = ux * dy - uy * dx;
    assert((-ux) * dy - (-uy) * dx == -det) by (nonlinear_arith)
        requires
            det == ux * dy - uy * dx,
    ;
    if det == 0 {
        let dist_a = ax * dx + ay * dy;
        let dist_b = bx * dx + by * dy;
        if dist_a == dist_b {
            // dot(b - a, d) == 0 and cross(b - a, d) == 0 with d != 0 force a == b
            assert(ux * dx + uy * dy == 0) by (nonlinear_arith)
                requires
                    dist_a == dist_b,
                    dist_a == ax * dx + ay * dy,
                    dist_b == bx * dx + by * dy,
                    ux == ax - bx,
                    uy == ay - by,
            ;
            assert(ux * dx * dx == -(uy * dy * dx)) by (nonlinear_arith)
                requires
                    ux * dx + uy * dy == 0,
            ;
            assert(ux * dy * dy == uy * dx * dy) by (nonlinear_arith)
                requires
                    ux * dy - uy * dx == 0,
            ;
            assert(uy * dy * dy == -(ux * dx * dy)) by (nonlinear_arith)
                requires
                    ux * dx + uy * dy == 0,
            ;
            assert(uy * dx * dx == ux * dy * dx) by (nonlinear_arith)
                requires
                    ux * dy - uy * dx == 0,
            ;
            assert(ux * (dx * dx + dy * dy) == 0 && uy * (dx * dx + dy * dy) == 0)
                by (nonlinear_arith)
                requires
                    ux * dx * dx == -(uy * dy * dx),
                    ux * dy * dy == uy * dx * dy,
                    uy * dy * dy == -(ux * dx * dy),
                    uy * dx * dx == ux * dy * dx,
            ;
            assert(dx * dx + dy * dy > 0) by (nonlinear_arith)
                requires
                    dx != 0 || dy != 0,
            ;
            assert(ux == 0 && uy == 0) by (nonlinear_arith)
                requires
                    ux * (dx * dx + dy * dy) == 0,
                    uy * (dx * dx + dy * dy) == 0,
                    dx * dx + dy * dy > 0,
            ;
        }
        assert((-ux) * by - (-uy) * bx == -(ux * ay - uy * ax)) by (nonlinear_arith)
            requires
                ux == ax - bx,
                uy == ay - by,
        ;
        assert(orient_spec(b, a, o) == Orientation::Collinear <==> orient_spec(a, b, o)
            == Orientation::Collinear);
    } else {
        let un = ax * dy - ay * dx;
        let tn = -(ux * ay - uy * ax);
        assert(bx * dy - by * dx == un - det) by (nonlinear_arith)
            requires
                ux == ax - bx,
                uy == ay - by,
                un == ax * dy - ay * dx,
                det == ux * dy - uy * dx,
        ;
        assert(-((-ux) * by - (-uy) * bx) == -tn) by (nonlinear_arith)
            requires
                ux == ax - bx,
                uy == ay - by,
                tn == -(ux * ay - uy * ax),
        ;
        assert(o.0 * (-det) + (-tn) * dx == -(o.0 * det + tn * dx)) by (nonlinear_arith);
        assert(o.1 * (-det) + (-tn) * dy == -(o.1 * det + tn * dy)) by (nonlinear_arith);
        let d = (dx, dy);
        let x1 = o.0 * det + tn * dx;
        let y1 = o.1 * det + tn * dy;
        let s1: int = if det > 0 { 1 } else { -1 };
        assert((-s1) * (o.0 * (-det) + (-tn) * dx) == s1 * x1) by (nonlinear_arith)
            requires
                o.0 * (-det) + (-tn) * dx == -x1,
        ;
        assert((-s1) * (o.1 * (-det) + (-tn) * dy) == s1 * y1) by (nonlinear_arith)
            requires
                o.1 * (-det) + (-tn) * dy == -y1,
        ;
        assert((-s1) * (-det) == s1 * det) by (nonlinear_arith);
        assert(scaled_vertex(o, d, -tn, -det) == scaled_vertex(o, d, tn, det));
    }
}

/// The rational point `v` lies on the segment `[a, b]`: on its line and
/// within its bounding box.
pub open spec fn on_segment(v: Vertex, a: (int, int), b: (int, int)) -> bool {
    &&& (b.0 - a.0) * (v.y - a.1 * v.w) == (b.1 - a.1) * (v.x - a.0 * v.w)
    &&& (if a.0 <= b.0 {
        a.0 * v.w <= v.x <= b.0 * v.w
    } else {
        b.0 * v.w <= v.x <= a.0 * v.w
    })
    &&& (if a.1 <= b.1 {
        a.1 * v.w <= v.y <= b.1 * v.w
    } else {
        b.1 * v.w <= v.y <= a.1 * v.w
    })
}

/// `a + (k / w) * (b - a)` with `0 <= k <= w` lies on `[a, b]`.
pub(crate) proof fn lemma_between_on_segment(a: (int, int), b: (int, int), k: int, w: int)
    requires
        0 < w,
        0 <= k <= w,
    ensures
        on_segment(
            Vertex {
                x: (a.0 * w + k * (b.0 - a.0)) as i128,
                y: (a.1 * w + k * (b.1 - a.1)) as i128,
                w: w as i128,
            },
            a,
            b,
        ) || !(-0x8000_0000_0000_0000_0000_0000_0000_0000 <= a.0 * w + k * (b.0 - a.0)
            < 0x8000_0000_0000_0000_0000_0000_0000_0000 && -0x8000_0000_0000_0000_0000_0000_0000_0000
            <= a.1 * w + k * (b.1 - a.1) < 0x8000_0000_0000_0000_0000_0000_0000_0000 && w
            < 0x8000_0000_0000_0000_0000_0000_0000_0000),
{
    let (ux, uy) = (b.0 - a.0, b.1 - a.1);
    let (x, y) = (a.0 * w + k * ux, a.1 * w + k * uy);
    assert(ux * (y - a.1 * w) == uy * (x - a.0 * w)) by (nonlinear_arith)
        requires
            x == a.0 * w + k * ux,
            y == a.1 * w + k * uy,
    ;
    assert(if a.0 <= b.0 {
        a.0 * w <= x <= b.0 * w
    } else {
        b.0 * w <= x <= a.0 * w
    }) by (nonlinear_arith)
        requires
            x == a.0 * w + k * ux,
            ux == b.0 - a.0,
            0 <= k <= w,
    ;
    assert(if a.1 <= b.1 {
        a.1 * w <= y <= b.1 * w
    } else {
        b.1 * w <= y <= a.1 * w
    }) by (nonlinear_arith)
        requires
            y == a.1 * w + k * uy,
            uy == b.1 - a.1,
            0 <= k <= w,
    ;
}

/// `o` lies on `[a, b]` when it is on the segment's line and the segment's
/// ends lie on either side of `o` along a direction `d` parallel to it.
proof fn lemma_origin_on_segment(o: (int, int), d: (int, int), a: (int, int), b: (int, int))
    requires
        coord_ok(o.0) && coord_ok(o.1),
        (b.0 - a.0) * (o.1 - a.1) - (b.1 - a.1) * (o.0 - a.0) == 0,
        (b.0 - a.0) * d.1 - (b.1 - a.1) * d.0 == 0,
        ({
            let dist_a = (o.0 - a.0) * d.0 + (o.1 - a.1) * d.1;
            let dist_b = (o.0 - b.0) * d.0 + (o.1 - b.1) * d.1;
            (dist_a > 0 && dist_b <= 0) || (dist_b > 0 && dist_a <= 0)
        }),
    ensures
        on_segment(vertex_of(o), a, b),
{
    let (ux, uy) = (b.0 - a.0, b.1 - a.1);
    let (ax, ay) = (o.0 - a.0, o.1 - a.1);
    let (dx, dy) = d;
    let dist_a = ax * dx + ay * dy;
    let dist_b = (o.0 - b.0) * dx + (o.1 - b.1) * dy;
    let pr = ux * dx + uy * dy;
    assert(dist_a - dist_b == pr) by (nonlinear_arith)
        requires
            dist_a == ax * dx + ay * dy,
            dist_b == (o.0 - b.0) * dx + (o.1 - b.1) * dy,
            pr == ux * dx + uy * dy,
            ax == o.0 - a.0,
            ay == o.1 - a.1,
            ux == b.0 - a.0,
            uy == b.1 - a.1,
    ;
    assert(ax * pr == ux * dist_a) by (nonlinear_arith)
        requires
            ux * ay - uy * ax == 0,
            pr == ux * dx + uy * dy,
            dist_a == ax * dx + ay * dy,
    ;
    assert(ay * pr == uy * dist_a) by (nonlinear_arith)
        requires
            ux * ay - uy * ax == 0,
            pr == ux * dx + uy * dy,
            dist_a == ax * dx + ay * dy,
    ;
    // with r = dist_a / pr in [0, 1], o = a + r * (b - a)
    assert(if ux >= 0 { 0 <= ax <= ux } else { ux <= ax <= 0 }) by (nonlinear_arith)
        requires
            ax * pr == ux * dist_a,
            dist_a - dist_b == pr,
            (dist_a > 0 && dist_b <= 0) || (dist_b > 0 && dist_a <= 0),
    ;
    assert(if uy >= 0 { 0 <= ay <= uy } else { uy <= ay <= 0 }) by (nonlinear_arith)
        requires
            ay * pr == uy * dist_a,
            dist_a - dist_b == pr,
            (dist_a > 0 && dist_b <= 0) || (dist_b > 0 && dist_a <= 0),
    ;
    let v = vertex_of(o);
    assert(v.x == o.0 && v.y == o.1 && v.w == 1);
    assert(ux * (o.1 - a.1) == uy * (o.0 - a.0));
}

/// Every crossing the ray finds lies on the segment.
pub proof fn lemma_ray_hit_on_segment(o: (int, int), p: (int, int), a: (int, int), b: (int, int))
    requires
        coord_ok(o.0) && coord_ok(o.1) && coord_ok(p.0) && coord_ok(p.1),
        coord_ok(a.0) && coord_ok(a.1) && coord_ok(b.0) && coord_ok(b.1),
    ensures
        ray_hit(o, p, a, b) matches Some(v) ==> on_segment(v, a, b),
{
    let (dx, dy) = (p.0 - o.0, p.1 - o.1);
    let (ux, uy) = (b.0 - a.0, b.1 - a.1);
    let (ax, ay) = (o.0 - a.0, o.1 - a.1);
    let det = ux * dy - uy * dx;
    assert(sub_spec(p, o) == (dx, dy));
    assert(sub_spec(b, a) == (ux, uy));
    assert(sub_spec(o, a) == (ax, ay));
    if ray_hit(o, p, a, b) is Some {
        if det == 0 {
            let dist_a = ax * dx + ay * dy;
            let dist_b = (o.0 - b.0) * dx + (o.1 - b.1) * dy;
            if (dist_a > 0) != (dist_b > 0) {
                assert(orient_spec(a, b, o) == Orientation::Collinear);
                lemma_origin_on_segment(o, (dx, dy), a, b);
            } else if dist_a > dist_b {
                lemma_between_on_segment(a, b, 0, 1);
                assert(vertex_of(a) == (Vertex {
                    x: (a.0 * 1 + 0 * (b.0 - a.0)) as i128,
                    y: (a.1 * 1 + 0 * (b.1 - a.1)) as i128,
                    w: 1 as i128,
                }));
            } else {
                lemma_between_on_segment(a, b, 1, 1);
                assert(vertex_of(b) == (Vertex {
                    x: (a.0 * 1 + 1 * (b.0 - a.0)) as i128,
                    y: (a.1 * 1 + 1 * (b.1 - a.1)) as i128,
                    w: 1 as i128,
                }));
            }
        } else {
            let un = ax * dy - ay * dx;
            let tn = -(ux * ay - uy * ax);
            let sg: int = if det > 0 { 1 } else { -1 };
            assert(det * ax + tn * dx == un * ux) by (nonlinear_arith)
                requires
                    det == ux * dy - uy * dx,
                    tn == -(ux * ay - uy * ax),
                    un == ax * dy - ay * dx,
            ;
            assert(det * ay + tn * dy == un * uy) by (nonlinear_arith)
                requires
                    det == ux * dy - uy * dx,
                    tn == -(ux * ay - uy * ax),
                    un == ax * dy - ay * dx,
            ;
            let w = sg * det;
            let k = sg * un;
            assert(sg * (o.0 * det + tn * dx) == a.0 * w + k * ux) by (nonlinear_arith)
                requires
                    det * ax + tn * dx == un * ux,
                    ax == o.0 - a.0,
                    w == sg * det,
                    k == sg * un,
            ;
            assert(sg * (o.1 * det + tn * dy) == a.1 * w + k * uy) by (nonlinear_arith)
                requires
                    det * ay + tn * dy == un * uy,
                    ay == o.1 - a.1,
                    w == sg * det,
                    k == sg * un,
            ;
            assert(cross_spec((ax, ay), (dx, dy)) == un);
            assert(cross_spec((ux, uy), (dx, dy)) == det);
            if det > 0 {
                assert(0 <= un <= det);
                assert(sg == 1);
                assert(w == det && k == un);
            } else {
                assert(det <= un <= 0);
                assert(sg == -1);
                assert(w == -det && k == -un) by (nonlinear_arith)
                    requires
                        sg == -1,
                        w == sg * det,
                        k == sg * un,
                ;
            }
            lemma_delta_product(ux, dy);
            lemma_delta_product(uy, dx);
            lemma_delta_product(ux, ay);
            lemma_delta_product(uy, ax);
            lemma_hit_bounds(o.0, dx, tn, det);
            lemma_hit_bounds(o.1, dy, tn, det);
            lemma_between_on_segment(a, b, k, w);
            assert(-0x1000_0000_0000 <= sg * (o.0 * det + tn * dx) <= 0x1000_0000_0000)
                by (nonlinear_arith)
                requires
                    -0x1000_0000_0000 <= o.0 * det + tn * dx <= 0x1000_0000_0000,
                    sg == 1 || sg == -1,
            ;
            assert(-0x1000_0000_0000 <= sg * (o.1 * det + tn * dy) <= 0x1000_0000_0000)
                by (nonlinear_arith)
                requires
                    -0x1000_0000_0000 <= o.1 * det + tn * dy <= 0x1000_0000_0000,
                    sg == 1 || sg == -1,
            ;
            assert(-0x1_0000_0000 <= det <= 0x1_0000_0000);
            assert(ray_hit(o, p, a, b) == Some(scaled_vertex(o, (dx, dy), tn, det)));
            assert(scaled_vertex(o, (dx, dy), tn, det) == (Vertex {
                x: (a.0 * w + k * (b.0 - a.0)) as i128,
                y: (a.1 * w + k * (b.1 - a.1)) as i128,
                w: w as i128,
            }));
        }
    }
}

} // verus!

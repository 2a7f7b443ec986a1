use vstd::prelude::*;

use crate::geometry::{cross, cross_spec, sub_spec, Point, Vertex};

verus! {

/// Turn direction of three ordered points.
#[derive(Debug, Clone, Copy, PartialEq, Eq, Structural)]
pub enum Orientation {
    LeftTurn,
    RightTurn,
    Collinear,
}

/// Orientation by the sign of a determinant.
pub open spec fn sign_orientation(det: int) -> Orientation {
    if det > 0 {
        Orientation::LeftTurn
    } else if det < 0 {
        Orientation::RightTurn
    } else {
        Orientation::Collinear
    }
}

/// Turn made by `a`, `b`, `c`: the sign of `cross(b - a, c - a)`.
pub open spec fn orient_spec(a: (int, int), b: (int, int), c: (int, int)) -> Orientation {
    sign_orientation(cross_spec(sub_spec(b, a), sub_spec(c, a)))
}

/// `w_p * w_q * w_r` times `cross(q - p, r - p)` for rational points: the
/// determinant of their homogeneous coordinates.
pub open spec fn det3_spec(p: Vertex, q: Vertex, r: Vertex) -> int {
    p.x * (q.y * r.w - r.y * q.w) - p.y * (q.x * r.w - r.x * q.w) + p.w * (q.x * r.y - r.x * q.y)
}

/// Turn made by three rational points (positive denominators keep the sign).
pub open spec fn vertex_orient_spec(p: Vertex, q: Vertex, r: Vertex) -> Orientation {
    sign_orientation(det3_spec(p, q, r))
}

/// `|a * b| <= ab` when `|a| <= ma` and `|b| <= mb` with `ma * mb <= ab`.
pub proof fn lemma_mul_bound(a: int, b: int, ma: int, mb: int)
    requires
        -ma <= a <= ma,
        -mb <= b <= mb,
    ensures
        -(ma * mb) <= a * b <= ma * mb,
{
    assert(-(ma * mb) <= a * b <= ma * mb) by (nonlinear_arith)
        requires
            -ma <= a <= ma,
            -mb <= b <= mb,
    ;
}

impl Orientation {
    /// Turn made by `a`, `b`, `c`; exact, with no tolerance.
    pub fn from(a: Point, b: Point, c: Point) -> (r: Orientation)
        requires
            a.in_range(),
            b.in_range(),
            c.in_range(),
        ensures
            r == orient_spec(a@, b@, c@),
    {
        let det = cross(b.minus(&a), c.minus(&a));
        if det > 0 {
            Orientation::LeftTurn
        } else if det < 0 {
            Orientation::RightTurn
        } else {
            Orientation::Collinear
        }
    }

    /// Turn made by three rational vertices; exact, with no tolerance.
    pub fn of_vertices(p: &Vertex, q: &Vertex, r: &Vertex) -> (o: Orientation)
        requires
            p.wf(),
            q.wf(),
            r.wf(),
        ensures
            o == vertex_orient_spec(*p, *q, *r),
    {
        let ghost xm: int = 0x2000_0000_0000;
        let ghost ym: int = 0x2000_0000_0000;
        let ghost wm: int = 0x4000_0000;
        proof {
            lemma_mul_bound(q.y as int, r.w as int, ym, wm);
            lemma_mul_bound(r.y as int, q.w as int, ym, wm);
            lemma_mul_bound(q.x as int, r.w as int, xm, wm);
            lemma_mul_bound(r.x as int, q.w as int, xm, wm);
            lemma_mul_bound(q.x as int, r.y as int, xm, ym);
            lemma_mul_bound(r.x as int, q.y as int, xm, ym);
        }
        let m1: i128 = q.y * r.w - r.y * q.w;
        let m2: i128 = q.x * r.w - r.x * q.w;
        let m3: i128 = q.x * r.y - r.x * q.y;
        proof {
            lemma_mul_bound(p.x as int, m1 as int, xm, 2 * ym * wm);
            lemma_mul_bound(p.y as int, m2 as int, ym, 2 * xm * wm);
            lemma_mul_bound(p.w as int, m3 as int, wm, 2 * xm * ym);
        }
        let det: i128 = p.x * m1 - p.y * m2 + p.w * m3;
        if det > 0 {
            Orientation::LeftTurn
        } else if det < 0 {
            Orientation::RightTurn
        } else {
            Orientation::Collinear
        }
    }
}

/// Rotating the three points keeps their orientation.
pub proof fn lemma_orient_cyclic(a: (int, int), b: (int, int), c: (int, int))
    ensures
        orient_spec(a, b, c) == orient_spec(b, c, a),
{
    let (ux, uy) = (b.0 - a.0, b.1 - a.1);
    let (vx, vy) = (c.0 - a.0, c.1 - a.1);
    assert((c.0 - b.0) * (a.1 - b.1) - (c.1 - b.1) * (a.0 - b.0) == ux * vy - uy * vx)
        by (nonlinear_arith)
        requires
            ux == b.0 - a.0,
            uy == b.1 - a.1,
            vx == c.0 - a.0,
            vy == c.1 - a.1,
    ;
}

/// Swapping the last two points turns left into right and keeps collinear.
pub proof fn lemma_orient_swap(a: (int, int), b: (int, int), c: (int, int))
    ensures
        orient_spec(a, c, b) == (match orient_spec(a, b, c) {
            Orientation::LeftTurn => Orientation::RightTurn,
            Orientation::RightTurn => Orientation::LeftTurn,
            Orientation::Collinear => Orientation::Collinear,
        }),
{
    let (ux, uy) = (b.0 - a.0, b.1 - a.1);
    let (vx, vy) = (c.0 - a.0, c.1 - a.1);
    assert(vx * uy - vy * ux == -(ux * vy - uy * vx)) by (nonlinear_arith);
}

/// Translating all three points by the same vector keeps their orientation.
pub proof fn lemma_orientation_translation_invariant(
    a: (int, int),
    b: (int, int),
    c: (int, int),
    t: (int, int),
)
    ensures
        orient_spec((a.0 + t.0, a.1 + t.1), (b.0 + t.0, b.1 + t.1), (c.0 + t.0, c.1 + t.1))
            == orient_spec(a, b, c),
{
    assert(sub_spec((b.0 + t.0, b.1 + t.1), (a.0 + t.0, a.1 + t.1)) == sub_spec(b, a));
    assert(sub_spec((c.0 + t.0, c.1 + t.1), (a.0 + t.0, a.1 + t.1)) == sub_spec(c, a));
}

} // verus!

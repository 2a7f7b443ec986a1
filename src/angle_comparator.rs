use vstd::prelude::*;

use crate::geometry::{cross, cross_spec, dist2_spec, dot_spec, sub_spec, Point};

verus! {

/// Sweep order of points around `origin`.
#[derive(Debug, Clone, Copy, PartialEq, Eq, Structural)]
pub struct AngleComparator {
    pub origin: Point,
}

/// `a` is swept before `b` around `o`: the right half-plane (`x >= o.x`)
/// comes first; on the vertical line through `o`, points above go by
/// descending `y` and points below by ascending `y`; otherwise the sign of
/// `cross(a - o, b - o)` decides (negative: `a` first), and points on one
/// ray from `o` go nearest first.
pub open spec fn angle_less(o: (int, int), a: (int, int), b: (int, int)) -> bool {
    let a_left = a.0 < o.0;
    let b_left = b.0 < o.0;
    if a_left != b_left {
        b_left
    } else if a.0 == o.0 && b.0 == o.0 {
        if a.1 >= o.1 || b.1 >= o.1 {
            b.1 < a.1
        } else {
            a.1 < b.1
        }
    } else {
        let det = cross_spec(sub_spec(a, o), sub_spec(b, o));
        if det == 0 {
            dist2_spec(a, o) < dist2_spec(b, o)
        } else {
            det < 0
        }
    }
}

impl AngleComparator {
    /// `Less` when `a` is swept before `b`, `Greater` otherwise.
    pub fn cmp(&self, a: &Point, b: &Point) -> (r: std::cmp::Ordering)
        requires
            self.origin.in_range(),
            a.in_range(),
            b.in_range(),
        ensures
            r == (if angle_less(self.origin@, a@, b@) {
                std::cmp::Ordering::Less
            } else {
                std::cmp::Ordering::Greater
            }),
    {
        let is_a_left = a.x < self.origin.x;
        let is_b_left = b.x < self.origin.x;
        if is_a_left != is_b_left {
            return if is_b_left {
                std::cmp::Ordering::Less
            } else {
                std::cmp::Ordering::Greater
            };
        }
        if a.x == self.origin.x && b.x == self.origin.x {
            return if a.y >= self.origin.y || b.y >= self.origin.y {
                if b.y < a.y {
                    std::cmp::Ordering::Less
                } else {
                    std::cmp::Ordering::Greater
                }
            } else if a.y < b.y {
                std::cmp::Ordering::Less
            } else {
                std::cmp::Ordering::Greater
            };
        }
        let oa = a.minus(&self.origin);
        let ob = b.minus(&self.origin);
        let det = cross(oa, ob);
        if det == 0 {
            if oa.dot(&oa) < ob.dot(&ob) {
                std::cmp::Ordering::Less
            } else {
                std::cmp::Ordering::Greater
            }
        } else if det < 0 {
            std::cmp::Ordering::Less
        } else {
            std::cmp::Ordering::Greater
        }
    }
}

/// Where a vector from the origin points: 0 straight up, 1 to the right
/// half, 2 straight down, 3 to the left half.
pub open spec fn sector(p: (int, int)) -> int {
    if p.0 > 0 {
        1
    } else if p.0 < 0 {
        3
    } else if p.1 > 0 {
        0
    } else {
        2
    }
}

/// Order of two vectors of one sector.
pub open spec fn within_sector_less(p: (int, int), q: (int, int)) -> bool {
    if sector(p) == 0 {
        q.1 < p.1
    } else if sector(p) == 2 {
        p.1 < q.1
    } else {
        cross_spec(p, q) < 0 || (cross_spec(p, q) == 0 && dot_spec(p, p) < dot_spec(q, q))
    }
}

/// The sweep order read by sectors.
pub open spec fn sector_less(p: (int, int), q: (int, int)) -> bool {
    sector(p) < sector(q) || (sector(p) == sector(q) && within_sector_less(p, q))
}

proof fn lemma_angle_less_by_sector(o: (int, int), a: (int, int), b: (int, int))
    requires
        a != o,
        b != o,
    ensures
        angle_less(o, a, b) == sector_less(sub_spec(a, o), sub_spec(b, o)),
{
    let p = sub_spec(a, o);
    let q = sub_spec(b, o);
    assert(dist2_spec(a, o) == dot_spec(p, p));
    assert(dist2_spec(b, o) == dot_spec(q, q));
    if p.0 == 0 && p.1 > 0 && q.0 > 0 {
        assert(cross_spec(p, q) < 0) by (nonlinear_arith)
            requires
                p.0 == 0,
                p.1 > 0,
                q.0 > 0,
        ;
    }
    if q.0 == 0 && q.1 > 0 && p.0 > 0 {
        assert(cross_spec(p, q) > 0) by (nonlinear_arith)
            requires
                q.0 == 0,
                q.1 > 0,
                p.0 > 0,
        ;
    }
    if p.0 == 0 && p.1 < 0 && q.0 > 0 {
        assert(cross_spec(p, q) > 0) by (nonlinear_arith)
            requires
                p.0 == 0,
                p.1 < 0,
                q.0 > 0,
        ;
    }
    if q.0 == 0 && q.1 < 0 && p.0 > 0 {
        assert(cross_spec(p, q) < 0) by (nonlinear_arith)
            requires
                q.0 == 0,
                q.1 < 0,
                p.0 > 0,
        ;
    }
}

/// `b.x * cross(a, c) == a.x * cross(b, c) + c.x * cross(a, b)`.
proof fn lemma_cross_identity(a: (int, int), b: (int, int), c: (int, int))
    ensures
        b.0 * cross_spec(a, c) == a.0 * cross_spec(b, c) + c.0 * cross_spec(a, b),
{
    assert(b.0 * (a.0 * c.1 - a.1 * c.0) == a.0 * (b.0 * c.1 - b.1 * c.0) + c.0 * (a.0 * b.1
        - a.1 * b.0)) by (nonlinear_arith);
}

/// Two vectors of one open half-plane, on one line and of one length, are equal.
proof fn lemma_same_direction_same_length(p: (int, int), q: (int, int))
    requires
        (p.0 > 0 && q.0 > 0) || (p.0 < 0 && q.0 < 0),
        cross_spec(p, q) == 0,
        dot_spec(p, p) == dot_spec(q, q),
    ensures
        p == q,
{
    // p.0^2 * |q|^2 == q.0^2 * |p|^2, so p.0^2 == q.0^2
    assert(p.0 * p.0 * dot_spec(q, q) == q.0 * q.0 * dot_spec(p, p)) by (nonlinear_arith)
        requires
            p.0 * q.1 == p.1 * q.0,
    ;
    assert(dot_spec(p, p) > 0) by (nonlinear_arith)
        requires
            p.0 != 0,
    ;
    assert(p.0 * p.0 == q.0 * q.0) by (nonlinear_arith)
        requires
            p.0 * p.0 * dot_spec(q, q) == q.0 * q.0 * dot_spec(p, p),
            dot_spec(p, p) == dot_spec(q, q),
            dot_spec(p, p) > 0,
    ;
    assert(p.0 == q.0) by (nonlinear_arith)
        requires
            p.0 * p.0 == q.0 * q.0,
            (p.0 > 0 && q.0 > 0) || (p.0 < 0 && q.0 < 0),
    ;
    assert(p.1 == q.1) by (nonlinear_arith)
        requires
            p.0 * q.1 == p.1 * q.0,
            p.0 == q.0,
            p.0 != 0,
    ;
}

proof fn lemma_sector_transitive(p: (int, int), q: (int, int), r: (int, int))
    requires
        sector_less(p, q),
        sector_less(q, r),
    ensures
        sector_less(p, r),
{
    if sector(p) == sector(q) && sector(q) == sector(r) && (sector(p) == 1 || sector(p) == 3) {
        lemma_cross_identity(p, q, r);
        let x = cross_spec(q, r);
        let y = cross_spec(p, q);
        if x == 0 && y == 0 {
            assert(cross_spec(p, r) == 0) by (nonlinear_arith)
                requires
                    q.0 * cross_spec(p, r) == p.0 * x + r.0 * y,
                    x == 0,
                    y == 0,
                    q.0 != 0,
            ;
        } else if sector(p) == 1 {
            assert(cross_spec(p, r) < 0) by (nonlinear_arith)
                requires
                    q.0 * cross_spec(p, r) == p.0 * x + r.0 * y,
                    x <= 0,
                    y <= 0,
                    x < 0 || y < 0,
                    p.0 > 0,
                    q.0 > 0,
                    r.0 > 0,
            ;
        } else {
            assert(cross_spec(p, r) < 0) by (nonlinear_arith)
                requires
                    q.0 * cross_spec(p, r) == p.0 * x + r.0 * y,
                    x <= 0,
                    y <= 0,
                    x < 0 || y < 0,
                    p.0 < 0,
                    q.0 < 0,
                    r.0 < 0,
            ;
        }
    }
}

/// The sweep order never puts a point before itself.
pub proof fn lemma_angle_irreflexive(o: (int, int), a: (int, int))
    ensures
        !angle_less(o, a, a),
{
}

/// The sweep order never puts each of two points before the other.
pub proof fn lemma_angle_asymmetric(o: (int, int), a: (int, int), b: (int, int))
    requires
        a != o,
        b != o,
        angle_less(o, a, b),
    ensures
        !angle_less(o, b, a),
{
    lemma_angle_less_by_sector(o, a, b);
    lemma_angle_less_by_sector(o, b, a);
    let p = sub_spec(a, o);
    let q = sub_spec(b, o);
    assert(cross_spec(q, p) == -cross_spec(p, q));
}

/// The sweep order is transitive on points other than the origin.
pub proof fn lemma_angle_transitive(o: (int, int), a: (int, int), b: (int, int), c: (int, int))
    requires
        a != o,
        b != o,
        c != o,
        angle_less(o, a, b),
        angle_less(o, b, c),
    ensures
        angle_less(o, a, c),
{
    lemma_angle_less_by_sector(o, a, b);
    lemma_angle_less_by_sector(o, b, c);
    lemma_angle_less_by_sector(o, a, c);
    lemma_sector_transitive(sub_spec(a, o), sub_spec(b, o), sub_spec(c, o));
}

/// Of two distinct points other than the origin, one is swept first.
pub proof fn lemma_angle_total(o: (int, int), a: (int, int), b: (int, int))
    requires
        a != o,
        b != o,
        a != b,
    ensures
        angle_less(o, a, b) || angle_less(o, b, a),
{
    lemma_angle_less_by_sector(o, a, b);
    lemma_angle_less_by_sector(o, b, a);
    let p = sub_spec(a, o);
    let q = sub_spec(b, o);
    assert(cross_spec(q, p) == -cross_spec(p, q));
    if sector(p) == sector(q) && (sector(p) == 1 || sector(p) == 3) && cross_spec(p, q) == 0
        && dot_spec(p, p) == dot_spec(q, q) {
        lemma_same_direction_same_length(p, q);
    }
}

} // verus!

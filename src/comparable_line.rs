use vstd::prelude::*;

use crate::geometry::{approx_equal, dist2_spec, sub_spec, Line, Point};
use crate::orientation::{lemma_orient_cyclic, lemma_orient_swap, orient_spec, Orientation};

verus! {

/// A segment seen from `origin`, ordered by nearness to it.
#[derive(Debug, Clone, Copy, PartialEq, Eq, Structural)]
pub struct ComparableLine {
    pub origin: Point,
    pub line: Line,
}

/// The segment does not lie on a line through `o`.
pub open spec fn sees_segment(o: Point, s: Line) -> bool {
    orient_spec(o@, s.start@, s.end@) != Orientation::Collinear
}

/// How segment `s1` compares with `s2` in nearness to `o`.
///
/// The endpoints are first reordered so that a shared endpoint comes first in
/// both (`a == c`). With a shared endpoint: equal far endpoints make the
/// segments equal; far endpoints on opposite sides of the line `o a` make
/// `s1` farther; otherwise `s1` is nearer exactly when `d` and `o` lie on
/// different sides of the line `a b`. Without one: when `a` and `b` both lie
/// on the line `c d`, the segment whose first endpoint is nearer to `o` is
/// nearer; when `a`, `b` do not straddle that line, `s1` is nearer exactly
/// when `o` lies on their side; otherwise `s1` is nearer exactly when `o` and
/// `c` lie on different sides of the line `a b`.
pub open spec fn segment_cmp(o: Point, s1: Line, s2: Line) -> std::cmp::Ordering {
    let (a, b) = if s1.end == s2.start || s1.end == s2.end {
        (s1.end, s1.start)
    } else {
        (s1.start, s1.end)
    };
    let (c, d) = if a == s2.end {
        (s2.end, s2.start)
    } else {
        (s2.start, s2.end)
    };
    if a == c {
        if b == d {
            std::cmp::Ordering::Equal
        } else if orient_spec(o@, a@, d@) != orient_spec(o@, a@, b@) {
            std::cmp::Ordering::Greater
        } else if orient_spec(a@, b@, d@) != orient_spec(a@, b@, o@) {
            std::cmp::Ordering::Less
        } else {
            std::cmp::Ordering::Greater
        }
    } else {
        let cda = orient_spec(c@, d@, a@);
        let cdb = orient_spec(c@, d@, b@);
        if cdb == Orientation::Collinear && cda == Orientation::Collinear {
            if dist2_spec(o@, a@) < dist2_spec(o@, c@) {
                std::cmp::Ordering::Less
            } else {
                std::cmp::Ordering::Greater
            }
        } else if cda == cdb || cda == Orientation::Collinear || cdb == Orientation::Collinear {
            let cdo = orient_spec(c@, d@, o@);
            if cdo == cda || cdo == cdb {
                std::cmp::Ordering::Less
            } else {
                std::cmp::Ordering::Greater
            }
        } else if orient_spec(a@, b@, o@) != orient_spec(a@, b@, c@) {
            std::cmp::Ordering::Less
        } else {
            std::cmp::Ordering::Greater
        }
    }
}

impl ComparableLine {
    pub fn new(origin: Point, line: Line) -> (r: ComparableLine)
        ensures
            r.origin == origin,
            r.line == line,
    {
        ComparableLine { origin, line }
    }

    pub open spec fn in_range(self) -> bool {
        self.origin.in_range() && self.line.in_range()
    }

    /// The same comparison wrapped in `Some`, as `PartialOrd` gives it.
    ///
    /// Neither segment may lie on a line through the origin.
    pub fn partial_cmp(&self, other: &ComparableLine) -> (r: Option<std::cmp::Ordering>)
        requires
            self.in_range(),
            other.line.in_range(),
            sees_segment(self.origin, self.line),
            sees_segment(self.origin, other.line),
        ensures
            r == Some(segment_cmp(self.origin, self.line, other.line)),
    {
        Some(self.cmp(other))
    }

    /// Nearness to `self.origin`: `Less` when `self` is nearer than `other`.
    ///
    /// Neither segment may lie on a line through the origin.
    pub fn cmp(&self, other: &ComparableLine) -> (r: std::cmp::Ordering)
        requires
            self.in_range(),
            other.line.in_range(),
            sees_segment(self.origin, self.line),
            sees_segment(self.origin, other.line),
        ensures
            r == segment_cmp(self.origin, self.line, other.line),
    {
        let o = self.origin;
        let (a, b) = (self.line.start, self.line.end);
        let (c, d) = (other.line.start, other.line.end);
        let (a, b) = if approx_equal(&b, &c) || approx_equal(&b, &d) {
            (b, a)
        } else {
            (a, b)
        };
        let (c, d) = if approx_equal(&a, &d) {
            (d, c)
        } else {
            (c, d)
        };
        if approx_equal(&a, &c) {
            return if approx_equal(&b, &d) {
                std::cmp::Ordering::Equal
            } else if Orientation::from(o, a, d) != Orientation::from(o, a, b) {
                std::cmp::Ordering::Greater
            } else if Orientation::from(a, b, d) != Orientation::from(a, b, o) {
                std::cmp::Ordering::Less
            } else {
                std::cmp::Ordering::Greater
            };
        }
        let cda = Orientation::from(c, d, a);
        let cdb = Orientation::from(c, d, b);
        if cdb == Orientation::Collinear && cda == Orientation::Collinear {
            let oa = o.minus(&a);
            let oc = o.minus(&c);
            if oa.dot(&oa) < oc.dot(&oc) {
                std::cmp::Ordering::Less
            } else {
                std::cmp::Ordering::Greater
            }
        } else if cda == cdb || cda == Orientation::Collinear || cdb == Orientation::Collinear {
            let cdo = Orientation::from(c, d, o);
            if cdo == cda || cdo == cdb {
                std::cmp::Ordering::Less
            } else {
                std::cmp::Ordering::Greater
            }
        } else if Orientation::from(a, b, o) != Orientation::from(a, b, c) {
            std::cmp::Ordering::Less
        } else {
            std::cmp::Ordering::Greater
        }
    }
}

/// A segment that `o` sees compares equal to itself, run either way, so it is
/// never nearer than itself.
pub proof fn lemma_segment_cmp_irreflexive(o: Point, s: Line)
    requires
        sees_segment(o, s),
    ensures
        segment_cmp(o, s, s) == std::cmp::Ordering::Equal,
        segment_cmp(o, s, s.reversed()) == std::cmp::Ordering::Equal,
{
    if s.start == s.end {
        let u = sub_spec(s.end@, o@);
        assert(u.0 * u.1 - u.1 * u.0 == 0) by (nonlinear_arith);
        assert(orient_spec(o@, s.start@, s.end@) == Orientation::Collinear);
    }
}

/// Of two segments that `o` sees, that share an endpoint and do not lie on
/// one line, at most one is nearer than the other.
pub proof fn lemma_segment_cmp_asymmetric_shared_endpoint(o: Point, s1: Line, s2: Line)
    requires
        sees_segment(o, s1),
        sees_segment(o, s2),
        s1.start == s2.start || s1.start == s2.end || s1.end == s2.start || s1.end == s2.end,
        orient_spec(s1.start@, s1.end@, s2.start@) != Orientation::Collinear || orient_spec(
            s1.start@,
            s1.end@,
            s2.end@,
        ) != Orientation::Collinear,
        segment_cmp(o, s1, s2) == std::cmp::Ordering::Less,
    ensures
        segment_cmp(o, s2, s1) != std::cmp::Ordering::Less,
{
    let (a, b) = (s1.start, s1.end);
    let (c, d) = (s2.start, s2.end);
    lemma_orient_swap(o@, a@, b@);
    lemma_orient_swap(o@, c@, d@);
    lemma_orient_swap(a@, b@, c@);
    lemma_orient_swap(a@, b@, d@);
    lemma_orient_cyclic(a@, b@, c@);
    lemma_orient_cyclic(a@, b@, d@);
    lemma_orient_cyclic(b@, a@, c@);
    lemma_orient_cyclic(b@, a@, d@);
    lemma_orient_swap(b@, a@, c@);
    lemma_orient_swap(b@, a@, d@);
    lemma_orient_swap(c@, d@, a@);
    lemma_orient_swap(c@, d@, b@);
    lemma_orient_swap(d@, c@, a@);
    lemma_orient_swap(d@, c@, b@);
    lemma_orient_cyclic(o@, a@, b@);
    lemma_orient_cyclic(o@, b@, a@);
    lemma_orient_cyclic(o@, c@, d@);
    lemma_orient_cyclic(o@, d@, c@);
    lemma_orient_cyclic(a@, o@, b@);
    lemma_orient_cyclic(b@, o@, a@);
    lemma_orient_cyclic(c@, o@, d@);
    lemma_orient_cyclic(d@, o@, c@);
}

/// Of two segments that `o` sees, where the first has its endpoints on
/// opposite sides of the second's line and the second lies strictly on one
/// side of the first's line (so they do not cross), exactly one is nearer.
pub proof fn lemma_segment_cmp_total_straddling(o: Point, s1: Line, s2: Line)
    requires
        sees_segment(o, s1),
        sees_segment(o, s2),
        orient_spec(s2.start@, s2.end@, s1.start@) != Orientation::Collinear,
        orient_spec(s2.start@, s2.end@, s1.end@) != Orientation::Collinear,
        orient_spec(s2.start@, s2.end@, s1.start@) != orient_spec(s2.start@, s2.end@, s1.end@),
        orient_spec(s1.start@, s1.end@, s2.start@) != Orientation::Collinear,
        orient_spec(s1.start@, s1.end@, s2.start@) == orient_spec(s1.start@, s1.end@, s2.end@),
    ensures
        (segment_cmp(o, s1, s2) == std::cmp::Ordering::Less) != (segment_cmp(o, s2, s1)
            == std::cmp::Ordering::Less),
{
    let (a, b) = (s1.start, s1.end);
    let (c, d) = (s2.start, s2.end);
    // no endpoint is shared: each endpoint of one is off the other's line
    if a == c || a == d || b == c || b == d {
        let u = sub_spec(d@, c@);
        let v = sub_spec(c@, a@);
        assert(u.0 * u.1 - u.1 * u.0 == 0) by (nonlinear_arith);
        assert(v.0 * v.1 - v.1 * v.0 == 0) by (nonlinear_arith);
        assert(orient_spec(c@, d@, c@) == Orientation::Collinear);
        assert(orient_spec(c@, d@, d@) == Orientation::Collinear);
    }
}

} // verus!

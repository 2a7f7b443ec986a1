use vstd::prelude::*;

verus! {

/// Largest absolute value of a coordinate of an input point.
///
/// The bound keeps every product the sweep forms, including the rational
/// intersection points and the orientation test on them, inside `i128`.
pub const COORD_LIMIT: i64 = 8192;

/// A point of the plane with integer coordinates.
#[derive(Debug, Clone, Copy, PartialEq, Eq, Structural)]
pub struct Point {
    pub x: i64,
    pub y: i64,
}

/// A segment from `start` to `end`; the direction tells the inside of a ring.
#[derive(Debug, Clone, Copy, PartialEq, Eq, Structural)]
pub struct Line {
    pub start: Point,
    pub end: Point,
}

/// A point with rational coordinates `(x / w, y / w)`, `w > 0`.
///
/// Sweep output vertices are either input points (`w == 1`) or the crossing
/// of a ray with a segment, whose coordinates are fractions.
#[derive(Debug, Clone, Copy, PartialEq, Eq, Structural)]
pub struct Vertex {
    pub x: i128,
    pub y: i128,
    pub w: i128,
}

impl View for Point {
    type V = (int, int);

    open spec fn view(&self) -> (int, int) {
        (self.x as int, self.y as int)
    }
}

/// 2-D cross product of two vectors.
pub open spec fn cross_spec(u: (int, int), v: (int, int)) -> int {
    u.0 * v.1 - u.1 * v.0
}

/// Dot product of two vectors.
pub open spec fn dot_spec(u: (int, int), v: (int, int)) -> int {
    u.0 * v.0 + u.1 * v.1
}

/// Difference `p - q`.
pub open spec fn sub_spec(p: (int, int), q: (int, int)) -> (int, int) {
    (p.0 - q.0, p.1 - q.1)
}

/// Squared euclidean distance between two points.
pub open spec fn dist2_spec(p: (int, int), q: (int, int)) -> int {
    dot_spec(sub_spec(p, q), sub_spec(p, q))
}

/// Every coordinate fits the bound [`COORD_LIMIT`].
pub open spec fn coord_ok(v: int) -> bool {
    -COORD_LIMIT <= v <= COORD_LIMIT
}

/// A vector that is the difference of two points in range.
pub open spec fn delta_ok(v: int) -> bool {
    -2 * COORD_LIMIT <= v <= 2 * COORD_LIMIT
}

impl Point {
    pub open spec fn in_range(self) -> bool {
        coord_ok(self.x as int) && coord_ok(self.y as int)
    }

    pub open spec fn is_delta(self) -> bool {
        delta_ok(self.x as int) && delta_ok(self.y as int)
    }

    pub fn new(x: i64, y: i64) -> (r: Point)
        ensures
            r.x == x,
            r.y == y,
    {
        Point { x, y }
    }

    /// Whether both coordinates are within [`COORD_LIMIT`].
    pub fn within_limit(&self) -> (r: bool)
        ensures
            r == self.in_range(),
    {
        -COORD_LIMIT <= self.x && self.x <= COORD_LIMIT && -COORD_LIMIT <= self.y && self.y
            <= COORD_LIMIT
    }

    /// The vector `self - other`.
    pub fn minus(&self, other: &Point) -> (r: Point)
        requires
            self.in_range(),
            other.in_range(),
        ensures
            r@ == sub_spec(self@, other@),
            r.is_delta(),
    {
        Point { x: self.x - other.x, y: self.y - other.y }
    }

    /// Dot product of two vectors.
    pub fn dot(&self, other: &Point) -> (r: i64)
        requires
            self.is_delta(),
            other.is_delta(),
        ensures
            r == dot_spec(self@, other@),
    {
        proof {
            lemma_delta_product(self.x as int, other.x as int);
            lemma_delta_product(self.y as int, other.y as int);
        }
        self.x * other.x + self.y * other.y
    }
}

impl Line {
    pub fn new(start: Point, end: Point) -> (r: Line)
        ensures
            r.start == start,
            r.end == end,
    {
        Line { start, end }
    }

    pub open spec fn in_range(self) -> bool {
        self.start.in_range() && self.end.in_range()
    }

    /// The same segment run the other way.
    pub open spec fn reversed(self) -> Line {
        Line { start: self.end, end: self.start }
    }
}

impl Vertex {
    /// Bounds met by every vertex the sweep emits.
    pub open spec fn wf(self) -> bool {
        0 < self.w <= 0x4000_0000 && -0x2000_0000_0000 <= self.x <= 0x2000_0000_0000
            && -0x2000_0000_0000 <= self.y <= 0x2000_0000_0000
    }

    /// The vertex stands at the integer point `p`.
    pub open spec fn at(self, p: Point) -> bool {
        self.x == p.x * self.w && self.y == p.y * self.w
    }

    /// The vertex standing at an input point.
    pub fn from_point(p: Point) -> (r: Vertex)
        ensures
            r == (Vertex { x: p.x as i128, y: p.y as i128, w: 1 }),
            r.at(p),
    {
        Vertex { x: p.x as i128, y: p.y as i128, w: 1 }
    }

    /// Whether the vertex stands exactly at the integer point `p`.
    pub fn is_at(&self, p: &Point) -> (r: bool)
        requires
            self.wf(),
        ensures
            r == self.at(*p),
    {
        proof {
            lemma_vertex_scale(p.x as int, self.w as int);
            lemma_vertex_scale(p.y as int, self.w as int);
        }
        self.x == (p.x as i128) * self.w && self.y == (p.y as i128) * self.w
    }
}

pub proof fn lemma_delta_product(a: int, b: int)
    requires
        delta_ok(a),
        delta_ok(b),
    ensures
        -0x1000_0000 <= a * b <= 0x1000_0000,
{
    assert(-0x1000_0000 <= a * b <= 0x1000_0000) by (nonlinear_arith)
        requires
            -0x4000 <= a <= 0x4000,
            -0x4000 <= b <= 0x4000,
    ;
}

proof fn lemma_vertex_scale(a: int, w: int)
    requires
        -0x8000_0000_0000_0000 <= a < 0x8000_0000_0000_0000,
        0 < w <= 0x4000_0000,
    ensures
        -0x1000_0000_0000_0000_0000_0000_0000 <= a * w <= 0x1000_0000_0000_0000_0000_0000_0000,
{
    assert(-0x1000_0000_0000_0000_0000_0000_0000 <= a * w
        <= 0x1000_0000_0000_0000_0000_0000_0000) by (nonlinear_arith)
        requires
            -0x8000_0000_0000_0000 <= a < 0x8000_0000_0000_0000,
            0 < w <= 0x4000_0000,
    ;
}

/// 2-D cross product of two vectors.
pub fn cross(a: Point, b: Point) -> (r: i64)
    requires
        a.is_delta(),
        b.is_delta(),
    ensures
        r == cross_spec(a@, b@),
        -0x2000_0000 <= r <= 0x2000_0000,
{
    proof {
        lemma_delta_product(a.x as int, b.y as int);
        lemma_delta_product(a.y as int, b.x as int);
    }
    a.x * b.y - a.y * b.x
}

/// Whether two points coincide (exactly, as coordinates are integers).
pub fn approx_equal(a: &Point, b: &Point) -> (r: bool)
    ensures
        r == (a == b),
{
    a.x == b.x && a.y == b.y
}

} // verus!

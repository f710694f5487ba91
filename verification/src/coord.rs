//! Coordinates and line segments on the exact integer grid.

use vstd::prelude::*;

verus! {

/// Largest coordinate magnitude the library accepts.
///
/// With coordinates bounded by this value every intermediate product used by
/// the exact predicates (orientation tests, intersection points) fits in
/// `i128` with a wide margin.
pub const MAX_COORD: i64 = 100_000_000;

/// Bound on the magnitude of an orientation value over well-formed
/// coordinates.
pub const MAX_CROSS: i128 = 80_000_000_000_000_000;

/// A coordinate on the integer grid.
#[derive(Clone, Copy, Debug, PartialEq, Eq, Structural, Hash)]
pub struct Coord {
    pub x: i64,
    pub y: i64,
}

impl DeepView for Coord {
    type V = Coord;

    open spec fn deep_view(&self) -> Coord {
        *self
    }
}

impl Coord {
    /// Whether both components are within the accepted grid.
    pub open spec fn wf(self) -> bool {
        -MAX_COORD <= self.x <= MAX_COORD && -MAX_COORD <= self.y <= MAX_COORD
    }

    pub fn new(x: i64, y: i64) -> (c: Coord)
        ensures
            c.x == x,
            c.y == y,
    {
        Coord { x, y }
    }

    /// Whether both components are within the accepted grid, decided at run time.
    pub fn in_bounds(&self) -> (r: bool)
        ensures
            r == self.wf(),
    {
        -MAX_COORD <= self.x && self.x <= MAX_COORD && -MAX_COORD <= self.y && self.y <= MAX_COORD
    }
}

/// The cross product of `b - a` and `c - a`.
///
/// Positive when `c` lies to the left of the directed line `a -> b`,
/// negative to the right, zero when the three points are collinear.
pub open spec fn spec_cross(a: Coord, b: Coord, c: Coord) -> int {
    (b.x - a.x) * (c.y - a.y) - (b.y - a.y) * (c.x - a.x)
}

/// Exact orientation test.
pub fn cross(a: Coord, b: Coord, c: Coord) -> (r: i128)
    requires
        a.wf(),
        b.wf(),
        c.wf(),
    ensures
        r == spec_cross(a, b, c),
        -MAX_CROSS <= r <= MAX_CROSS,
{
    let bax: i128 = b.x as i128 - a.x as i128;
    let bay: i128 = b.y as i128 - a.y as i128;
    let cax: i128 = c.x as i128 - a.x as i128;
    let cay: i128 = c.y as i128 - a.y as i128;
    assert(bax * cay - bay * cax == spec_cross(a, b, c)) by (nonlinear_arith)
        requires
            bax == b.x - a.x,
            bay == b.y - a.y,
            cax == c.x - a.x,
            cay == c.y - a.y,
    ;
    assert(-40_000_000_000_000_000i128 <= bax * cay <= 40_000_000_000_000_000i128)
        by (nonlinear_arith)
        requires
            -200_000_000 <= bax <= 200_000_000,
            -200_000_000 <= cay <= 200_000_000,
    ;
    assert(-40_000_000_000_000_000i128 <= bay * cax <= 40_000_000_000_000_000i128)
        by (nonlinear_arith)
        requires
            -200_000_000 <= bay <= 200_000_000,
            -200_000_000 <= cax <= 200_000_000,
    ;
    bax * cay - bay * cax
}

/// Three points on one line.
pub open spec fn collinear(a: Coord, b: Coord, c: Coord) -> bool {
    spec_cross(a, b, c) == 0
}

/// Strict lexicographic order on coordinates: `x` first, ties broken by `y`.
pub open spec fn lex_lt(p: Coord, q: Coord) -> bool {
    p.x < q.x || (p.x == q.x && p.y < q.y)
}

/// Lexicographic order on coordinates, allowing equality.
pub open spec fn lex_le(p: Coord, q: Coord) -> bool {
    lex_lt(p, q) || p == q
}

/// Run-time strict lexicographic comparison.
pub fn lex_lt_exec(p: Coord, q: Coord) -> (r: bool)
    ensures
        r == lex_lt(p, q),
{
    p.x < q.x || (p.x == q.x && p.y < q.y)
}

/// `r` lies within the axis-aligned bounding box spanned by `p` and `q`.
pub open spec fn in_box(p: Coord, q: Coord, r: Coord) -> bool {
    &&& if p.x <= q.x {
        p.x <= r.x <= q.x
    } else {
        q.x <= r.x <= p.x
    }
    &&& if p.y <= q.y {
        p.y <= r.y <= q.y
    } else {
        q.y <= r.y <= p.y
    }
}

/// Run-time bounding-box membership.
pub fn in_box_exec(p: Coord, q: Coord, r: Coord) -> (res: bool)
    ensures
        res == in_box(p, q, r),
{
    let x_ok: bool = if p.x <= q.x {
        p.x <= r.x && r.x <= q.x
    } else {
        q.x <= r.x && r.x <= p.x
    };
    let y_ok: bool = if p.y <= q.y {
        p.y <= r.y && r.y <= q.y
    } else {
        q.y <= r.y && r.y <= p.y
    };
    x_ok && y_ok
}

/// A line segment with two distinct endpoints.
#[derive(Clone, Copy, Debug, PartialEq, Eq, Structural, Hash)]
pub struct Segment {
    pub a: Coord,
    pub b: Coord,
}

impl Segment {
    pub open spec fn wf(self) -> bool {
        self.a.wf() && self.b.wf() && self.a != self.b
    }

    pub fn new(a: Coord, b: Coord) -> (s: Segment)
        ensures
            s.a == a,
            s.b == b,
    {
        Segment { a, b }
    }

    /// `p` lies on this segment (endpoints included).
    pub open spec fn spec_contains_coord(self, p: Coord) -> bool {
        collinear(self.a, self.b, p) && in_box(self.a, self.b, p)
    }

    /// Run-time point-on-segment test.
    pub fn contains_coord(&self, p: Coord) -> (r: bool)
        requires
            self.a.wf(),
            self.b.wf(),
            p.wf(),
        ensures
            r == self.spec_contains_coord(p),
    {
        cross(self.a, self.b, p) == 0 && in_box_exec(self.a, self.b, p)
    }

    /// Every point of `other` lies on this segment.
    pub open spec fn spec_contains_segment(self, other: Segment) -> bool {
        self.spec_contains_coord(other.a) && self.spec_contains_coord(other.b)
    }

    /// Run-time segment-in-segment test.
    ///
    /// For segments, containment of both endpoints is equivalent to
    /// containment of the whole segment, because a segment is the convex hull
    /// of its endpoints.
    pub fn contains_segment(&self, other: &Segment) -> (r: bool)
        requires
            self.a.wf(),
            self.b.wf(),
            other.a.wf(),
            other.b.wf(),
        ensures
            r == self.spec_contains_segment(*other),
    {
        self.contains_coord(other.a) && self.contains_coord(other.b)
    }
}

} // verus!

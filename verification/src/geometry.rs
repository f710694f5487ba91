//! Geometry primitives: points, linestrings, polygons, their multi-part
//! variants, and the helpers that flatten and explode collections of them.

use vstd::prelude::*;

use crate::coord::{Coord, Segment};
use crate::rat::{spec_sweep_of_coord, SweepPoint};

verus! {

/// A single point.
#[derive(Clone, Copy, Debug, PartialEq, Eq, Structural)]
pub struct Point {
    pub coord: Coord,
}

impl Point {
    pub open spec fn wf(self) -> bool {
        self.coord.wf()
    }

    pub fn new(coord: Coord) -> (p: Point)
        ensures
            p.coord == coord,
    {
        Point { coord }
    }
}

/// An ordered run of at least two coordinates with no immediate repetition.
#[derive(Debug)]
pub struct LineString {
    pub coords: Vec<Coord>,
}

impl View for LineString {
    type V = Seq<Coord>;

    open spec fn view(&self) -> Seq<Coord> {
        self.coords@
    }
}

/// Well-formedness of a linestring as a coordinate sequence: at least two
/// coordinates, all on the accepted grid, consecutive coordinates distinct.
pub open spec fn ls_wf(c: Seq<Coord>) -> bool {
    &&& c.len() >= 2
    &&& forall|i: int| 0 <= i < c.len() ==> (#[trigger] c[i]).wf()
    &&& forall|i: int| 0 <= i < c.len() - 1 ==> #[trigger] c[i] != c[i + 1]
}

/// A linestring is closed when its first and last coordinates coincide and it
/// has at least four coordinates.
pub open spec fn ls_closed(c: Seq<Coord>) -> bool {
    c.len() >= 4 && c[0] == c[c.len() - 1]
}

/// The constituent segments of a coordinate run.
pub open spec fn ls_segments(c: Seq<Coord>) -> Seq<Segment> {
    Seq::new((c.len() - 1) as nat, |k: int| Segment { a: c[k], b: c[k + 1] })
}

impl LineString {
    pub open spec fn wf(self) -> bool {
        ls_wf(self@)
    }

    /// Wrap a coordinate vector; `None` when it does not form a linestring.
    pub fn from_coords(coords: Vec<Coord>) -> (r: Option<LineString>)
        ensures
            r is Some <==> ls_wf(coords@),
            r is Some ==> r->0@ == coords@,
    {
        if coords.len() < 2 {
            return None;
        }
        let mut i: usize = 0;
        while i < coords.len()
            invariant
                0 <= i <= coords@.len(),
                forall|k: int| 0 <= k < i ==> (#[trigger] coords@[k]).wf(),
                forall|k: int|
                    0 <= k < i && k + 1 < coords@.len() ==> #[trigger] coords@[k] != coords@[k
                        + 1],
                coords@.len() >= 2,
            decreases coords@.len() - i,
        {
            if !coords[i].in_bounds() {
                return None;
            }
            if i + 1 < coords.len() && coords[i] == coords[i + 1] {
                return None;
            }
            i = i + 1;
        }
        Some(LineString { coords })
    }

    /// The two-coordinate linestring of a segment.
    pub fn from_segment(s: &Segment) -> (r: LineString)
        ensures
            r@ == seq![s.a, s.b],
            s.wf() ==> r.wf(),
    {
        let mut coords: Vec<Coord> = Vec::new();
        coords.push(s.a);
        coords.push(s.b);
        proof {
            assert(coords@ =~= seq![s.a, s.b]);
        }
        LineString { coords }
    }

    /// First coordinate.
    pub fn first(&self) -> (c: Coord)
        requires
            self@.len() >= 1,
        ensures
            c == self@[0],
    {
        self.coords[0]
    }

    /// Last coordinate.
    pub fn last(&self) -> (c: Coord)
        requires
            self@.len() >= 1,
        ensures
            c == self@[self@.len() - 1],
    {
        self.coords[self.coords.len() - 1]
    }

    /// Whether the linestring is closed.
    pub fn is_closed(&self) -> (r: bool)
        requires
            self@.len() >= 1,
        ensures
            r == ls_closed(self@),
    {
        self.coords.len() >= 4 && self.coords[0] == self.coords[self.coords.len() - 1]
    }

    /// The constituent segments.
    pub fn segments(&self) -> (r: Vec<Segment>)
        requires
            self@.len() >= 1,
        ensures
            r@ == ls_segments(self@),
    {
        let mut r: Vec<Segment> = Vec::new();
        let n: usize = self.coords.len() - 1;
        let mut i: usize = 0;
        while i < n
            invariant
                n == self@.len() - 1,
                0 <= i <= n,
                r@.len() == i,
                forall|k: int| 0 <= k < i ==> r@[k] == (Segment { a: self@[k], b: self@[k + 1] }),
            decreases self@.len() - i,
        {
            r.push(Segment { a: self.coords[i], b: self.coords[i + 1] });
            i = i + 1;
        }
        proof {
            assert(r@ =~= ls_segments(self@));
        }
        r
    }

    /// Whether a grid coordinate lies somewhere on the linestring.
    pub fn touches_coord(&self, c: Coord) -> (r: bool)
        requires
            self.wf(),
            c.wf(),
        ensures
            r == ls_touches(self@, c),
    {
        let n: usize = self.coords.len() - 1;
        let mut i: usize = 0;
        while i < n
            invariant
                self.wf(),
                c.wf(),
                n == self@.len() - 1,
                0 <= i <= n,
                forall|k: int|
                    0 <= k < i ==> !(#[trigger] ls_segments(self@)[k]).spec_contains_coord(c),
            decreases self@.len() - i,
        {
            let s = Segment { a: self.coords[i], b: self.coords[i + 1] };
            assert(s == ls_segments(self@)[i as int]);
            if s.contains_coord(c) {
                return true;
            }
            i = i + 1;
        }
        false
    }
}

/// A grid coordinate lies on one of the linestring's segments.
pub open spec fn ls_touches(c: Seq<Coord>, p: Coord) -> bool {
    exists|k: int|
        0 <= k < ls_segments(c).len() && (#[trigger] ls_segments(c)[k]).spec_contains_coord(p)
}

/// Copy a coordinate vector.
pub fn clone_coord_vec(v: &Vec<Coord>) -> (r: Vec<Coord>)
    ensures
        r@ == v@,
{
    let mut r: Vec<Coord> = Vec::new();
    let mut i: usize = 0;
    while i < v.len()
        invariant
            0 <= i <= v@.len(),
            r@ == v@.take(i as int),
        decreases v@.len() - i,
    {
        r.push(v[i]);
        proof {
            assert(r@ =~= v@.take(i + 1));
        }
        i = i + 1;
    }
    proof {
        assert(v@.take(v@.len() as int) =~= v@);
    }
    r
}

impl Clone for LineString {
    fn clone(&self) -> (r: LineString)
        ensures
            r@ == self@,
    {
        LineString { coords: clone_coord_vec(&self.coords) }
    }
}

impl PartialEq for LineString {
    fn eq(&self, other: &LineString) -> (r: bool) {
        if self.coords.len() != other.coords.len() {
            return false;
        }
        let mut i: usize = 0;
        while i < self.coords.len()
            invariant
                self@.len() == other@.len(),
                0 <= i <= self@.len(),
                forall|k: int| 0 <= k < i ==> self@[k] == other@[k],
            decreases self@.len() - i,
        {
            if self.coords[i] != other.coords[i] {
                return false;
            }
            i = i + 1;
        }
        proof {
            assert(self@ =~= other@);
        }
        true
    }
}

impl vstd::std_specs::cmp::PartialEqSpecImpl for LineString {
    open spec fn obeys_eq_spec() -> bool {
        true
    }

    open spec fn eq_spec(&self, other: &LineString) -> bool {
        self@ == other@
    }
}

impl Eq for LineString {

}

/// A polygon: one exterior ring and any number of interior rings (holes).
#[derive(Debug)]
pub struct Polygon {
    pub exterior: LineString,
    pub interiors: Vec<LineString>,
}

impl View for Polygon {
    type V = Seq<Seq<Coord>>;

    /// The rings of the polygon, exterior first.
    open spec fn view(&self) -> Seq<Seq<Coord>> {
        Seq::new(
            1 + self.interiors@.len(),
            |i: int|
                if i == 0 {
                    self.exterior@
                } else {
                    self.interiors@[i - 1]@
                },
        )
    }
}

/// A well-formed ring: a closed well-formed linestring.
pub open spec fn ring_wf(c: Seq<Coord>) -> bool {
    ls_wf(c) && ls_closed(c)
}

impl Polygon {
    /// Every ring is closed and well-formed.
    pub open spec fn wf(self) -> bool {
        forall|i: int| 0 <= i < self@.len() ==> ring_wf(#[trigger] self@[i])
    }

    pub fn new(exterior: LineString, interiors: Vec<LineString>) -> (p: Polygon)
        ensures
            p.exterior == exterior,
            p.interiors == interiors,
    {
        Polygon { exterior, interiors }
    }
}

/// Copy a linestring vector.
pub fn clone_ls_vec(v: &Vec<LineString>) -> (r: Vec<LineString>)
    ensures
        r@.len() == v@.len(),
        forall|i: int| 0 <= i < v@.len() ==> r@[i]@ == v@[i]@,
{
    let mut r: Vec<LineString> = Vec::new();
    let mut i: usize = 0;
    while i < v.len()
        invariant
            0 <= i <= v@.len(),
            r@.len() == i,
            forall|k: int| 0 <= k < i ==> r@[k]@ == v@[k]@,
        decreases v@.len() - i,
    {
        r.push(v[i].clone());
        i = i + 1;
    }
    r
}

impl Clone for Polygon {
    fn clone(&self) -> (r: Polygon)
        ensures
            r@ == self@,
    {
        let r = Polygon {
            exterior: self.exterior.clone(),
            interiors: clone_ls_vec(&self.interiors),
        };
        proof {
            assert(r@ =~= self@);
        }
        r
    }
}

impl PartialEq for Polygon {
    fn eq(&self, other: &Polygon) -> (r: bool) {
        if !(self.exterior == other.exterior) {
            proof {
                assert(self@[0] == self.exterior@);
                assert(other@[0] == other.exterior@);
            }
            return false;
        }
        if self.interiors.len() != other.interiors.len() {
            proof {
                assert(self@.len() == 1 + self.interiors@.len());
                assert(other@.len() == 1 + other.interiors@.len());
            }
            return false;
        }
        let mut i: usize = 0;
        while i < self.interiors.len()
            invariant
                self.interiors@.len() == other.interiors@.len(),
                self.exterior@ == other.exterior@,
                0 <= i <= self.interiors@.len(),
                forall|k: int| 0 <= k < i ==> self.interiors@[k]@ == other.interiors@[k]@,
            decreases self.interiors@.len() - i,
        {
            if !(self.interiors[i] == other.interiors[i]) {
                proof {
                    assert(self@[i + 1] == self.interiors@[i as int]@);
                    assert(other@[i + 1] == other.interiors@[i as int]@);
                }
                return false;
            }
            i = i + 1;
        }
        proof {
            assert(self@ =~= other@);
        }
        true
    }
}

impl vstd::std_specs::cmp::PartialEqSpecImpl for Polygon {
    open spec fn obeys_eq_spec() -> bool {
        true
    }

    open spec fn eq_spec(&self, other: &Polygon) -> bool {
        self@ == other@
    }
}

impl Eq for Polygon {

}

/// A non-empty collection of points forming one feature.
#[derive(Debug)]
pub struct MultiPoint {
    pub points: Vec<Point>,
}

impl View for MultiPoint {
    type V = Seq<Point>;

    open spec fn view(&self) -> Seq<Point> {
        self.points@
    }
}

/// A non-empty collection of linestrings forming one feature.
#[derive(Debug)]
pub struct MultiLineString {
    pub linestrings: Vec<LineString>,
}

impl View for MultiLineString {
    type V = Seq<Seq<Coord>>;

    open spec fn view(&self) -> Seq<Seq<Coord>> {
        Seq::new(self.linestrings@.len(), |i: int| self.linestrings@[i]@)
    }
}

/// A non-empty collection of polygons forming one feature.
#[derive(Debug)]
pub struct MultiPolygon {
    pub polygons: Vec<Polygon>,
}

impl View for MultiPolygon {
    type V = Seq<Seq<Seq<Coord>>>;

    open spec fn view(&self) -> Seq<Seq<Seq<Coord>>> {
        Seq::new(self.polygons@.len(), |i: int| self.polygons@[i]@)
    }
}

impl Clone for MultiPoint {
    fn clone(&self) -> (r: MultiPoint)
        ensures
            r@ == self@,
    {
        let mut points: Vec<Point> = Vec::new();
        let mut i: usize = 0;
        while i < self.points.len()
            invariant
                0 <= i <= self.points@.len(),
                points@ == self.points@.take(i as int),
            decreases self.points@.len() - i,
        {
            points.push(self.points[i]);
            proof {
                assert(points@ =~= self.points@.take(i + 1));
            }
            i = i + 1;
        }
        proof {
            assert(self.points@.take(self.points@.len() as int) =~= self.points@);
        }
        MultiPoint { points }
    }
}

impl Clone for MultiLineString {
    fn clone(&self) -> (r: MultiLineString)
        ensures
            r@ == self@,
    {
        let r = MultiLineString { linestrings: clone_ls_vec(&self.linestrings) };
        proof {
            assert(r@ =~= self@);
        }
        r
    }
}

/// Copy a polygon vector.
pub fn clone_poly_vec(v: &Vec<Polygon>) -> (r: Vec<Polygon>)
    ensures
        r@.len() == v@.len(),
        forall|i: int| 0 <= i < v@.len() ==> r@[i]@ == v@[i]@,
{
    let mut r: Vec<Polygon> = Vec::new();
    let mut i: usize = 0;
    while i < v.len()
        invariant
            0 <= i <= v@.len(),
            r@.len() == i,
            forall|k: int| 0 <= k < i ==> r@[k]@ == v@[k]@,
        decreases v@.len() - i,
    {
        r.push(v[i].clone());
        i = i + 1;
    }
    r
}

impl Clone for MultiPolygon {
    fn clone(&self) -> (r: MultiPolygon)
        ensures
            r@ == self@,
    {
        let r = MultiPolygon { polygons: clone_poly_vec(&self.polygons) };
        proof {
            assert(r@ =~= self@);
        }
        r
    }
}

/// Any geometry the validator accepts.
#[derive(Debug)]
pub enum Geometry {
    Point(Point),
    Line(Segment),
    LineString(LineString),
    Polygon(Polygon),
    MultiPoint(MultiPoint),
    MultiLineString(MultiLineString),
    MultiPolygon(MultiPolygon),
}

/// The error raised when a collection holds a geometry of a kind that the
/// requested flattening cannot accept.
#[derive(Clone, Copy, Debug, PartialEq, Eq, Structural)]
pub enum InputError {
    UnsupportedGeometryKind,
}

/// The geometry is a point or a multipoint.
pub open spec fn is_point_kind(g: Geometry) -> bool {
    g is Point || g is MultiPoint
}

/// The geometry is a line, a linestring or a multilinestring.
pub open spec fn is_line_kind(g: Geometry) -> bool {
    g is Line || g is LineString || g is MultiLineString
}

/// The geometry is a polygon or a multipolygon.
pub open spec fn is_polygon_kind(g: Geometry) -> bool {
    g is Polygon || g is MultiPolygon
}

/// Whether the geometry is a point or a multipoint.
pub fn is_point(geometry: &Geometry) -> (r: bool)
    ensures
        r == is_point_kind(*geometry),
{
    match geometry {
        Geometry::Point(_) => true,
        Geometry::MultiPoint(_) => true,
        _ => false,
    }
}

/// Whether the geometry is a line, a linestring or a multilinestring.
pub fn is_line(geometry: &Geometry) -> (r: bool)
    ensures
        r == is_line_kind(*geometry),
{
    match geometry {
        Geometry::Line(_) => true,
        Geometry::LineString(_) => true,
        Geometry::MultiLineString(_) => true,
        _ => false,
    }
}

/// Whether the geometry is a polygon or a multipolygon.
pub fn is_polygon(geometry: &Geometry) -> (r: bool)
    ensures
        r == is_polygon_kind(*geometry),
{
    match geometry {
        Geometry::Polygon(_) => true,
        Geometry::MultiPolygon(_) => true,
        _ => false,
    }
}

/// The points contributed by one geometry when flattening to points.
pub open spec fn point_parts(g: Geometry) -> Seq<Point> {
    match g {
        Geometry::Point(p) => seq![p],
        Geometry::MultiPoint(mp) => mp@,
        _ => Seq::empty(),
    }
}

/// The points of a geometry sequence, multiparts split, in order.
pub open spec fn flat_points(gs: Seq<Geometry>) -> Seq<Point>
    decreases gs.len(),
{
    if gs.len() == 0 {
        Seq::empty()
    } else {
        flat_points(gs.drop_last()) + point_parts(gs.last())
    }
}

/// Split multipoints into their member points.
///
/// Rejects any geometry that is not a point or a multipoint.
pub fn flatten_points(geometries: Vec<Geometry>) -> (r: Result<Vec<Point>, InputError>)
    ensures
        r is Ok <==> (forall|i: int|
            0 <= i < geometries@.len() ==> is_point_kind(#[trigger] geometries@[i])),
        r is Ok ==> r->Ok_0@ == flat_points(geometries@),
        r is Err ==> r->Err_0 == InputError::UnsupportedGeometryKind,
{
    let mut out: Vec<Point> = Vec::new();
    let n: usize = geometries.len();
    let mut i: usize = 0;
    while i < n
        invariant
            n == geometries@.len(),
            0 <= i <= n,
            out@ == flat_points(geometries@.take(i as int)),
            forall|k: int| 0 <= k < i ==> is_point_kind(#[trigger] geometries@[k]),
        decreases n - i,
    {
        let ghost prefix = geometries@.take(i as int);
        match &geometries[i] {
            Geometry::Point(p) => {
                out.push(*p);
            },
            Geometry::MultiPoint(mp) => {
                let mut k: usize = 0;
                while k < mp.points.len()
                    invariant
                        n == geometries@.len(),
                        0 <= i < n,
                        prefix == geometries@.take(i as int),
                        0 <= k <= mp@.len(),
                        out@ == flat_points(prefix) + mp@.take(k as int),
                        geometries@[i as int] == Geometry::MultiPoint(*mp),
                    decreases mp@.len() - k,
                {
                    out.push(mp.points[k]);
                    proof {
                        assert(mp@.take(k as int).push(mp@[k as int]) =~= mp@.take(k + 1));
                    }
                    k = k + 1;
                }
                proof {
                    assert(mp@.take(mp@.len() as int) =~= mp@);
                }
            },
            _ => {
                return Err(InputError::UnsupportedGeometryKind);
            },
        }
        proof {
            let next = geometries@.take(i + 1);
            assert(next.drop_last() =~= prefix);
            assert(next.last() == geometries@[i as int]);
            assert(out@ =~= flat_points(next));
        }
        i = i + 1;
    }
    proof {
        assert(geometries@.take(n as int) =~= geometries@);
    }
    Ok(out)
}

/// The linestrings contributed by one geometry when flattening to lines.
pub open spec fn line_parts(g: Geometry) -> Seq<Seq<Coord>> {
    match g {
        Geometry::LineString(ls) => seq![ls@],
        Geometry::MultiLineString(mls) => mls@,
        Geometry::Line(s) => seq![seq![s.a, s.b]],
        _ => Seq::empty(),
    }
}

/// The linestrings of a geometry sequence, multiparts split, in order.
pub open spec fn flat_linestrings(gs: Seq<Geometry>) -> Seq<Seq<Coord>>
    decreases gs.len(),
{
    if gs.len() == 0 {
        Seq::empty()
    } else {
        flat_linestrings(gs.drop_last()) + line_parts(gs.last())
    }
}

/// The view of a linestring vector: the sequence of coordinate runs.
pub open spec fn ls_views(v: Seq<LineString>) -> Seq<Seq<Coord>> {
    Seq::new(v.len(), |i: int| v[i]@)
}

/// Split multilinestrings into their member linestrings and turn bare lines
/// into two-coordinate linestrings.
///
/// Rejects any geometry that is not a line, linestring or multilinestring.
pub fn flatten_linestrings(geometries: Vec<Geometry>) -> (r: Result<Vec<LineString>, InputError>)
    ensures
        r is Ok <==> (forall|i: int|
            0 <= i < geometries@.len() ==> is_line_kind(#[trigger] geometries@[i])),
        r is Ok ==> ls_views(r->Ok_0@) == flat_linestrings(geometries@),
        r is Err ==> r->Err_0 == InputError::UnsupportedGeometryKind,
{
    let mut out: Vec<LineString> = Vec::new();
    let n: usize = geometries.len();
    let mut i: usize = 0;
    while i < n
        invariant
            n == geometries@.len(),
            0 <= i <= n,
            ls_views(out@) == flat_linestrings(geometries@.take(i as int)),
            forall|k: int| 0 <= k < i ==> is_line_kind(#[trigger] geometries@[k]),
        decreases n - i,
    {
        let ghost prefix = geometries@.take(i as int);
        match &geometries[i] {
            Geometry::LineString(ls) => {
                out.push(ls.clone());
            },
            Geometry::Line(s) => {
                let ls = LineString::from_segment(s);
                out.push(ls);
            },
            Geometry::MultiLineString(mls) => {
                let mut k: usize = 0;
                while k < mls.linestrings.len()
                    invariant
                        n == geometries@.len(),
                        0 <= i < n,
                        prefix == geometries@.take(i as int),
                        0 <= k <= mls.linestrings@.len(),
                        ls_views(out@) == flat_linestrings(prefix) + mls@.take(k as int),
                        geometries@[i as int] == Geometry::MultiLineString(*mls),
                    decreases mls.linestrings@.len() - k,
                {
                    let ghost before = out@;
                    out.push(mls.linestrings[k].clone());
                    proof {
                        let lhs = ls_views(out@);
                        let rhs = flat_linestrings(prefix) + mls@.take(k + 1);
                        assert(out@ == before.push(out@[before.len() as int]));
                        assert(ls_views(before) == flat_linestrings(prefix) + mls@.take(k as int));
                        assert(mls@.len() == mls.linestrings@.len());
                        assert(mls@.take(k as int).len() == k);
                        assert(ls_views(before).len() == before.len());
                        assert(before.len() == flat_linestrings(prefix).len() + k);
                        assert(lhs.len() == out@.len());
                        assert(out@.len() == before.len() + 1);
                        assert(rhs.len() == flat_linestrings(prefix).len() + (k + 1));
                        assert(lhs.len() == rhs.len());
                        assert forall|p: int| 0 <= p < lhs.len() implies lhs[p] == rhs[p] by {
                            if p < before.len() {
                                assert(lhs[p] == before[p]@);
                                assert(ls_views(before)[p] == before[p]@);
                                assert(rhs[p] == (flat_linestrings(prefix) + mls@.take(
                                    k as int,
                                ))[p]);
                            } else {
                                assert(lhs[p] == out@[p]@);
                                assert(rhs[p] == mls@[k as int]);
                            }
                        }
                        assert(lhs =~= rhs);
                    }
                    k = k + 1;
                }
                proof {
                    assert(mls@.take(mls@.len() as int) =~= mls@);
                }
            },
            _ => {
                return Err(InputError::UnsupportedGeometryKind);
            },
        }
        proof {
            let next = geometries@.take(i + 1);
            assert(next.drop_last() =~= prefix);
            assert(next.last() == geometries@[i as int]);
            assert(ls_views(out@) =~= flat_linestrings(next));
        }
        i = i + 1;
    }
    proof {
        assert(geometries@.take(n as int) =~= geometries@);
    }
    Ok(out)
}

/// The polygons contributed by one geometry when flattening to polygons.
pub open spec fn polygon_parts(g: Geometry) -> Seq<Seq<Seq<Coord>>> {
    match g {
        Geometry::Polygon(p) => seq![p@],
        Geometry::MultiPolygon(mp) => mp@,
        _ => Seq::empty(),
    }
}

/// The polygons of a geometry sequence, multiparts split, in order.
pub open spec fn flat_polygons(gs: Seq<Geometry>) -> Seq<Seq<Seq<Coord>>>
    decreases gs.len(),
{
    if gs.len() == 0 {
        Seq::empty()
    } else {
        flat_polygons(gs.drop_last()) + polygon_parts(gs.last())
    }
}

/// The view of a polygon vector: the sequence of ring lists.
pub open spec fn poly_views(v: Seq<Polygon>) -> Seq<Seq<Seq<Coord>>> {
    Seq::new(v.len(), |i: int| v[i]@)
}

/// Split multipolygons into their member polygons.
///
/// Rejects any geometry that is not a polygon or a multipolygon.
pub fn flatten_polygons(geometries: Vec<Geometry>) -> (r: Result<Vec<Polygon>, InputError>)
    ensures
        r is Ok <==> (forall|i: int|
            0 <= i < geometries@.len() ==> is_polygon_kind(#[trigger] geometries@[i])),
        r is Ok ==> poly_views(r->Ok_0@) == flat_polygons(geometries@),
        r is Err ==> r->Err_0 == InputError::UnsupportedGeometryKind,
{
    let mut out: Vec<Polygon> = Vec::new();
    let n: usize = geometries.len();
    let mut i: usize = 0;
    while i < n
        invariant
            n == geometries@.len(),
            0 <= i <= n,
            poly_views(out@) == flat_polygons(geometries@.take(i as int)),
            forall|k: int| 0 <= k < i ==> is_polygon_kind(#[trigger] geometries@[k]),
        decreases n - i,
    {
        let ghost prefix = geometries@.take(i as int);
        match &geometries[i] {
            Geometry::Polygon(p) => {
                out.push(p.clone());
            },
            Geometry::MultiPolygon(mp) => {
                let mut k: usize = 0;
                while k < mp.polygons.len()
                    invariant
                        n == geometries@.len(),
                        0 <= i < n,
                        prefix == geometries@.take(i as int),
                        0 <= k <= mp.polygons@.len(),
                        poly_views(out@) == flat_polygons(prefix) + mp@.take(k as int),
                        geometries@[i as int] == Geometry::MultiPolygon(*mp),
                    decreases mp.polygons@.len() - k,
                {
                    let ghost before = out@;
                    out.push(mp.polygons[k].clone());
                    proof {
                        let lhs = poly_views(out@);
                        let rhs = flat_polygons(prefix) + mp@.take(k + 1);
                        assert(out@ == before.push(out@[before.len() as int]));
                        assert(poly_views(before) == flat_polygons(prefix) + mp@.take(k as int));
                        assert(mp@.take(k as int).len() == k);
                        assert(poly_views(before).len() == before.len());
                        assert(poly_views(out@).len() == out@.len());
                        assert(lhs.len() == rhs.len());
                        assert forall|p: int| 0 <= p < lhs.len() implies lhs[p] == rhs[p] by {
                            if p < before.len() {
                                assert(lhs[p] == before[p]@);
                                assert(poly_views(before)[p] == before[p]@);
                                assert(rhs[p] == (flat_polygons(prefix) + mp@.take(k as int))[p]);
                            } else {
                                assert(lhs[p] == out@[p]@);
                                assert(rhs[p] == mp@[k as int]);
                            }
                        }
                        assert(lhs =~= rhs);
                    }
                    k = k + 1;
                }
                proof {
                    assert(mp@.take(mp@.len() as int) =~= mp@);
                }
            },
            _ => {
                return Err(InputError::UnsupportedGeometryKind);
            },
        }
        proof {
            let next = geometries@.take(i + 1);
            assert(next.drop_last() =~= prefix);
            assert(next.last() == geometries@[i as int]);
            assert(poly_views(out@) =~= flat_polygons(next));
        }
        i = i + 1;
    }
    proof {
        assert(geometries@.take(n as int) =~= geometries@);
    }
    Ok(out)
}

/// The segments of a linestring sequence, concatenated in order.
pub open spec fn flat_segments(ls: Seq<Seq<Coord>>) -> Seq<Segment>
    decreases ls.len(),
{
    if ls.len() == 0 {
        Seq::empty()
    } else {
        flat_segments(ls.drop_last()) + ls_segments(ls.last())
    }
}

/// Explode linestrings into their constituent segments.
pub fn explode_linestrings(linestrings: &Vec<LineString>) -> (r: Vec<Segment>)
    requires
        forall|i: int| 0 <= i < linestrings@.len() ==> (#[trigger] linestrings@[i]).wf(),
    ensures
        r@ == flat_segments(ls_views(linestrings@)),
        crate::sweep::segs_wf(r@),
{
    let mut out: Vec<Segment> = Vec::new();
    let n: usize = linestrings.len();
    let mut i: usize = 0;
    while i < n
        invariant
            n == linestrings@.len(),
            0 <= i <= n,
            forall|k: int| 0 <= k < n ==> (#[trigger] linestrings@[k]).wf(),
            out@ == flat_segments(ls_views(linestrings@).take(i as int)),
            crate::sweep::segs_wf(out@),
        decreases n - i,
    {
        let ghost prefix = ls_views(linestrings@).take(i as int);
        let segs = linestrings[i].segments();
        let mut k: usize = 0;
        while k < segs.len()
            invariant
                0 <= k <= segs@.len(),
                segs@ == ls_segments(linestrings@[i as int]@),
                out@ == flat_segments(prefix) + segs@.take(k as int),
                0 <= i < n,
                n == linestrings@.len(),
                forall|m: int| 0 <= m < n ==> (#[trigger] linestrings@[m]).wf(),
                crate::sweep::segs_wf(out@),
            decreases segs@.len() - k,
        {
            out.push(segs[k]);
            proof {
                assert(out@ =~= flat_segments(prefix) + segs@.take(k + 1));
                let ls = linestrings@[i as int]@;
                let kk = k as int;
                assert(segs@[kk] == (Segment { a: ls[kk], b: ls[kk + 1] }));
                assert(ls[kk].wf() && ls[kk + 1].wf() && ls[kk] != ls[kk + 1]);
            }
            k = k + 1;
        }
        proof {
            let next = ls_views(linestrings@).take(i + 1);
            assert(next.drop_last() =~= prefix);
            assert(next.last() == linestrings@[i as int]@);
            assert(segs@.take(segs@.len() as int) =~= segs@);
            assert(out@ =~= flat_segments(next));
        }
        i = i + 1;
    }
    proof {
        assert(ls_views(linestrings@).take(n as int) =~= ls_views(linestrings@));
    }
    out
}

/// The first and last coordinate of every linestring, in order.
pub open spec fn flat_endpoints(ls: Seq<Seq<Coord>>) -> Seq<Coord>
    decreases ls.len(),
{
    if ls.len() == 0 {
        Seq::empty()
    } else {
        flat_endpoints(ls.drop_last()) + seq![ls.last()[0], ls.last()[ls.last().len() - 1]]
    }
}

/// Extract the endpoints (first and last coordinate) of every linestring.
pub fn linestring_endpoints(linestrings: &Vec<LineString>) -> (r: Vec<Coord>)
    requires
        forall|i: int| 0 <= i < linestrings@.len() ==> (#[trigger] linestrings@[i]).wf(),
    ensures
        r@ == flat_endpoints(ls_views(linestrings@)),
{
    let mut out: Vec<Coord> = Vec::new();
    let n: usize = linestrings.len();
    let mut i: usize = 0;
    while i < n
        invariant
            n == linestrings@.len(),
            0 <= i <= n,
            forall|k: int| 0 <= k < n ==> (#[trigger] linestrings@[k]).wf(),
            out@ == flat_endpoints(ls_views(linestrings@).take(i as int)),
        decreases n - i,
    {
        let ghost prefix = ls_views(linestrings@).take(i as int);
        out.push(linestrings[i].first());
        out.push(linestrings[i].last());
        proof {
            let next = ls_views(linestrings@).take(i + 1);
            assert(next.drop_last() =~= prefix);
            assert(next.last() == linestrings@[i as int]@);
            assert(out@ =~= flat_endpoints(next));
        }
        i = i + 1;
    }
    proof {
        assert(ls_views(linestrings@).take(n as int) =~= ls_views(linestrings@));
    }
    out
}

/// Every coordinate of every linestring except the two endpoints, in order.
pub open spec fn flat_inner_points(ls: Seq<Seq<Coord>>) -> Seq<Coord>
    decreases ls.len(),
{
    if ls.len() == 0 {
        Seq::empty()
    } else {
        flat_inner_points(ls.drop_last()) + ls.last().subrange(1, ls.last().len() - 1)
    }
}

/// Extract the inner coordinates (all but first and last) of every
/// linestring.
pub fn linestring_inner_points(linestrings: &Vec<LineString>) -> (r: Vec<Coord>)
    requires
        forall|i: int| 0 <= i < linestrings@.len() ==> (#[trigger] linestrings@[i]).wf(),
    ensures
        r@ == flat_inner_points(ls_views(linestrings@)),
{
    let mut out: Vec<Coord> = Vec::new();
    let n: usize = linestrings.len();
    let mut i: usize = 0;
    while i < n
        invariant
            n == linestrings@.len(),
            0 <= i <= n,
            forall|k: int| 0 <= k < n ==> (#[trigger] linestrings@[k]).wf(),
            out@ == flat_inner_points(ls_views(linestrings@).take(i as int)),
        decreases n - i,
    {
        let ghost prefix = ls_views(linestrings@).take(i as int);
        let ls = &linestrings[i];
        let len: usize = ls.coords.len();
        let mut k: usize = 1;
        while k + 1 < len
            invariant
                1 <= k <= len - 1 || (len == 2 && k == 1),
                len == ls@.len(),
                len >= 2,
                ls == linestrings@[i as int],
                out@ == flat_inner_points(prefix) + ls@.subrange(1, k as int),
            decreases len - k,
        {
            out.push(ls.coords[k]);
            proof {
                assert(out@ =~= flat_inner_points(prefix) + ls@.subrange(1, k + 1));
            }
            k = k + 1;
        }
        proof {
            let next = ls_views(linestrings@).take(i + 1);
            assert(next.drop_last() =~= prefix);
            assert(next.last() == linestrings@[i as int]@);
            assert(ls@.subrange(1, k as int) =~= ls@.subrange(1, ls@.len() - 1));
            assert(out@ =~= flat_inner_points(next));
        }
        i = i + 1;
    }
    proof {
        assert(ls_views(linestrings@).take(n as int) =~= ls_views(linestrings@));
    }
    out
}

/// Turn bare coordinates into points.
pub fn coords_to_points(coords: &Vec<Coord>) -> (r: Vec<Point>)
    ensures
        r@.len() == coords@.len(),
        forall|i: int| 0 <= i < coords@.len() ==> r@[i] == (Point { coord: coords@[i] }),
{
    let mut out: Vec<Point> = Vec::new();
    let mut i: usize = 0;
    while i < coords.len()
        invariant
            0 <= i <= coords@.len(),
            out@.len() == i,
            forall|k: int| 0 <= k < i ==> out@[k] == (Point { coord: coords@[k] }),
        decreases coords@.len() - i,
    {
        out.push(Point { coord: coords[i] });
        i = i + 1;
    }
    out
}

/// Embed grid coordinates as exact sweep points.
pub fn coords_to_sweep_points(coords: &Vec<Coord>) -> (r: Vec<SweepPoint>)
    ensures
        r@.len() == coords@.len(),
        forall|i: int| 0 <= i < coords@.len() ==> r@[i] == spec_sweep_of_coord(coords@[i]),
{
    let mut out: Vec<SweepPoint> = Vec::new();
    let mut i: usize = 0;
    while i < coords.len()
        invariant
            0 <= i <= coords@.len(),
            out@.len() == i,
            forall|k: int| 0 <= k < i ==> out@[k] == spec_sweep_of_coord(coords@[k]),
        decreases coords@.len() - i,
    {
        out.push(SweepPoint::from_coord(coords[i]));
        i = i + 1;
    }
    out
}

} // verus!

//! The result value model: per-kind error buckets and rule verdicts.

use vstd::prelude::*;

use crate::geometry::{
    ls_views, poly_views, LineString, MultiLineString, MultiPoint, MultiPolygon, Point, Polygon,
};
use crate::rat::SweepPoint;

verus! {

/// The views of a multipoint vector.
pub open spec fn mpoint_views(v: Seq<MultiPoint>) -> Seq<Seq<Point>> {
    Seq::new(v.len(), |i: int| v[i]@)
}

/// The views of a multilinestring vector.
pub open spec fn mls_views(v: Seq<MultiLineString>) -> Seq<Seq<Seq<Coord2>>> {
    Seq::new(v.len(), |i: int| v[i]@)
}

/// The views of a multipolygon vector.
pub open spec fn mpoly_views(v: Seq<MultiPolygon>) -> Seq<Seq<Seq<Seq<Coord2>>>> {
    Seq::new(v.len(), |i: int| v[i]@)
}

/// Shorthand for the coordinate type used in nested views.
pub type Coord2 = crate::coord::Coord;

/// One bucket of offending geometries, tagged by geometry kind.
///
/// Point-kind errors carry exact sweep points, since a proper crossing of two
/// grid segments generally has rational coordinates.
#[derive(Debug)]
pub enum TopologyError {
    Point(Vec<SweepPoint>),
    LineString(Vec<LineString>),
    Polygon(Vec<Polygon>),
    MultiPoint(Vec<MultiPoint>),
    MultiLineString(Vec<MultiLineString>),
    MultiPolygon(Vec<MultiPolygon>),
}

/// Equality of error buckets, by kind and element views.
pub open spec fn err_eq_spec(a: TopologyError, b: TopologyError) -> bool {
    match (a, b) {
        (TopologyError::Point(x), TopologyError::Point(y)) => x@ == y@,
        (TopologyError::LineString(x), TopologyError::LineString(y)) => ls_views(x@) == ls_views(
            y@,
        ),
        (TopologyError::Polygon(x), TopologyError::Polygon(y)) => poly_views(x@) == poly_views(y@),
        (TopologyError::MultiPoint(x), TopologyError::MultiPoint(y)) => mpoint_views(x@)
            == mpoint_views(y@),
        (TopologyError::MultiLineString(x), TopologyError::MultiLineString(y)) => mls_views(x@)
            == mls_views(y@),
        (TopologyError::MultiPolygon(x), TopologyError::MultiPolygon(y)) => mpoly_views(x@)
            == mpoly_views(y@),
        _ => false,
    }
}

/// Compare two sweep-point vectors.
fn sweep_vec_eq(a: &Vec<SweepPoint>, b: &Vec<SweepPoint>) -> (r: bool)
    ensures
        r == (a@ == b@),
{
    if a.len() != b.len() {
        proof {
            assert(a@ !~= b@);
        }
        return false;
    }
    let mut i: usize = 0;
    while i < a.len()
        invariant
            a@.len() == b@.len(),
            0 <= i <= a@.len(),
            forall|k: int| 0 <= k < i ==> a@[k] == b@[k],
        decreases a@.len() - i,
    {
        if a[i] != b[i] {
            return false;
        }
        i = i + 1;
    }
    proof {
        assert(a@ =~= b@);
    }
    true
}

/// Compare two linestring vectors by their coordinate runs.
pub fn ls_vec_eq(a: &Vec<LineString>, b: &Vec<LineString>) -> (r: bool)
    ensures
        r == (ls_views(a@) == ls_views(b@)),
{
    proof {
        assert(ls_views(a@).len() == a@.len());
        assert(ls_views(b@).len() == b@.len());
    }
    if a.len() != b.len() {
        proof {
            assert(ls_views(a@) !~= ls_views(b@));
        }
        return false;
    }
    let mut i: usize = 0;
    while i < a.len()
        invariant
            a@.len() == b@.len(),
            0 <= i <= a@.len(),
            forall|k: int| 0 <= k < i ==> a@[k]@ == b@[k]@,
        decreases a@.len() - i,
    {
        if !(a[i] == b[i]) {
            proof {
                assert(ls_views(a@)[i as int] == a@[i as int]@);
                assert(ls_views(b@)[i as int] == b@[i as int]@);
            }
            return false;
        }
        i = i + 1;
    }
    proof {
        assert(ls_views(a@) =~= ls_views(b@));
    }
    true
}

/// Compare two polygon vectors by their rings.
pub fn poly_vec_eq(a: &Vec<Polygon>, b: &Vec<Polygon>) -> (r: bool)
    ensures
        r == (poly_views(a@) == poly_views(b@)),
{
    proof {
        assert(poly_views(a@).len() == a@.len());
        assert(poly_views(b@).len() == b@.len());
    }
    if a.len() != b.len() {
        proof {
            assert(poly_views(a@) !~= poly_views(b@));
        }
        return false;
    }
    let mut i: usize = 0;
    while i < a.len()
        invariant
            a@.len() == b@.len(),
            0 <= i <= a@.len(),
            forall|k: int| 0 <= k < i ==> a@[k]@ == b@[k]@,
        decreases a@.len() - i,
    {
        if !(a[i] == b[i]) {
            proof {
                assert(poly_views(a@)[i as int] == a@[i as int]@);
                assert(poly_views(b@)[i as int] == b@[i as int]@);
            }
            return false;
        }
        i = i + 1;
    }
    proof {
        assert(poly_views(a@) =~= poly_views(b@));
    }
    true
}

/// Compare two point vectors.
fn point_vec_eq(a: &Vec<Point>, b: &Vec<Point>) -> (r: bool)
    ensures
        r == (a@ == b@),
{
    if a.len() != b.len() {
        proof {
            assert(a@ !~= b@);
        }
        return false;
    }
    let mut i: usize = 0;
    while i < a.len()
        invariant
            a@.len() == b@.len(),
            0 <= i <= a@.len(),
            forall|k: int| 0 <= k < i ==> a@[k] == b@[k],
        decreases a@.len() - i,
    {
        if a[i] != b[i] {
            return false;
        }
        i = i + 1;
    }
    proof {
        assert(a@ =~= b@);
    }
    true
}

/// Compare two multipoint vectors by their member points.
fn mpoint_vec_eq(a: &Vec<MultiPoint>, b: &Vec<MultiPoint>) -> (r: bool)
    ensures
        r == (mpoint_views(a@) == mpoint_views(b@)),
{
    proof {
        assert(mpoint_views(a@).len() == a@.len());
        assert(mpoint_views(b@).len() == b@.len());
    }
    if a.len() != b.len() {
        proof {
            assert(mpoint_views(a@) !~= mpoint_views(b@));
        }
        return false;
    }
    let mut i: usize = 0;
    while i < a.len()
        invariant
            a@.len() == b@.len(),
            0 <= i <= a@.len(),
            forall|k: int| 0 <= k < i ==> a@[k]@ == b@[k]@,
        decreases a@.len() - i,
    {
        if !point_vec_eq(&a[i].points, &b[i].points) {
            proof {
                assert(mpoint_views(a@)[i as int] == a@[i as int]@);
                assert(mpoint_views(b@)[i as int] == b@[i as int]@);
            }
            return false;
        }
        i = i + 1;
    }
    proof {
        assert(mpoint_views(a@) =~= mpoint_views(b@));
    }
    true
}

/// Compare two multilinestring vectors by their member linestrings.
fn mls_vec_eq(a: &Vec<MultiLineString>, b: &Vec<MultiLineString>) -> (r: bool)
    ensures
        r == (mls_views(a@) == mls_views(b@)),
{
    proof {
        assert(mls_views(a@).len() == a@.len());
        assert(mls_views(b@).len() == b@.len());
    }
    if a.len() != b.len() {
        proof {
            assert(mls_views(a@) !~= mls_views(b@));
        }
        return false;
    }
    let mut i: usize = 0;
    while i < a.len()
        invariant
            a@.len() == b@.len(),
            0 <= i <= a@.len(),
            forall|k: int| 0 <= k < i ==> a@[k]@ == b@[k]@,
        decreases a@.len() - i,
    {
        if !ls_vec_eq(&a[i].linestrings, &b[i].linestrings) {
            proof {
                assert(mls_views(a@)[i as int] == a@[i as int]@);
                assert(mls_views(b@)[i as int] == b@[i as int]@);
                assert(a@[i as int]@ =~= ls_views(a@[i as int].linestrings@));
                assert(b@[i as int]@ =~= ls_views(b@[i as int].linestrings@));
            }
            return false;
        }
        proof {
            assert(a@[i as int]@ =~= ls_views(a@[i as int].linestrings@));
            assert(b@[i as int]@ =~= ls_views(b@[i as int].linestrings@));
        }
        i = i + 1;
    }
    proof {
        assert(mls_views(a@) =~= mls_views(b@));
    }
    true
}

/// Compare two multipolygon vectors by their member polygons.
fn mpoly_vec_eq(a: &Vec<MultiPolygon>, b: &Vec<MultiPolygon>) -> (r: bool)
    ensures
        r == (mpoly_views(a@) == mpoly_views(b@)),
{
    proof {
        assert(mpoly_views(a@).len() == a@.len());
        assert(mpoly_views(b@).len() == b@.len());
    }
    if a.len() != b.len() {
        proof {
            assert(mpoly_views(a@) !~= mpoly_views(b@));
        }
        return false;
    }
    let mut i: usize = 0;
    while i < a.len()
        invariant
            a@.len() == b@.len(),
            0 <= i <= a@.len(),
            forall|k: int| 0 <= k < i ==> a@[k]@ == b@[k]@,
        decreases a@.len() - i,
    {
        if !poly_vec_eq(&a[i].polygons, &b[i].polygons) {
            proof {
                assert(mpoly_views(a@)[i as int] == a@[i as int]@);
                assert(mpoly_views(b@)[i as int] == b@[i as int]@);
                assert(a@[i as int]@ =~= poly_views(a@[i as int].polygons@));
                assert(b@[i as int]@ =~= poly_views(b@[i as int].polygons@));
            }
            return false;
        }
        proof {
            assert(a@[i as int]@ =~= poly_views(a@[i as int].polygons@));
            assert(b@[i as int]@ =~= poly_views(b@[i as int].polygons@));
        }
        i = i + 1;
    }
    proof {
        assert(mpoly_views(a@) =~= mpoly_views(b@));
    }
    true
}

impl PartialEq for TopologyError {
    fn eq(&self, other: &TopologyError) -> (r: bool) {
        match (self, other) {
            (TopologyError::Point(x), TopologyError::Point(y)) => sweep_vec_eq(x, y),
            (TopologyError::LineString(x), TopologyError::LineString(y)) => ls_vec_eq(x, y),
            (TopologyError::Polygon(x), TopologyError::Polygon(y)) => poly_vec_eq(x, y),
            (TopologyError::MultiPoint(x), TopologyError::MultiPoint(y)) => mpoint_vec_eq(x, y),
            (TopologyError::MultiLineString(x), TopologyError::MultiLineString(y)) => mls_vec_eq(
                x,
                y,
            ),
            (TopologyError::MultiPolygon(x), TopologyError::MultiPolygon(y)) => mpoly_vec_eq(x, y),
            _ => false,
        }
    }
}

impl vstd::std_specs::cmp::PartialEqSpecImpl for TopologyError {
    open spec fn obeys_eq_spec() -> bool {
        true
    }

    open spec fn eq_spec(&self, other: &TopologyError) -> bool {
        err_eq_spec(*self, *other)
    }
}

impl Eq for TopologyError {

}

impl TopologyError {
    /// How many offending geometries the bucket holds.
    pub fn len(&self) -> (n: usize)
        ensures
            n == match *self {
                TopologyError::Point(ref v) => v@.len(),
                TopologyError::LineString(ref v) => v@.len(),
                TopologyError::Polygon(ref v) => v@.len(),
                TopologyError::MultiPoint(ref v) => v@.len(),
                TopologyError::MultiLineString(ref v) => v@.len(),
                TopologyError::MultiPolygon(ref v) => v@.len(),
            },
    {
        match self {
            TopologyError::Point(v) => v.len(),
            TopologyError::LineString(v) => v.len(),
            TopologyError::Polygon(v) => v.len(),
            TopologyError::MultiPoint(v) => v.len(),
            TopologyError::MultiLineString(v) => v.len(),
            TopologyError::MultiPolygon(v) => v.len(),
        }
    }

    /// The kind tag of the bucket, as a lower-case name.
    pub fn kind_name(&self) -> (s: &'static str)
        ensures
            s@ == match *self {
                TopologyError::Point(_) => "point"@,
                TopologyError::LineString(_) => "linestring"@,
                TopologyError::Polygon(_) => "polygon"@,
                TopologyError::MultiPoint(_) => "multipoint"@,
                TopologyError::MultiLineString(_) => "multilinestring"@,
                TopologyError::MultiPolygon(_) => "multipolygon"@,
            },
    {
        match self {
            TopologyError::Point(_) => "point",
            TopologyError::LineString(_) => "linestring",
            TopologyError::Polygon(_) => "polygon",
            TopologyError::MultiPoint(_) => "multipoint",
            TopologyError::MultiLineString(_) => "multilinestring",
            TopologyError::MultiPolygon(_) => "multipolygon",
        }
    }
}

/// The verdict of one rule evaluation.
#[derive(Debug)]
pub enum TopologyResult {
    Errors(Vec<TopologyError>),
    Valid,
}

/// The index of the first bucket of the given shape, or `-1`.
pub open spec fn first_of_kind(errs: Seq<TopologyError>, pred: spec_fn(TopologyError) -> bool) -> int
    decreases errs.len(),
{
    if errs.len() == 0 {
        -1
    } else if pred(errs[0]) {
        0
    } else {
        let rest = first_of_kind(errs.drop_first(), pred);
        if rest == -1 {
            -1
        } else {
            rest + 1
        }
    }
}

impl TopologyResult {
    /// Whether the rule found no errors.
    pub fn is_valid(&self) -> (r: bool)
        ensures
            r == (*self is Valid),
    {
        match self {
            TopologyResult::Valid => true,
            TopologyResult::Errors(_) => false,
        }
    }

    /// The error buckets of an invalid verdict.
    pub fn unwrap_err(&self) -> (r: &Vec<TopologyError>)
        requires
            *self is Errors,
        ensures
            *r == self->Errors_0,
    {
        match self {
            TopologyResult::Errors(errors) => errors,
            TopologyResult::Valid => unreached(),
        }
    }

    /// The first point bucket, if any.
    pub fn unwrap_err_point(&self) -> (r: Option<&TopologyError>)
        ensures
            match r {
                Some(e) => {
                    &&& *self is Errors
                    &&& first_of_kind(self->Errors_0@, |e: TopologyError| e is Point) >= 0
                    &&& *e == self->Errors_0@[first_of_kind(
                        self->Errors_0@,
                        |e: TopologyError| e is Point,
                    )]
                },
                None => *self is Valid || first_of_kind(
                    self->Errors_0@,
                    |e: TopologyError| e is Point,
                ) == -1,
            },
    {
        match self {
            TopologyResult::Valid => None,
            TopologyResult::Errors(errors) => find_kind(errors, 0),
        }
    }

    /// The first linestring bucket, if any.
    pub fn unwrap_err_linestring(&self) -> (r: Option<&TopologyError>)
        ensures
            match r {
                Some(e) => {
                    &&& *self is Errors
                    &&& first_of_kind(self->Errors_0@, |e: TopologyError| e is LineString) >= 0
                    &&& *e == self->Errors_0@[first_of_kind(
                        self->Errors_0@,
                        |e: TopologyError| e is LineString,
                    )]
                },
                None => *self is Valid || first_of_kind(
                    self->Errors_0@,
                    |e: TopologyError| e is LineString,
                ) == -1,
            },
    {
        match self {
            TopologyResult::Valid => None,
            TopologyResult::Errors(errors) => find_kind(errors, 1),
        }
    }

    /// The first polygon bucket, if any.
    pub fn unwrap_err_polygon(&self) -> (r: Option<&TopologyError>)
        ensures
            match r {
                Some(e) => {
                    &&& *self is Errors
                    &&& first_of_kind(self->Errors_0@, |e: TopologyError| e is Polygon) >= 0
                    &&& *e == self->Errors_0@[first_of_kind(
                        self->Errors_0@,
                        |e: TopologyError| e is Polygon,
                    )]
                },
                None => *self is Valid || first_of_kind(
                    self->Errors_0@,
                    |e: TopologyError| e is Polygon,
                ) == -1,
            },
    {
        match self {
            TopologyResult::Valid => None,
            TopologyResult::Errors(errors) => find_kind(errors, 2),
        }
    }

    /// The first multipoint bucket, if any.
    pub fn unwrap_err_multipoint(&self) -> (r: Option<&TopologyError>)
        ensures
            match r {
                Some(e) => {
                    &&& *self is Errors
                    &&& first_of_kind(self->Errors_0@, |e: TopologyError| e is MultiPoint) >= 0
                    &&& *e == self->Errors_0@[first_of_kind(
                        self->Errors_0@,
                        |e: TopologyError| e is MultiPoint,
                    )]
                },
                None => *self is Valid || first_of_kind(
                    self->Errors_0@,
                    |e: TopologyError| e is MultiPoint,
                ) == -1,
            },
    {
        match self {
            TopologyResult::Valid => None,
            TopologyResult::Errors(errors) => find_kind(errors, 3),
        }
    }

    /// The first multilinestring bucket, if any.
    pub fn unwrap_err_multilinestring(&self) -> (r: Option<&TopologyError>)
        ensures
            match r {
                Some(e) => {
                    &&& *self is Errors
                    &&& first_of_kind(self->Errors_0@, |e: TopologyError| e is MultiLineString)
                        >= 0
                    &&& *e == self->Errors_0@[first_of_kind(
                        self->Errors_0@,
                        |e: TopologyError| e is MultiLineString,
                    )]
                },
                None => *self is Valid || first_of_kind(
                    self->Errors_0@,
                    |e: TopologyError| e is MultiLineString,
                ) == -1,
            },
    {
        match self {
            TopologyResult::Valid => None,
            TopologyResult::Errors(errors) => find_kind(errors, 4),
        }
    }

    /// The first multipolygon bucket, if any.
    pub fn unwrap_err_multipolygon(&self) -> (r: Option<&TopologyError>)
        ensures
            match r {
                Some(e) => {
                    &&& *self is Errors
                    &&& first_of_kind(self->Errors_0@, |e: TopologyError| e is MultiPolygon) >= 0
                    &&& *e == self->Errors_0@[first_of_kind(
                        self->Errors_0@,
                        |e: TopologyError| e is MultiPolygon,
                    )]
                },
                None => *self is Valid || first_of_kind(
                    self->Errors_0@,
                    |e: TopologyError| e is MultiPolygon,
                ) == -1,
            },
    {
        match self {
            TopologyResult::Valid => None,
            TopologyResult::Errors(errors) => find_kind(errors, 5),
        }
    }
}

/// Whether a bucket has the shape selected by `kind`: `0` for point up to
/// `5` for multipolygon, in declaration order.
fn kind_matches(e: &TopologyError, kind: u8) -> (r: bool)
    requires
        kind <= 5,
    ensures
        r == (kind_pred(kind))(*e),
{
    let r = match e {
        TopologyError::Point(_) => kind == 0,
        TopologyError::LineString(_) => kind == 1,
        TopologyError::Polygon(_) => kind == 2,
        TopologyError::MultiPoint(_) => kind == 3,
        TopologyError::MultiLineString(_) => kind == 4,
        TopologyError::MultiPolygon(_) => kind == 5,
    };
    proof {
        if kind == 0 {
            assert((kind_pred(kind))(*e) == (*e is Point));
        } else if kind == 1 {
            assert((kind_pred(kind))(*e) == (*e is LineString));
        } else if kind == 2 {
            assert((kind_pred(kind))(*e) == (*e is Polygon));
        } else if kind == 3 {
            assert((kind_pred(kind))(*e) == (*e is MultiPoint));
        } else if kind == 4 {
            assert((kind_pred(kind))(*e) == (*e is MultiLineString));
        } else {
            assert((kind_pred(kind))(*e) == (*e is MultiPolygon));
        }
    }
    r
}

/// The variant test selected by `kind`.
pub open spec fn kind_pred(kind: u8) -> spec_fn(TopologyError) -> bool {
    if kind == 0 {
        |e: TopologyError| e is Point
    } else if kind == 1 {
        |e: TopologyError| e is LineString
    } else if kind == 2 {
        |e: TopologyError| e is Polygon
    } else if kind == 3 {
        |e: TopologyError| e is MultiPoint
    } else if kind == 4 {
        |e: TopologyError| e is MultiLineString
    } else {
        |e: TopologyError| e is MultiPolygon
    }
}

/// Find the first bucket of the selected shape.
fn find_kind(errs: &Vec<TopologyError>, kind: u8) -> (r: Option<&TopologyError>)
    requires
        kind <= 5,
    ensures
        match r {
            Some(e) => {
                &&& first_of_kind(errs@, kind_pred(kind)) >= 0
                &&& *e == errs@[first_of_kind(errs@, kind_pred(kind))]
            },
            None => first_of_kind(errs@, kind_pred(kind)) == -1,
        },
{
    let mut i: usize = 0;
    while i < errs.len()
        invariant
            kind <= 5,
            0 <= i <= errs@.len(),
            forall|k: int| 0 <= k < i ==> !(kind_pred(kind))(errs@[k]),
        decreases errs@.len() - i,
    {
        if kind_matches(&errs[i], kind) {
            proof {
                lemma_first_of_kind_here(errs@, kind_pred(kind), i as int);
            }
            return Some(&errs[i]);
        }
        i = i + 1;
    }
    proof {
        lemma_first_of_kind_none(errs@, kind_pred(kind));
    }
    None
}

/// If nothing before `i` matches and `errs[i]` matches, the first match is
/// at `i`.
proof fn lemma_first_of_kind_here(
    errs: Seq<TopologyError>,
    pred: spec_fn(TopologyError) -> bool,
    i: int,
)
    requires
        0 <= i < errs.len(),
        pred(errs[i]),
        forall|k: int| 0 <= k < i ==> !pred(errs[k]),
    ensures
        first_of_kind(errs, pred) == i,
    decreases i,
{
    if i == 0 {
    } else {
        lemma_first_of_kind_here(errs.drop_first(), pred, i - 1);
    }
}

/// If nothing matches, the first match is `-1`.
proof fn lemma_first_of_kind_none(errs: Seq<TopologyError>, pred: spec_fn(TopologyError) -> bool)
    requires
        forall|k: int| 0 <= k < errs.len() ==> !pred(errs[k]),
    ensures
        first_of_kind(errs, pred) == -1,
    decreases errs.len(),
{
    if errs.len() == 0 {
    } else {
        lemma_first_of_kind_none(errs.drop_first(), pred);
    }
}

/// The verdicts of several rule evaluations, in invocation order, each under
/// its rule name.
pub struct TopologyResults(pub Vec<(String, TopologyResult)>);

impl TopologyResults {
    pub fn new(results: Vec<(String, TopologyResult)>) -> (r: TopologyResults)
        ensures
            r.0 == results,
    {
        TopologyResults(results)
    }
}

} // verus!

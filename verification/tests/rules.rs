use topology_checker::coord::{Coord, Segment};
use topology_checker::geometry::{Geometry, LineString, MultiPoint, Point, Polygon};
use topology_checker::rat::SweepPoint;
use topology_checker::result::{TopologyError, TopologyResult};
use topology_checker::rule::must_be_inside::{must_be_inside_linestrings, must_be_inside_points};
use topology_checker::rule::must_not_be_multipart::must_not_be_multipart;
use topology_checker::rule::must_not_have_dangles::must_not_have_dangles;
use topology_checker::rule::must_not_have_gaps::must_not_have_gaps;
use topology_checker::rule::must_not_intersect::must_not_intersect;
use topology_checker::rule::must_not_overlap::{
    must_not_overlap_linestrings, must_not_overlap_points, must_not_overlap_polygons,
    must_not_overlap_with_linestrings, must_not_overlap_with_points, must_not_self_overlap,
};

fn c(x: i64, y: i64) -> Coord {
    Coord::new(x, y)
}

fn pt(x: i64, y: i64) -> Point {
    Point::new(c(x, y))
}

fn sp(x: i64, y: i64) -> SweepPoint {
    SweepPoint::from_coord(c(x, y))
}

fn ls(coords: &[(i64, i64)]) -> LineString {
    let v: Vec<Coord> = coords.iter().map(|&(x, y)| c(x, y)).collect();
    LineString::from_coords(v).unwrap()
}

fn square(x0: i64, y0: i64, x1: i64, y1: i64) -> Polygon {
    Polygon::new(
        ls(&[(x0, y0), (x1, y0), (x1, y1), (x0, y1), (x0, y0)]),
        Vec::new(),
    )
}

fn point_bucket(r: &TopologyResult) -> Vec<SweepPoint> {
    match r.unwrap_err_point().unwrap() {
        TopologyError::Point(v) => v.clone(),
        _ => unreachable!(),
    }
}

fn line_bucket(r: &TopologyResult) -> Vec<LineString> {
    match r.unwrap_err_linestring().unwrap() {
        TopologyError::LineString(v) => v.clone(),
        _ => unreachable!(),
    }
}

// Point coordinates 181.2, 51.79, 184.0 and 53.0 at a grid scale of 100.
#[test]
fn overlap() {
    let input = vec![pt(18120, 5179), pt(18120, 5179), pt(18400, 5300)];
    let result = must_not_overlap_points(input);
    let errors = result.unwrap_err_point().unwrap();
    assert!(*errors == TopologyError::Point(vec![sp(18120, 5179)]));
}

#[test]
fn overlap_with() {
    let input1 = vec![pt(18120, 5179), pt(18400, 5300)];
    let input2 = vec![pt(18120, 5179)];
    let result = must_not_overlap_with_points(input1, input2);
    let errors = result.unwrap_err_point().unwrap();
    assert!(*errors == TopologyError::Point(vec![sp(18120, 5179)]));
}

#[test]
fn self_overlap() {
    let input = vec![ls(&[(1, 1), (4, 4), (2, 2)])];
    let result = must_not_self_overlap(input);
    let errors = result.unwrap_err_linestring().unwrap();
    assert!(*errors == TopologyError::LineString(vec![ls(&[(4, 4), (2, 2)])]));
}

#[test]
fn lines_overlap() {
    let input = vec![ls(&[(1, 1), (4, 4)]), ls(&[(4, 4), (2, 2)])];
    let result = must_not_overlap_linestrings(input);
    let errors = result.unwrap_err_linestring().unwrap();
    assert!(*errors == TopologyError::LineString(vec![ls(&[(2, 2), (4, 4)])]));
}

#[test]
fn lines_overlap_with() {
    let input1 = vec![ls(&[(1, 1), (4, 4)])];
    let input2 = vec![ls(&[(4, 4), (2, 2)])];
    let result = must_not_overlap_with_linestrings(input1, input2);
    let errors = result.unwrap_err_linestring().unwrap();
    assert!(*errors == TopologyError::LineString(vec![ls(&[(4, 4), (2, 2)])]));
}

// Unit squares at a grid scale of 100: the second square lies inside the
// first, so the reported overlap piece is the second square itself.
#[test]
fn polygons_overlap() {
    let a = square(0, 0, 100, 100);
    let b = square(25, 25, 75, 75);
    let result = must_not_overlap_polygons(vec![a, b]);
    assert!(!result.is_valid());
    let errors = result.unwrap_err_polygon().unwrap();
    let pieces = match errors {
        TopologyError::Polygon(v) => v,
        _ => unreachable!(),
    };
    assert_eq!(pieces.len(), 1);
    let piece = &pieces[0];
    assert!(piece.interiors.is_empty());
    let ring = &piece.exterior.coords;
    assert_eq!(ring.len(), 5);
    assert_eq!(ring[0], ring[4]);
    for corner in [c(25, 25), c(75, 25), c(75, 75), c(25, 75)] {
        assert!(ring.contains(&corner));
    }
}

#[test]
fn polygons_disjoint_valid() {
    let a = square(0, 0, 10, 10);
    let b = square(20, 20, 30, 30);
    let result = must_not_overlap_polygons(vec![a, b]);
    assert!(result.is_valid());
}

#[test]
fn points_distinct_valid() {
    let input = vec![pt(1, 1), pt(2, 2), pt(3, 3)];
    assert!(must_not_overlap_points(input).is_valid());
}

// Points at a grid scale of 100000; the polygon is the unit square.
#[test]
fn must_be_inside_points_valid() {
    let polygons = vec![square(0, 0, 100000, 100000), square(25000, 25000, 75000, 75000)];
    let input = vec![pt(1000, 1000), pt(50000, 50000), pt(50000, 50000), pt(50000, 50000)];
    let result = must_be_inside_points(input, polygons);
    assert!(result.is_valid());
}

#[test]
fn must_be_inside_points_invalid() {
    let polygons = vec![square(0, 0, 100000, 100000), square(25000, 25000, 75000, 75000)];
    let input = vec![
        pt(0, 0),
        pt(-100000, -100000),
        pt(50000, 50000),
        pt(99900000, 99900000),
    ];
    let result = must_be_inside_points(input, polygons);
    let invalid = [sp(99900000, 99900000), sp(-100000, -100000), sp(0, 0)];
    let bucket = point_bucket(&result);
    for p in &bucket {
        assert!(invalid.contains(p));
    }
    assert_eq!(bucket.len(), 3);
    assert!(!bucket.contains(&sp(50000, 50000)));
}

#[test]
fn must_be_inside_valid() {
    let polygons = vec![square(0, 0, 100, 100)];
    let lines = vec![ls(&[(10, 10), (90, 20), (50, 80)])];
    let result = must_be_inside_linestrings(lines, polygons);
    assert!(result.is_valid());
}

#[test]
fn must_be_inside_invalid() {
    let polygons = vec![square(0, 0, 100, 100)];
    let inside = ls(&[(10, 10), (90, 20)]);
    let crossing = ls(&[(50, 50), (150, 50)]);
    let outside = ls(&[(200, 200), (300, 300)]);
    let result = must_be_inside_linestrings(
        vec![inside, crossing.clone(), outside.clone()],
        polygons,
    );
    assert!(!result.is_valid());
    let bucket = line_bucket(&result);
    assert!(bucket == vec![crossing, outside]);
}

// Linestring endpoints at a grid scale of 1000000.
#[test]
fn dangles_touches_three() {
    let lines = vec![
        ls(&[(-21951560, 64144600), (-21951000, 64144790)]),
        ls(&[(-21951000, 64144790), (-21950440, 64145270)]),
        ls(&[(-21950440, 64145270), (-21951445, 64145508)]),
    ];
    let result = must_not_have_dangles(&lines);
    assert!(!result.is_valid());
    let bucket = point_bucket(&result);
    assert_eq!(bucket.len(), 2);
    assert!(bucket.contains(&sp(-21951560, 64144600)));
    assert!(bucket.contains(&sp(-21951445, 64145508)));
}

#[test]
fn dangles_ring_valid() {
    let lines = vec![ls(&[(0, 0), (10, 0), (5, 8), (0, 0)])];
    assert!(must_not_have_dangles(&lines).is_valid());
}

#[test]
fn intersect_crossing_reported() {
    let lines = vec![ls(&[(0, 0), (10, 10)]), ls(&[(0, 10), (10, 0)])];
    let result = must_not_intersect(&lines);
    assert!(!result.is_valid());
    let bucket = point_bucket(&result);
    assert!(bucket == vec![sp(5, 5)]);
}

#[test]
fn intersect_junction_valid() {
    let lines = vec![
        ls(&[(0, 0), (5, 5)]),
        ls(&[(5, 5), (10, 0)]),
        ls(&[(5, 5), (5, 10)]),
    ];
    assert!(must_not_intersect(&lines).is_valid());
}

#[test]
fn intersect_collinear_reported() {
    let lines = vec![ls(&[(0, 0), (10, 0)]), ls(&[(4, 0), (6, 0)])];
    let result = must_not_intersect(&lines);
    assert!(!result.is_valid());
    let bucket = line_bucket(&result);
    assert!(bucket == vec![ls(&[(4, 0), (6, 0)])]);
}

#[test]
fn gaps_single_square_reports_boundary() {
    let result = must_not_have_gaps(vec![square(0, 0, 10, 10)]);
    assert!(!result.is_valid());
    let bucket = line_bucket(&result);
    assert_eq!(bucket.len(), 4);
}

#[test]
fn gaps_doubled_coverage_valid() {
    let result = must_not_have_gaps(vec![square(0, 0, 10, 10), square(0, 0, 10, 10)]);
    assert!(result.is_valid());
}

#[test]
fn multipart_partitioned() {
    let single = Geometry::Point(pt(1, 1));
    let multi = Geometry::MultiPoint(MultiPoint { points: vec![pt(2, 2), pt(3, 3)] });
    let result = must_not_be_multipart(vec![single, multi]);
    assert!(!result.is_valid());
    let errors = result.unwrap_err_multipoint().unwrap();
    match errors {
        TopologyError::MultiPoint(v) => {
            assert_eq!(v.len(), 1);
            assert_eq!(v[0].points.len(), 2);
        },
        _ => unreachable!(),
    }
    assert!(result.unwrap_err_multilinestring().is_none());
    assert!(result.unwrap_err_multipolygon().is_none());
}

#[test]
fn multipart_single_parts_valid() {
    let gs = vec![Geometry::Point(pt(1, 1)), Geometry::LineString(ls(&[(0, 0), (1, 1)]))];
    assert!(must_not_be_multipart(gs).is_valid());
}

// Running the kernel twice over the same segments yields the same three
// outcome sets.
#[test]
fn intersections_deterministic() {
    let segs = vec![
        Segment::new(c(0, 0), c(10, 10)),
        Segment::new(c(0, 10), c(10, 0)),
        Segment::new(c(0, 0), c(10, 0)),
        Segment::new(c(4, 0), c(6, 0)),
    ];
    let first = topology_checker::sweep::intersections(&segs);
    let second = topology_checker::sweep::intersections(&segs);
    assert!(first.0 == second.0);
    assert!(first.1 == second.1);
    assert!(first.2 == second.2);
}

#[test]
fn crossing_point_is_exact() {
    // The diagonals of the unit square at scale 3 cross at the rational
    // point (3/2, 3/2).
    let segs = vec![Segment::new(c(0, 0), c(3, 3)), Segment::new(c(0, 3), c(3, 0))];
    let (_, proper, _) = topology_checker::sweep::intersections(&segs);
    assert_eq!(proper.len(), 1);
    assert_eq!(proper[0], SweepPoint { xn: 3, xd: 2, yn: 3, yd: 2 });
}

#[test]
fn polygons_overlap_with() {
    let input1 = vec![square(0, 0, 100, 100)];
    let input2 = vec![square(25, 25, 75, 75)];
    let result = topology_checker::rule::must_not_overlap::must_not_overlap_with_polygons(
        input1, input2,
    );
    assert!(!result.is_valid());
    let errors = result.unwrap_err_polygon().unwrap();
    let pieces = match errors {
        TopologyError::Polygon(v) => v,
        _ => unreachable!(),
    };
    assert_eq!(pieces.len(), 1);
    let ring = &pieces[0].exterior.coords;
    assert_eq!(ring.len(), 5);
    for corner in [c(25, 25), c(75, 25), c(75, 75), c(25, 75)] {
        assert!(ring.contains(&corner));
    }
}

// Three segments concurrent at one coordinate where one incidence is an
// endpoint: the coordinate is improper, never proper.
#[test]
fn concurrent_point_classified_once() {
    let segs = vec![
        Segment::new(c(0, 0), c(10, 10)),
        Segment::new(c(0, 10), c(10, 0)),
        Segment::new(c(5, 5), c(9, 0)),
    ];
    let (_, proper, improper) = topology_checker::sweep::intersections(&segs);
    assert!(improper.contains(&c(5, 5)));
    assert!(!proper.contains(&sp(5, 5)));
    assert!(proper.is_empty());
}

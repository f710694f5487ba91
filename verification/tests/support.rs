use topology_checker::args::{
    Command, GeometryCommand, GeometryRules, LineCommand, LineRules, PointCommand, PointRules,
    rule_name,
};
use topology_checker::coord::{Coord, Segment};
use topology_checker::index::{segment_envelope, SpatialIndex};
use topology_checker::drivers::{DriverRecord, GdalDrivers};
use topology_checker::geometry::{
    flatten_linestrings, flatten_points, flatten_polygons, is_line, is_point, is_polygon,
    linestring_endpoints, linestring_inner_points, Geometry, LineString, MultiLineString, Point,
    Polygon,
};
use topology_checker::rules::Rules;

fn c(x: i64, y: i64) -> Coord {
    Coord::new(x, y)
}

fn ls(coords: &[(i64, i64)]) -> LineString {
    let v: Vec<Coord> = coords.iter().map(|&(x, y)| c(x, y)).collect();
    LineString::from_coords(v).unwrap()
}

fn record(name: &str, exts: &[&str], read: bool, write: bool) -> DriverRecord {
    DriverRecord {
        name: name.to_string(),
        extensions: exts.iter().map(|e| e.to_string()).collect(),
        can_read: read,
        can_write: write,
    }
}

#[test]
fn infer_driver_name() {
    let drivers = GdalDrivers::new(vec![
        record("ESRI Shapefile", &["shp", "dbf"], true, true),
        record("GPKG", &["gpkg"], true, true),
        record("ReadOnly", &["ro"], true, false),
    ]);
    let hit = drivers.infer_driver_name(&"gpkg".to_string()).unwrap();
    assert_eq!(hit.name, "GPKG");
    assert!(drivers.infer_driver_name(&"nope".to_string()).is_none());
}

#[test]
fn read_write() {
    let drivers = GdalDrivers::new(vec![
        record("A", &["a"], true, true),
        record("B", &["b"], true, false),
        record("C", &["c"], false, true),
    ]);
    let rw: Vec<String> = drivers.read_write().into_iter().map(|r| r.name).collect();
    assert_eq!(rw, vec!["A".to_string()]);
}

#[test]
fn read() {
    let drivers = GdalDrivers::new(vec![
        record("A", &["a"], true, true),
        record("B", &["b"], true, false),
        record("C", &["c"], false, true),
    ]);
    let readable: Vec<String> = drivers.read().into_iter().map(|r| r.name).collect();
    assert_eq!(readable, vec!["A".to_string(), "B".to_string()]);
}

#[test]
fn write() {
    let drivers = GdalDrivers::new(vec![
        record("A", &["a"], true, true),
        record("B", &["b"], true, false),
        record("C", &["c"], false, true),
    ]);
    let writable: Vec<String> = drivers.write().into_iter().map(|r| r.name).collect();
    assert_eq!(writable, vec!["A".to_string(), "C".to_string()]);
}

#[test]
fn rules_available() {
    let line = Geometry::LineString(ls(&[(0, 0), (1, 1)]));
    assert_eq!(
        Rules::available(&line).unwrap(),
        vec![Rules::ThereAreNoDangles, Rules::MustNotIntersect]
    );
    let poly = Geometry::Polygon(Polygon::new(
        ls(&[(0, 0), (1, 0), (1, 1), (0, 1), (0, 0)]),
        Vec::new(),
    ));
    assert_eq!(Rules::available(&poly).unwrap(), vec![Rules::MustNotOverlap]);
    let point = Geometry::Point(Point::new(c(0, 0)));
    assert!(Rules::available(&point).is_none());
}

#[test]
fn rule_names() {
    let cmd = Command::Line(LineCommand {
        command: LineRules::MustNotHaveDangles { lines: "a".to_string(), dangles: None },
    });
    assert_eq!(rule_name(&cmd).unwrap(), "must-not-have-dangles");
    let cmd = Command::Point(PointCommand {
        command: PointRules::MustBeInside {
            points: "a".to_string(),
            polygons: "b".to_string(),
            outside: None,
        },
    });
    assert_eq!(rule_name(&cmd).unwrap(), "must-be-inside");
    let cmd = Command::Geometry(GeometryCommand {
        command: GeometryRules::MustNotBeMultipart {
            geometries: "a".to_string(),
            multiparts: None,
        },
    });
    assert_eq!(rule_name(&cmd).unwrap(), "must-not-be-multipart");
}

#[test]
fn flatten_splits_multiparts() {
    let a = ls(&[(0, 0), (1, 1)]);
    let b = ls(&[(2, 2), (3, 3)]);
    let gs = vec![
        Geometry::LineString(a.clone()),
        Geometry::MultiLineString(MultiLineString { linestrings: vec![b.clone()] }),
    ];
    let flat = flatten_linestrings(gs).unwrap();
    assert!(flat == vec![a, b]);
}

#[test]
fn flatten_rejects_wrong_kind() {
    let gs = vec![Geometry::Point(Point::new(c(0, 0)))];
    assert!(flatten_linestrings(gs).is_err());
    let gs = vec![Geometry::Point(Point::new(c(0, 0)))];
    assert!(flatten_polygons(gs).is_err());
    let gs = vec![Geometry::LineString(ls(&[(0, 0), (1, 1)]))];
    assert!(flatten_points(gs).is_err());
}

#[test]
fn kind_tests() {
    let p = Geometry::Point(Point::new(c(0, 0)));
    let l = Geometry::LineString(ls(&[(0, 0), (1, 1)]));
    assert!(is_point(&p) && !is_line(&p) && !is_polygon(&p));
    assert!(is_line(&l) && !is_point(&l));
}

#[test]
fn endpoints_and_inner_points() {
    let lines = vec![ls(&[(0, 0), (5, 5), (9, 9)])];
    let ends = linestring_endpoints(&lines);
    assert_eq!(ends, vec![c(0, 0), c(9, 9)]);
    let inner = linestring_inner_points(&lines);
    assert_eq!(inner, vec![c(5, 5)]);
}

#[test]
fn linestring_validation() {
    assert!(LineString::from_coords(vec![c(0, 0)]).is_none());
    assert!(LineString::from_coords(vec![c(0, 0), c(0, 0)]).is_none());
    assert!(LineString::from_coords(vec![c(0, 0), c(200_000_001, 0)]).is_none());
    assert!(LineString::from_coords(vec![c(0, 0), c(1, 1)]).is_some());
}

#[test]
fn spatial_index_query() {
    let segs = vec![
        Segment::new(c(0, 0), c(10, 10)),
        Segment::new(c(20, 20), c(30, 30)),
        Segment::new(c(5, 5), c(6, 6)),
    ];
    let index = SpatialIndex::build(segs.iter().map(segment_envelope).collect());
    let hits = index.envelope_query(&segment_envelope(&Segment::new(c(4, 4), c(7, 7))));
    assert_eq!(hits, vec![0, 2]);
    let empty = index.envelope_query(&segment_envelope(&Segment::new(c(50, 50), c(60, 60))));
    assert!(empty.is_empty());
}

#[test]
fn spatial_index_candidate_pairs() {
    let a = SpatialIndex::build(vec![
        segment_envelope(&Segment::new(c(0, 0), c(10, 10))),
        segment_envelope(&Segment::new(c(100, 100), c(110, 110))),
    ]);
    let b = SpatialIndex::build(vec![segment_envelope(&Segment::new(c(5, 5), c(7, 7)))]);
    let pairs = a.candidate_pairs(&b);
    assert_eq!(pairs, vec![(0, 0)]);
}

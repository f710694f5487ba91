//! Library-wide laws, stated and proved once over the spec-level models.

use vstd::prelude::*;

use crate::coord::{Coord, Segment};
use crate::geometry::{Geometry, LineString, Point};
use crate::rat::{spec_sweep_of_coord, SweepPoint};
use crate::rule::must_be_inside::{
    outside_linestrings, some_poly_contains, some_poly_contains_ls,
};
use crate::rule::must_not_be_multipart::{
    multilinestrings_of, multipoints_of, multipolygons_of,
};
use crate::sweep::{pair_improper, pair_overlap, proper_only};

verus! {

/// The intersection sets are a function of the segment set alone: two runs
/// of the kernel over the same segments agree on every overlap segment,
/// every proper crossing point and every improper intersection coordinate.
///
/// The kernel's contract characterises each output set by membership over
/// the input; any two outputs satisfying it therefore have the same
/// members.
pub proof fn lemma_intersections_deterministic(
    segs: Seq<Segment>,
    o1: Seq<Segment>,
    o2: Seq<Segment>,
    p1: Seq<SweepPoint>,
    p2: Seq<SweepPoint>,
    i1: Seq<Coord>,
    i2: Seq<Coord>,
)
    requires
        forall|s: Segment| #[trigger] o1.contains(s) <==> pair_overlap(segs, s),
        forall|s: Segment| #[trigger] o2.contains(s) <==> pair_overlap(segs, s),
        forall|p: SweepPoint| #[trigger] p1.contains(p) <==> proper_only(segs, p),
        forall|p: SweepPoint| #[trigger] p2.contains(p) <==> proper_only(segs, p),
        forall|c: Coord| #[trigger] i1.contains(c) <==> pair_improper(segs, c),
        forall|c: Coord| #[trigger] i2.contains(c) <==> pair_improper(segs, c),
    ensures
        forall|s: Segment| #[trigger] o1.contains(s) <==> o2.contains(s),
        forall|p: SweepPoint| #[trigger] p1.contains(p) <==> p2.contains(p),
        forall|c: Coord| #[trigger] i1.contains(c) <==> i2.contains(c),
{
}

/// The multipart classification partitions the input: every geometry is
/// either a single-part geometry, or lands in exactly the group of its
/// kind, and the groups hold nothing else.
pub proof fn lemma_multipart_partition(gs: Seq<Geometry>)
    ensures
        multipoints_of(gs).len() + multilinestrings_of(gs).len() + multipolygons_of(gs).len()
            == count_multi(gs),
        forall|k: int|
            0 <= k < gs.len() && gs[k] is MultiPoint ==> multipoints_of(gs).contains(
                (#[trigger] gs[k])->MultiPoint_0,
            ),
        forall|k: int|
            0 <= k < gs.len() && gs[k] is MultiLineString ==> multilinestrings_of(gs).contains(
                (#[trigger] gs[k])->MultiLineString_0,
            ),
        forall|k: int|
            0 <= k < gs.len() && gs[k] is MultiPolygon ==> multipolygons_of(gs).contains(
                (#[trigger] gs[k])->MultiPolygon_0,
            ),
    decreases gs.len(),
{
    if gs.len() > 0 {
        lemma_multipart_partition(gs.drop_last());
        assert(gs.drop_last().len() == gs.len() - 1);
        assert forall|k: int|
            0 <= k < gs.len() && gs[k] is MultiPoint implies multipoints_of(gs).contains(
            (#[trigger] gs[k])->MultiPoint_0,
        ) by {
            if k < gs.len() - 1 {
                assert(gs.drop_last()[k] == gs[k]);
                assert(multipoints_of(gs.drop_last()).contains(gs[k]->MultiPoint_0));
                let m = choose|m: int|
                    0 <= m < multipoints_of(gs.drop_last()).len() && multipoints_of(
                        gs.drop_last(),
                    )[m] == gs[k]->MultiPoint_0;
                assert(multipoints_of(gs)[m] == gs[k]->MultiPoint_0);
            } else {
                assert(multipoints_of(gs).last() == gs[k]->MultiPoint_0);
            }
        }
        assert forall|k: int|
            0 <= k < gs.len() && gs[k] is MultiLineString implies multilinestrings_of(
            gs,
        ).contains((#[trigger] gs[k])->MultiLineString_0) by {
            if k < gs.len() - 1 {
                assert(gs.drop_last()[k] == gs[k]);
                assert(multilinestrings_of(gs.drop_last()).contains(gs[k]->MultiLineString_0));
                let m = choose|m: int|
                    0 <= m < multilinestrings_of(gs.drop_last()).len() && multilinestrings_of(
                        gs.drop_last(),
                    )[m] == gs[k]->MultiLineString_0;
                assert(multilinestrings_of(gs)[m] == gs[k]->MultiLineString_0);
            } else {
                assert(multilinestrings_of(gs).last() == gs[k]->MultiLineString_0);
            }
        }
        assert forall|k: int|
            0 <= k < gs.len() && gs[k] is MultiPolygon implies multipolygons_of(gs).contains(
            (#[trigger] gs[k])->MultiPolygon_0,
        ) by {
            if k < gs.len() - 1 {
                assert(gs.drop_last()[k] == gs[k]);
                assert(multipolygons_of(gs.drop_last()).contains(gs[k]->MultiPolygon_0));
                let m = choose|m: int|
                    0 <= m < multipolygons_of(gs.drop_last()).len() && multipolygons_of(
                        gs.drop_last(),
                    )[m] == gs[k]->MultiPolygon_0;
                assert(multipolygons_of(gs)[m] == gs[k]->MultiPolygon_0);
            } else {
                assert(multipolygons_of(gs).last() == gs[k]->MultiPolygon_0);
            }
        }
    }
}

/// The inside rule's point verdict is the containment predicate, pointwise:
/// under the rule's bucket characterisation, an input point is reported
/// exactly when no polygon strictly contains its coordinate.
pub proof fn lemma_must_be_inside_points_law(
    points: Seq<Point>,
    polys: Seq<Seq<Seq<Coord>>>,
    bucket: Seq<SweepPoint>,
)
    requires
        forall|c: Coord| #[trigger]
            bucket.contains(spec_sweep_of_coord(c)) <==> (exists|k: int|
                0 <= k < points.len() && (#[trigger] points[k]).coord == c
                    && !some_poly_contains(polys, c)),
    ensures
        forall|k: int|
            0 <= k < points.len() ==> (#[trigger] bucket.contains(
                spec_sweep_of_coord(points[k].coord),
            ) <==> !some_poly_contains(polys, points[k].coord)),
{
    assert forall|k: int|
        0 <= k < points.len() implies (#[trigger] bucket.contains(
        spec_sweep_of_coord(points[k].coord),
    ) <==> !some_poly_contains(polys, points[k].coord)) by {
        if !some_poly_contains(polys, points[k].coord) {
            assert(points[k].coord == points[k].coord && !some_poly_contains(
                polys,
                points[k].coord,
            ));
        }
    }
}

/// The linestrings reported by the inside rule are exactly the members that
/// no polygon strictly contains.
pub proof fn lemma_must_be_inside_linestrings_law(
    lss: Seq<Seq<Coord>>,
    polys: Seq<Seq<Seq<Coord>>>,
)
    ensures
        forall|k: int|
            0 <= k < lss.len() ==> (outside_linestrings(lss, polys).contains(#[trigger] lss[k])
                <==> !some_poly_contains_ls(polys, lss[k])),
    decreases lss.len(),
{
    assert forall|k: int|
        0 <= k < lss.len() implies (outside_linestrings(lss, polys).contains(#[trigger] lss[k])
        <==> !some_poly_contains_ls(polys, lss[k])) by {
        lemma_outside_membership(lss, polys, lss[k]);
        if !some_poly_contains_ls(polys, lss[k]) {
        }
    }
}

/// A coordinate run occurs among the outside linestrings exactly when some
/// member with that run is not contained in any polygon.
proof fn lemma_outside_membership(lss: Seq<Seq<Coord>>, polys: Seq<Seq<Seq<Coord>>>, v: Seq<Coord>)
    ensures
        outside_linestrings(lss, polys).contains(v) <==> (exists|m: int|
            0 <= m < lss.len() && #[trigger] lss[m] == v && !some_poly_contains_ls(polys, v)),
    decreases lss.len(),
{
    if lss.len() > 0 {
        lemma_outside_membership(lss.drop_last(), polys, v);
        let rest = outside_linestrings(lss.drop_last(), polys);
        let whole = outside_linestrings(lss, polys);
        if whole.contains(v) {
            let p = choose|p: int| 0 <= p < whole.len() && whole[p] == v;
            if p < rest.len() {
                assert(rest[p] == v);
                assert(rest.contains(v));
                let m = choose|m: int|
                    0 <= m < lss.drop_last().len() && #[trigger] lss.drop_last()[m] == v
                        && !some_poly_contains_ls(polys, v);
                assert(lss[m] == v);
            } else {
                assert(whole[p] == lss.last());
                assert(lss[lss.len() - 1] == v);
            }
        }
        if exists|m: int|
            0 <= m < lss.len() && #[trigger] lss[m] == v && !some_poly_contains_ls(polys, v) {
            let m = choose|m: int|
                0 <= m < lss.len() && #[trigger] lss[m] == v && !some_poly_contains_ls(polys, v);
            if m < lss.len() - 1 {
                assert(lss.drop_last()[m] == v);
                assert(rest.contains(v));
                let p = choose|p: int| 0 <= p < rest.len() && rest[p] == v;
                assert(whole[p] == v);
            } else {
                assert(whole[whole.len() - 1] == v);
            }
        }
    }
}

/// How many geometries of the sequence are multi-part.
pub open spec fn count_multi(gs: Seq<Geometry>) -> nat
    decreases gs.len(),
{
    if gs.len() == 0 {
        0
    } else {
        count_multi(gs.drop_last()) + (match gs.last() {
            Geometry::MultiPoint(_) => 1nat,
            Geometry::MultiLineString(_) => 1nat,
            Geometry::MultiPolygon(_) => 1nat,
            _ => 0nat,
        })
    }
}

} // verus!

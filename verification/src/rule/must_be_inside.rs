//! The `must-be-inside` rule: every input geometry must lie strictly inside
//! some polygon of the reference collection.
//!
//! Containment is strict: a point on a polygon's boundary is not inside.
//! Interior membership is decided by the crossing-number parity of a
//! horizontal ray, evaluated exactly.

use vstd::prelude::*;

use crate::coord::{Coord, Segment};
use crate::geometry::{
    ls_segments, ls_touches, ls_views, ls_wf, poly_views, LineString, Point, Polygon,
};
use crate::rat::{spec_sweep_of_coord, SweepPoint};
use crate::result::{TopologyError, TopologyResult};
use crate::rule::must_not_have_dangles::sweep_bucket;
use crate::sweep::{classify, no_dups, push_unique_sweep, spec_classify, SegmentIntersection};

verus! {

/// The edge from `p` to `q` crosses the leftward horizontal ray from `c`:
/// the edge spans the ray's height (lower end inclusive, upper end
/// exclusive) and meets it strictly to the right of `c`.
pub open spec fn edge_crosses(p: Coord, q: Coord, c: Coord) -> bool {
    ((p.y > c.y) != (q.y > c.y)) && (if q.y - p.y > 0 {
        (c.x - p.x) * (q.y - p.y) < (q.x - p.x) * (c.y - p.y)
    } else {
        (c.x - p.x) * (q.y - p.y) > (q.x - p.x) * (c.y - p.y)
    })
}

/// How many of the first `k` edges of the ring cross the ray from `c`.
pub open spec fn crossings_upto(ring: Seq<Coord>, c: Coord, k: int) -> nat
    decreases k,
{
    if k <= 0 {
        0
    } else {
        crossings_upto(ring, c, k - 1) + (if edge_crosses(ring[k - 1], ring[k], c) {
            1nat
        } else {
            0nat
        })
    }
}

/// `c` lies strictly inside the region bounded by the ring: it is not on
/// the ring and the ray from `c` crosses the ring an odd number of times.
pub open spec fn in_ring(ring: Seq<Coord>, c: Coord) -> bool {
    !ls_touches(ring, c) && crossings_upto(ring, c, ring.len() - 1) % 2 == 1
}

/// `c` lies strictly inside the polygon: inside the exterior ring, not on
/// any ring, and not inside any hole.
pub open spec fn poly_contains_coord(rings: Seq<Seq<Coord>>, c: Coord) -> bool {
    &&& rings.len() >= 1
    &&& in_ring(rings[0], c)
    &&& forall|h: int|
        1 <= h < rings.len() ==> !in_ring(#[trigger] rings[h], c) && !ls_touches(rings[h], c)
}

/// Exact ray-crossing test for one edge.
fn edge_crosses_exec(p: Coord, q: Coord, c: Coord) -> (r: bool)
    requires
        p.wf(),
        q.wf(),
        c.wf(),
    ensures
        r == edge_crosses(p, q, c),
{
    if (p.y > c.y) == (q.y > c.y) {
        return false;
    }
    let cpx: i128 = c.x as i128 - p.x as i128;
    let dy: i128 = q.y as i128 - p.y as i128;
    let dx: i128 = q.x as i128 - p.x as i128;
    let cpy: i128 = c.y as i128 - p.y as i128;
    assert(-40_000_000_000_000_000i128 <= cpx * dy <= 40_000_000_000_000_000i128)
        by (nonlinear_arith)
        requires
            -200_000_000 <= cpx <= 200_000_000,
            -200_000_000 <= dy <= 200_000_000,
    ;
    assert(-40_000_000_000_000_000i128 <= dx * cpy <= 40_000_000_000_000_000i128)
        by (nonlinear_arith)
        requires
            -200_000_000 <= dx <= 200_000_000,
            -200_000_000 <= cpy <= 200_000_000,
    ;
    if dy > 0 {
        cpx * dy < dx * cpy
    } else {
        cpx * dy > dx * cpy
    }
}

impl Polygon {
    /// Whether `c` lies strictly inside the polygon.
    pub fn contains_coord(&self, c: Coord) -> (r: bool)
        requires
            self.wf(),
            c.wf(),
        ensures
            r == poly_contains_coord(self@, c),
    {
        proof {
            assert(self@[0] == self.exterior@);
        }
        if self.exterior.touches_coord(c) {
            return false;
        }
        if !ring_parity(&self.exterior, c) {
            return false;
        }
        let mut h: usize = 0;
        while h < self.interiors.len()
            invariant
                self.wf(),
                c.wf(),
                0 <= h <= self.interiors@.len(),
                self@.len() == 1 + self.interiors@.len(),
                forall|m: int|
                    1 <= m < h + 1 ==> !in_ring(#[trigger] self@[m], c) && !ls_touches(
                        self@[m],
                        c,
                    ),
                in_ring(self@[0], c),
            decreases self.interiors@.len() - h,
        {
            proof {
                assert(self@[h + 1] == self.interiors@[h as int]@);
                assert(self.interiors@[h as int].wf()) by {
                    assert(crate::geometry::ring_wf(self@[h + 1]));
                }
            }
            if self.interiors[h].touches_coord(c) {
                return false;
            }
            if ring_parity(&self.interiors[h], c) {
                return false;
            }
            h = h + 1;
        }
        true
    }
}

/// Whether the ray from `c` crosses the ring an odd number of times.
fn ring_parity(ring: &LineString, c: Coord) -> (r: bool)
    requires
        ring.wf(),
        c.wf(),
    ensures
        r == (crossings_upto(ring@, c, ring@.len() - 1) % 2 == 1),
{
    let mut odd: bool = false;
    let n: usize = ring.coords.len() - 1;
    let mut k: usize = 0;
    while k < n
        invariant
            ring.wf(),
            c.wf(),
            n == ring@.len() - 1,
            0 <= k <= n,
            odd == (crossings_upto(ring@, c, k as int) % 2 == 1),
        decreases n - k,
    {
        if edge_crosses_exec(ring.coords[k], ring.coords[k + 1], c) {
            odd = !odd;
        }
        k = k + 1;
    }
    odd
}

/// Some polygon of the sequence strictly contains `c`.
pub open spec fn some_poly_contains(polys: Seq<Seq<Seq<Coord>>>, c: Coord) -> bool {
    exists|i: int| 0 <= i < polys.len() && poly_contains_coord(#[trigger] polys[i], c)
}

/// Whether some polygon of the vector strictly contains `c`.
fn any_poly_contains(polygons: &Vec<Polygon>, c: Coord) -> (r: bool)
    requires
        forall|i: int| 0 <= i < polygons@.len() ==> (#[trigger] polygons@[i]).wf(),
        c.wf(),
    ensures
        r == some_poly_contains(poly_views(polygons@), c),
{
    proof {
        assert(poly_views(polygons@).len() == polygons@.len());
    }
    let mut i: usize = 0;
    while i < polygons.len()
        invariant
            forall|m: int| 0 <= m < polygons@.len() ==> (#[trigger] polygons@[m]).wf(),
            c.wf(),
            0 <= i <= polygons@.len(),
            forall|m: int|
                0 <= m < i ==> !poly_contains_coord(#[trigger] poly_views(polygons@)[m], c),
        decreases polygons@.len() - i,
    {
        proof {
            assert(poly_views(polygons@)[i as int] == polygons@[i as int]@);
        }
        if polygons[i].contains_coord(c) {
            return true;
        }
        i = i + 1;
    }
    proof {
        assert forall|m: int|
            0 <= m < poly_views(polygons@).len() implies !poly_contains_coord(
            #[trigger] poly_views(polygons@)[m],
            c,
        ) by {}
    }
    false
}

/// Report every input point that no polygon strictly contains.
///
/// The verdict is `Valid` exactly when each point lies strictly inside some
/// polygon; points on a polygon boundary are reported. The single point
/// bucket holds each offending coordinate exactly once.
pub fn must_be_inside_points(points: Vec<Point>, polygons: Vec<Polygon>) -> (r: TopologyResult)
    requires
        forall|i: int| 0 <= i < points@.len() ==> (#[trigger] points@[i]).wf(),
        forall|i: int| 0 <= i < polygons@.len() ==> (#[trigger] polygons@[i]).wf(),
    ensures
        r is Valid <==> (forall|k: int|
            0 <= k < points@.len() ==> some_poly_contains(
                poly_views(polygons@),
                (#[trigger] points@[k]).coord,
            )),
        r is Errors ==> {
            let v = r->Errors_0@;
            &&& v.len() == 1
            &&& v[0] is Point
            &&& v[0]->Point_0@.len() > 0
            &&& no_dups(v[0]->Point_0@)
            &&& forall|c: Coord| #[trigger]
                v[0]->Point_0@.contains(spec_sweep_of_coord(c)) <==> (exists|k: int|
                    0 <= k < points@.len() && (#[trigger] points@[k]).coord == c
                        && !some_poly_contains(poly_views(polygons@), c))
            &&& forall|p: SweepPoint| #[trigger]
                v[0]->Point_0@.contains(p) ==> exists|c: Coord| p == spec_sweep_of_coord(c)
        },
{
    let ghost pv = poly_views(polygons@);
    let mut outside: Vec<SweepPoint> = Vec::new();
    let n: usize = points.len();
    let mut k: usize = 0;
    while k < n
        invariant
            n == points@.len(),
            forall|i: int| 0 <= i < points@.len() ==> (#[trigger] points@[i]).wf(),
            forall|i: int| 0 <= i < polygons@.len() ==> (#[trigger] polygons@[i]).wf(),
            pv == poly_views(polygons@),
            0 <= k <= n,
            forall|c: Coord| #[trigger]
                outside@.contains(spec_sweep_of_coord(c)) <==> (exists|m: int|
                    0 <= m < k && (#[trigger] points@[m]).coord == c && !some_poly_contains(
                        pv,
                        c,
                    )),
            forall|p: SweepPoint| #[trigger]
                outside@.contains(p) ==> exists|c: Coord| p == spec_sweep_of_coord(c),
            no_dups(outside@),
        decreases n - k,
    {
        let c = points[k].coord;
        let inside = any_poly_contains(&polygons, c);
        if !inside {
            push_unique_sweep(&mut outside, SweepPoint::from_coord(c));
        }
        proof {
            let gk = k as int;
            assert forall|c2: Coord| #[trigger]
                outside@.contains(spec_sweep_of_coord(c2)) implies (exists|m: int|
                0 <= m < gk + 1 && (#[trigger] points@[m]).coord == c2 && !some_poly_contains(
                    pv,
                    c2,
                )) by {
                if !inside && c2 == points@[gk].coord {
                    assert(points@[gk].coord == c2 && !some_poly_contains(pv, c2));
                } else {
                    let m = choose|m: int|
                        0 <= m < gk && (#[trigger] points@[m]).coord == c2 && !some_poly_contains(
                            pv,
                            c2,
                        );
                }
            }
            assert forall|c2: Coord|
                (exists|m: int|
                    0 <= m < gk + 1 && (#[trigger] points@[m]).coord == c2 && !some_poly_contains(
                        pv,
                        c2,
                    )) implies #[trigger] outside@.contains(spec_sweep_of_coord(c2)) by {
                let m = choose|m: int|
                    0 <= m < gk + 1 && (#[trigger] points@[m]).coord == c2 && !some_poly_contains(
                        pv,
                        c2,
                    );
                if m == gk {
                    assert(!inside);
                } else {
                }
            }
        }
        k = k + 1;
    }
    let ghost pred = |p: SweepPoint|
        exists|c: Coord|
            p == spec_sweep_of_coord(c) && (exists|m: int|
                0 <= m < points@.len() && (#[trigger] points@[m]).coord == c
                    && !some_poly_contains(pv, c));
    proof {
        assert forall|p: SweepPoint| #[trigger] outside@.contains(p) <==> pred(p) by {
            if outside@.contains(p) {
                let c = choose|c: Coord| p == spec_sweep_of_coord(c);
                assert(outside@.contains(spec_sweep_of_coord(c)));
            }
            if pred(p) {
                let c = choose|c: Coord|
                    p == spec_sweep_of_coord(c) && (exists|m: int|
                        0 <= m < points@.len() && (#[trigger] points@[m]).coord == c
                            && !some_poly_contains(pv, c));
                assert(outside@.contains(spec_sweep_of_coord(c)));
            }
        }
    }
    let r = sweep_bucket(outside, Ghost(pred));
    proof {
        if r is Valid {
            assert forall|k2: int| 0 <= k2 < points@.len() implies some_poly_contains(
                pv,
                (#[trigger] points@[k2]).coord,
            ) by {
                if !some_poly_contains(pv, points@[k2].coord) {
                    assert(pred(spec_sweep_of_coord(points@[k2].coord)));
                }
            }
        } else {
            let p0 = choose|p: SweepPoint| #[trigger] pred(p);
            let c0 = choose|c: Coord|
                p0 == spec_sweep_of_coord(c) && (exists|m: int|
                    0 <= m < points@.len() && (#[trigger] points@[m]).coord == c
                        && !some_poly_contains(pv, c));
            let m0 = choose|m: int|
                0 <= m < points@.len() && (#[trigger] points@[m]).coord == c0
                    && !some_poly_contains(pv, c0);
        }
        if r is Errors {
            let v = r->Errors_0@;
            assert forall|c: Coord| #[trigger]
                v[0]->Point_0@.contains(spec_sweep_of_coord(c)) <==> (exists|k2: int|
                    0 <= k2 < points@.len() && (#[trigger] points@[k2]).coord == c
                        && !some_poly_contains(pv, c)) by {
                if v[0]->Point_0@.contains(spec_sweep_of_coord(c)) {
                    assert(pred(spec_sweep_of_coord(c)));
                    let c2 = choose|c2: Coord|
                        spec_sweep_of_coord(c) == spec_sweep_of_coord(c2) && (exists|m: int|
                            0 <= m < points@.len() && (#[trigger] points@[m]).coord == c2
                                && !some_poly_contains(pv, c2));
                    assert(c2 == c);
                }
                if exists|k2: int|
                    0 <= k2 < points@.len() && (#[trigger] points@[k2]).coord == c
                        && !some_poly_contains(pv, c) {
                    assert(pred(spec_sweep_of_coord(c)));
                }
            }
            assert forall|p: SweepPoint| #[trigger] v[0]->Point_0@.contains(p) implies exists|
                c: Coord,
            | p == spec_sweep_of_coord(c) by {
                assert(pred(p));
                let c = choose|c: Coord|
                    p == spec_sweep_of_coord(c) && (exists|m: int|
                        0 <= m < points@.len() && (#[trigger] points@[m]).coord == c
                            && !some_poly_contains(pv, c));
            }
        }
    }
    r
}

/// The linestring lies strictly inside the polygon: every vertex is in the
/// interior and no segment of the linestring meets any ring segment.
pub open spec fn ls_in_poly(rings: Seq<Seq<Coord>>, lsv: Seq<Coord>) -> bool {
    &&& forall|k: int| 0 <= k < lsv.len() ==> poly_contains_coord(rings, #[trigger] lsv[k])
    &&& forall|h: int, a: int, b: int|
        0 <= h < rings.len() && 0 <= a < ls_segments(lsv).len() && 0 <= b < ls_segments(
            rings[h],
        ).len() ==> spec_classify(
            #[trigger] ls_segments(lsv)[a],
            #[trigger] ls_segments(rings[h])[b],
        ) is Disjoint
}

/// Some polygon of the sequence strictly contains the linestring.
pub open spec fn some_poly_contains_ls(polys: Seq<Seq<Seq<Coord>>>, lsv: Seq<Coord>) -> bool {
    exists|i: int| 0 <= i < polys.len() && ls_in_poly(#[trigger] polys[i], lsv)
}

/// Whether the linestring lies strictly inside the polygon.
fn ls_in_poly_exec(polygon: &Polygon, ls: &LineString) -> (r: bool)
    requires
        polygon.wf(),
        ls.wf(),
    ensures
        r == ls_in_poly(polygon@, ls@),
{
    let nv: usize = ls.coords.len();
    let mut k: usize = 0;
    while k < nv
        invariant
            polygon.wf(),
            ls.wf(),
            nv == ls@.len(),
            0 <= k <= nv,
            forall|m: int| 0 <= m < k ==> poly_contains_coord(polygon@, #[trigger] ls@[m]),
        decreases nv - k,
    {
        if !polygon.contains_coord(ls.coords[k]) {
            return false;
        }
        k = k + 1;
    }
    let lsegs = ls.segments();
    proof {
        assert(polygon@[0] == polygon.exterior@);
        assert(crate::geometry::ring_wf(polygon@[0]));
    }
    if !ls_ring_disjoint(&lsegs, &polygon.exterior, Ghost(ls@)) {
        return false;
    }
    let mut h: usize = 0;
    while h < polygon.interiors.len()
        invariant
            polygon.wf(),
            ls.wf(),
            lsegs@ == ls_segments(ls@),
            polygon@.len() == 1 + polygon.interiors@.len(),
            0 <= h <= polygon.interiors@.len(),
            forall|m: int, a: int, b: int|
                0 <= m < h + 1 && 0 <= a < ls_segments(ls@).len() && 0 <= b < ls_segments(
                    polygon@[m],
                ).len() ==> spec_classify(
                    #[trigger] ls_segments(ls@)[a],
                    #[trigger] ls_segments(polygon@[m])[b],
                ) is Disjoint,
        decreases polygon.interiors@.len() - h,
    {
        proof {
            assert(polygon@[h + 1] == polygon.interiors@[h as int]@);
            assert(crate::geometry::ring_wf(polygon@[h + 1]));
        }
        if !ls_ring_disjoint(&lsegs, &polygon.interiors[h], Ghost(ls@)) {
            return false;
        }
        h = h + 1;
    }
    true
}

/// Whether every segment of the linestring is disjoint from every segment
/// of the ring.
fn ls_ring_disjoint(lsegs: &Vec<Segment>, ring: &LineString, Ghost(lsv): Ghost<Seq<Coord>>) -> (r:
    bool)
    requires
        ring.wf(),
        ls_wf(lsv),
        lsegs@ == ls_segments(lsv),
    ensures
        r == (forall|a: int, b: int|
            0 <= a < ls_segments(lsv).len() && 0 <= b < ls_segments(ring@).len()
                ==> spec_classify(
                #[trigger] ls_segments(lsv)[a],
                #[trigger] ls_segments(ring@)[b],
            ) is Disjoint),
{
    let rsegs = ring.segments();
    let na: usize = lsegs.len();
    let mut a: usize = 0;
    while a < na
        invariant
            ring.wf(),
            ls_wf(lsv),
            lsegs@ == ls_segments(lsv),
            rsegs@ == ls_segments(ring@),
            na == lsegs@.len(),
            0 <= a <= na,
            forall|a2: int, b: int|
                0 <= a2 < a && 0 <= b < ls_segments(ring@).len() ==> spec_classify(
                    #[trigger] ls_segments(lsv)[a2],
                    #[trigger] ls_segments(ring@)[b],
                ) is Disjoint,
        decreases na - a,
    {
        let nb: usize = rsegs.len();
        let mut b: usize = 0;
        while b < nb
            invariant
                ring.wf(),
                ls_wf(lsv),
                lsegs@ == ls_segments(lsv),
                rsegs@ == ls_segments(ring@),
                na == lsegs@.len(),
                0 <= a < na,
                nb == rsegs@.len(),
                0 <= b <= nb,
                forall|b2: int|
                    0 <= b2 < b ==> spec_classify(
                        ls_segments(lsv)[a as int],
                        #[trigger] ls_segments(ring@)[b2],
                    ) is Disjoint,
            decreases nb - b,
        {
            proof {
                crate::rule::must_not_overlap::lemma_ls_segments_wf(lsv);
                crate::rule::must_not_overlap::lemma_ls_segments_wf(ring@);
            }
            let outcome = classify(&lsegs[a], &rsegs[b]);
            match outcome {
                SegmentIntersection::Disjoint => {},
                _ => {
                    return false;
                },
            }
            b = b + 1;
        }
        a = a + 1;
    }
    true
}

/// The linestrings of `lss`/// The linestrings of `lss` that no polygon of `polys` strictly contains,
/// as views in input order.
pub open spec fn outside_linestrings(
    lss: Seq<Seq<Coord>>,
    polys: Seq<Seq<Seq<Coord>>>,
) -> Seq<Seq<Coord>>
    decreases lss.len(),
{
    if lss.len() == 0 {
        Seq::empty()
    } else {
        outside_linestrings(lss.drop_last(), polys) + (if some_poly_contains_ls(
            polys,
            lss.last(),
        ) {
            Seq::empty()
        } else {
            seq![lss.last()]
        })
    }
}

/// Report every input linestring that no polygon strictly contains.
///
/// The verdict is `Valid` exactly when every linestring lies strictly inside
/// some polygon; the single linestring bucket holds the offending
/// linestrings in input order.
pub fn must_be_inside_linestrings(
    linestrings: Vec<LineString>,
    polygons: Vec<Polygon>,
) -> (r: TopologyResult)
    requires
        forall|i: int| 0 <= i < linestrings@.len() ==> (#[trigger] linestrings@[i]).wf(),
        forall|i: int| 0 <= i < polygons@.len() ==> (#[trigger] polygons@[i]).wf(),
    ensures
        r is Valid <==> (forall|k: int|
            0 <= k < linestrings@.len() ==> some_poly_contains_ls(
                poly_views(polygons@),
                (#[trigger] linestrings@[k])@,
            )),
        r is Errors ==> {
            let v = r->Errors_0@;
            &&& v.len() == 1
            &&& v[0] is LineString
            &&& ls_views(v[0]->LineString_0@) == outside_linestrings(
                ls_views(linestrings@),
                poly_views(polygons@),
            )
            &&& v[0]->LineString_0@.len() > 0
        },
{
    let ghost pv = poly_views(polygons@);
    let ghost lv = ls_views(linestrings@);
    let mut outside: Vec<LineString> = Vec::new();
    let n: usize = linestrings.len();
    let mut k: usize = 0;
    proof {
        assert(ls_views(linestrings@).len() == linestrings@.len());
    }
    while k < n
        invariant
            n == linestrings@.len(),
            forall|i: int| 0 <= i < linestrings@.len() ==> (#[trigger] linestrings@[i]).wf(),
            forall|i: int| 0 <= i < polygons@.len() ==> (#[trigger] polygons@[i]).wf(),
            pv == poly_views(polygons@),
            lv == ls_views(linestrings@),
            lv.len() == n,
            0 <= k <= n,
            ls_views(outside@) == outside_linestrings(lv.take(k as int), pv),
        decreases n - k,
    {
        let ghost prefix = lv.take(k as int);
        proof {
            assert(lv.take(k as int + 1).drop_last() =~= prefix);
            assert(lv.take(k as int + 1).last() == lv[k as int]);
            assert(lv[k as int] == linestrings@[k as int]@);
        }
        let mut contained: bool = false;
        let mut i: usize = 0;
        while i < polygons.len()
            invariant
                n == linestrings@.len(),
                forall|m: int| 0 <= m < linestrings@.len() ==> (#[trigger] linestrings@[m]).wf(),
                forall|m: int| 0 <= m < polygons@.len() ==> (#[trigger] polygons@[m]).wf(),
                pv == poly_views(polygons@),
                pv.len() == polygons@.len(),
                0 <= k < n,
                0 <= i <= polygons@.len(),
                contained <==> (exists|m: int|
                    0 <= m < i && ls_in_poly(#[trigger] pv[m], linestrings@[k as int]@)),
            decreases polygons@.len() - i,
        {
            proof {
                assert(pv[i as int] == polygons@[i as int]@);
            }
            if ls_in_poly_exec(&polygons[i], &linestrings[k]) {
                contained = true;
            }
            i = i + 1;
        }
        proof {
            if contained {
                assert(some_poly_contains_ls(pv, linestrings@[k as int]@));
            } else {
                assert forall|m: int|
                    0 <= m < pv.len() implies !ls_in_poly(
                    #[trigger] pv[m],
                    linestrings@[k as int]@,
                ) by {}
                assert(!some_poly_contains_ls(pv, linestrings@[k as int]@));
            }
        }
        let ghost before = outside@;
        if !contained {
            outside.push(linestrings[k].clone());
        }
        proof {
            let model = outside_linestrings(lv.take(k as int + 1), pv);
            if !contained {
                assert(model == outside_linestrings(prefix, pv) + seq![lv[k as int]]);
                assert(ls_views(before).len() == before.len());
                assert(ls_views(outside@).len() == outside@.len());
                assert(outside@ == before.push(outside@[before.len() as int]));
                assert forall|p: int| 0 <= p < outside@.len() implies ls_views(outside@)[p]
                    == model[p] by {
                    if p < before.len() {
                        assert(ls_views(before)[p] == before[p]@);
                        assert(ls_views(before)[p] == outside_linestrings(prefix, pv)[p]);
                        assert(model[p] == outside_linestrings(prefix, pv)[p]);
                    } else {
                        assert(model[p] == lv[k as int]);
                    }
                }
                assert(ls_views(outside@) =~= model);
            } else {
                assert(model =~= outside_linestrings(prefix, pv));
            }
        }
        k = k + 1;
    }
    proof {
        assert(lv.take(n as int) =~= lv);
    }
    if outside.len() == 0 {
        proof {
            assert(ls_views(outside@).len() == 0);
            lemma_outside_empty(lv, pv);
            assert forall|k2: int| 0 <= k2 < linestrings@.len() implies some_poly_contains_ls(
                pv,
                (#[trigger] linestrings@[k2])@,
            ) by {
                assert(lv[k2] == linestrings@[k2]@);
            }
        }
        TopologyResult::Valid
    } else {
        proof {
            assert(ls_views(outside@).len() == outside@.len());
            lemma_outside_nonempty(lv, pv);
            let k0 = choose|k0: int|
                0 <= k0 < lv.len() && !some_poly_contains_ls(pv, #[trigger] lv[k0]);
            assert(lv[k0] == linestrings@[k0]@);
        }
        let mut errors: Vec<TopologyError> = Vec::new();
        errors.push(TopologyError::LineString(outside));
        TopologyResult::Errors(errors)
    }
}

/// If the outside set is empty, every linestring is contained.
proof fn lemma_outside_empty(lss: Seq<Seq<Coord>>, polys: Seq<Seq<Seq<Coord>>>)
    requires
        outside_linestrings(lss, polys).len() == 0,
    ensures
        forall|k: int| 0 <= k < lss.len() ==> some_poly_contains_ls(polys, #[trigger] lss[k]),
    decreases lss.len(),
{
    if lss.len() > 0 {
        lemma_outside_empty(lss.drop_last(), polys);
        assert forall|k: int| 0 <= k < lss.len() implies some_poly_contains_ls(
            polys,
            #[trigger] lss[k],
        ) by {
            if k < lss.len() - 1 {
                assert(lss.drop_last()[k] == lss[k]);
            }
        }
    }
}

/// If the outside set is non-empty, some linestring is not contained.
proof fn lemma_outside_nonempty(lss: Seq<Seq<Coord>>, polys: Seq<Seq<Seq<Coord>>>)
    requires
        outside_linestrings(lss, polys).len() > 0,
    ensures
        exists|k: int| 0 <= k < lss.len() && !some_poly_contains_ls(polys, #[trigger] lss[k]),
    decreases lss.len(),
{
    if lss.len() > 0 {
        if some_poly_contains_ls(polys, lss.last()) {
            lemma_outside_nonempty(lss.drop_last(), polys);
            let k = choose|k: int|
                0 <= k < lss.drop_last().len() && !some_poly_contains_ls(
                    polys,
                    #[trigger] lss.drop_last()[k],
                );
            assert(lss[k] == lss.drop_last()[k]);
            assert(!some_poly_contains_ls(polys, lss[k]));
        } else {
            assert(!some_poly_contains_ls(polys, lss[lss.len() - 1]));
        }
    }
}

} // verus!

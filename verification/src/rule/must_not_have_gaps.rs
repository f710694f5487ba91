//! The `must-not-have-gaps` rule: in a gap-free polygon coverage every
//! boundary segment appears in at least two ring traversals.

use vstd::prelude::*;

use crate::coord::Segment;
use crate::geometry::{flat_segments, LineString, Polygon};
use crate::result::TopologyResult;
use crate::rule::must_not_overlap::segments_bucket;
use crate::sweep::{no_dups, push_unique_seg};

verus! {

/// The rings of a polygon sequence, exteriors and holes alike, in order.
pub open spec fn all_rings(polys: Seq<Seq<Seq<Coord2>>>) -> Seq<Seq<Coord2>>
    decreases polys.len(),
{
    if polys.len() == 0 {
        Seq::empty()
    } else {
        all_rings(polys.drop_last()) + polys.last()
    }
}

/// Shorthand for the coordinate type in nested views.
pub type Coord2 = crate::coord::Coord;

/// How many segments of `segs` lie within `s` (a segment lies within
/// itself).
pub open spec fn contained_count(segs: Seq<Segment>, s: Segment) -> nat
    decreases segs.len(),
{
    if segs.len() == 0 {
        0
    } else {
        contained_count(segs.drop_last(), s) + (if s.spec_contains_segment(segs.last()) {
            1nat
        } else {
            0nat
        })
    }
}

/// A boundary segment that borders a gap: fewer than two traversals of the
/// coverage run along it.
pub open spec fn gap_segment(segs: Seq<Segment>, s: Segment) -> bool {
    segs.contains(s) && contained_count(segs, s) < 2
}

/// Collect every ring of every polygon as a linestring.
fn collect_rings(polygons: &Vec<Polygon>) -> (r: Vec<LineString>)
    requires
        forall|i: int| 0 <= i < polygons@.len() ==> (#[trigger] polygons@[i]).wf(),
    ensures
        crate::geometry::ls_views(r@) == all_rings(crate::geometry::poly_views(polygons@)),
        forall|i: int| 0 <= i < r@.len() ==> (#[trigger] r@[i]).wf(),
{
    let mut out: Vec<LineString> = Vec::new();
    let n: usize = polygons.len();
    let ghost pv = crate::geometry::poly_views(polygons@);
    let mut i: usize = 0;
    proof {
        assert(crate::geometry::poly_views(polygons@).len() == polygons@.len());
    }
    while i < n
        invariant
            n == polygons@.len(),
            forall|m: int| 0 <= m < polygons@.len() ==> (#[trigger] polygons@[m]).wf(),
            pv == crate::geometry::poly_views(polygons@),
            pv.len() == n,
            0 <= i <= n,
            crate::geometry::ls_views(out@) == all_rings(pv.take(i as int)),
            forall|m: int| 0 <= m < out@.len() ==> (#[trigger] out@[m]).wf(),
        decreases n - i,
    {
        let ghost prefix = pv.take(i as int);
        proof {
            assert(pv.take(i as int + 1).drop_last() =~= prefix);
            assert(pv.take(i as int + 1).last() == pv[i as int]);
            assert(pv[i as int] == polygons@[i as int]@);
        }
        let p = &polygons[i];
        let ghost rings = p@;
        let ghost before0 = out@;
        out.push(p.exterior.clone());
        proof {
            assert(p@[0] == p.exterior@);
            assert(crate::geometry::ring_wf(p@[0]));
            assert(crate::geometry::ls_views(out@).len() == out@.len());
            assert(crate::geometry::ls_views(before0).len() == before0.len());
            assert forall|q: int| 0 <= q < out@.len() implies crate::geometry::ls_views(out@)[q]
                == (all_rings(prefix) + rings.take(1))[q] by {
                if q < before0.len() {
                    assert(crate::geometry::ls_views(before0)[q] == before0[q]@);
                } else {
                    assert(rings.take(1)[0] == rings[0]);
                }
            }
            assert(crate::geometry::ls_views(out@) =~= all_rings(prefix) + rings.take(1));
        }
        let mut h: usize = 0;
        while h < p.interiors.len()
            invariant
                p.wf(),
                rings == p@,
                rings.len() == 1 + p.interiors@.len(),
                prefix == pv.take(i as int),
                0 <= h <= p.interiors@.len(),
                crate::geometry::ls_views(out@) == all_rings(prefix) + rings.take(h as int + 1),
                forall|m: int| 0 <= m < out@.len() ==> (#[trigger] out@[m]).wf(),
            decreases p.interiors@.len() - h,
        {
            let ghost before = out@;
            out.push(p.interiors[h].clone());
            proof {
                assert(rings[h + 1] == p.interiors@[h as int]@);
                assert(crate::geometry::ring_wf(rings[h + 1]));
                assert(crate::geometry::ls_views(out@).len() == out@.len());
                assert(crate::geometry::ls_views(before).len() == before.len());
                assert forall|q: int|
                    0 <= q < out@.len() implies crate::geometry::ls_views(out@)[q] == (all_rings(
                    prefix,
                ) + rings.take(h as int + 2))[q] by {
                    if q < before.len() {
                        assert(crate::geometry::ls_views(before)[q] == before[q]@);
                        assert((all_rings(prefix) + rings.take(h as int + 1))[q] == (all_rings(
                            prefix,
                        ) + rings.take(h as int + 2))[q]);
                    } else {
                        assert(rings.take(h as int + 2)[h + 1] == rings[h + 1]);
                    }
                }
                assert(crate::geometry::ls_views(out@) =~= all_rings(prefix) + rings.take(
                    h as int + 2,
                ));
            }
            h = h + 1;
        }
        proof {
            assert(rings.take(rings.len() as int) =~= rings);
            assert(crate::geometry::ls_views(out@) =~= all_rings(pv.take(i as int + 1)));
        }
        i = i + 1;
    }
    proof {
        assert(pv.take(n as int) =~= pv);
    }
    out
}

/// Count the segments of the vector contained in `s`.
fn count_contained(segs: &Vec<Segment>, s: &Segment) -> (n: usize)
    requires
        crate::sweep::segs_wf(segs@),
        s.wf(),
    ensures
        n == contained_count(segs@, *s),
{
    let mut n: usize = 0;
    let mut i: usize = 0;
    while i < segs.len()
        invariant
            crate::sweep::segs_wf(segs@),
            s.wf(),
            0 <= i <= segs@.len(),
            n == contained_count(segs@.take(i as int), *s),
            n <= i,
        decreases segs@.len() - i,
    {
        proof {
            assert(segs@.take(i + 1).drop_last() =~= segs@.take(i as int));
            assert(segs@.take(i + 1).last() == segs@[i as int]);
            assert(segs@[i as int].wf());
        }
        if s.contains_segment(&segs[i]) {
            n = n + 1;
        }
        i = i + 1;
    }
    proof {
        assert(segs@.take(segs@.len() as int) =~= segs@);
    }
    n
}

/// Report every boundary segment along which fewer than two ring traversals
/// run: such a segment borders a gap in the coverage (or the outer void).
///
/// Every ring of every polygon, holes included, contributes its segments.
/// The verdict is `Valid` exactly when every boundary segment is traversed
/// at least twice.
pub fn must_not_have_gaps(polygons: Vec<Polygon>) -> (r: TopologyResult)
    requires
        forall|i: int| 0 <= i < polygons@.len() ==> (#[trigger] polygons@[i]).wf(),
    ensures
        ({
            let segs = flat_segments(all_rings(crate::geometry::poly_views(polygons@)));
            &&& (r is Valid <==> (forall|s: Segment| !(#[trigger] gap_segment(segs, s))))
            &&& r is Errors ==> {
                let v = r->Errors_0@;
                &&& v.len() == 1
                &&& v[0] is LineString
                &&& v[0]->LineString_0@.len() > 0
                &&& crate::rule::must_not_overlap::distinct_ls_views(v[0]->LineString_0@)
                &&& forall|k: int|
                    0 <= k < v[0]->LineString_0@.len() ==> exists|t: Segment|
                        gap_segment(segs, t) && (#[trigger] v[0]->LineString_0@[k])@ == seq![
                            t.a,
                            t.b,
                        ]
                &&& forall|t: Segment| #[trigger]
                    gap_segment(segs, t) ==> exists|k: int|
                        0 <= k < v[0]->LineString_0@.len() && (#[trigger] v[0]->LineString_0@[k])@
                            == seq![t.a, t.b]
            }
        }),
{
    let rings = collect_rings(&polygons);
    let segs = crate::geometry::explode_linestrings(&rings);
    let ghost segsv = flat_segments(all_rings(crate::geometry::poly_views(polygons@)));
    let mut reported: Vec<Segment> = Vec::new();
    let n: usize = segs.len();
    let mut k: usize = 0;
    while k < n
        invariant
            n == segs@.len(),
            segs@ == segsv,
            crate::sweep::segs_wf(segs@),
            0 <= k <= n,
            forall|t: Segment| #[trigger]
                reported@.contains(t) <==> (segsv.take(k as int).contains(t) && contained_count(
                    segsv,
                    t,
                ) < 2),
            no_dups(reported@),
        decreases n - k,
    {
        let ghost prefix = segsv.take(k as int);
        let ghost next = segsv.take(k as int + 1);
        proof {
            assert(next[k as int] == segsv[k as int]);
            assert(forall|m: int| 0 <= m < k ==> prefix[m] == next[m]);
            assert(forall|t: Segment| prefix.contains(t) ==> next.contains(t));
        }
        let cnt = count_contained(&segs, &segs[k]);
        if cnt < 2 {
            push_unique_seg(&mut reported, segs[k]);
        }
        proof {
            let sk = segsv[k as int];
            assert forall|t: Segment| #[trigger] reported@.contains(t) implies (next.contains(t)
                && contained_count(segsv, t) < 2) by {
                if cnt < 2 && t == sk {
                    assert(next[k as int] == t);
                } else {
                    assert(prefix.contains(t));
                }
            }
            assert forall|t: Segment|
                (next.contains(t) && contained_count(segsv, t) < 2) implies #[trigger]
                reported@.contains(t) by {
                let m = choose|m: int| 0 <= m < next.len() && next[m] == t;
                if m == k as int {
                    assert(cnt < 2);
                } else {
                    assert(prefix[m] == t);
                    assert(prefix.contains(t));
                }
            }
        }
        k = k + 1;
    }
    proof {
        assert(segsv.take(n as int) =~= segsv);
    }
    let ghost pred = |t: Segment| gap_segment(segsv, t);
    proof {
        assert forall|t: Segment| #[trigger] reported@.contains(t) <==> pred(t) by {
            assert(pred(t) == gap_segment(segsv, t));
        }
    }
    let r = segments_bucket(reported, Ghost(pred));
    proof {
        assert forall|t: Segment| pred(t) == gap_segment(segsv, t) by {}
    }
    r
}

} // verus!

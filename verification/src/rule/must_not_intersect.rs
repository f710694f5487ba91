//! The `must-not-intersect` rule: linestrings may touch at shared
//! endpoints, but may not cross, touch interiors, or run together.

use vstd::prelude::*;

use crate::coord::{Coord, Segment};
use crate::geometry::{
    explode_linestrings, flat_inner_points, flat_segments, linestring_inner_points, ls_views,
    LineString,
};
use crate::rat::{spec_sweep_of_coord, SweepPoint};
use crate::result::{TopologyError, TopologyResult};
use crate::rule::must_not_have_dangles::sweep_bucket;
use crate::rule::must_not_overlap::segments_bucket;
use crate::sweep::{
    intersections, no_dups, pair_improper, pair_overlap, proper_only, push_unique_sweep,
};

verus! {

/// How many times `c` occurs in the sequence.
pub open spec fn coord_count(s: Seq<Coord>, c: Coord) -> nat
    decreases s.len(),
{
    if s.len() == 0 {
        0
    } else {
        coord_count(s.drop_last(), c) + (if s.last() == c {
            1nat
        } else {
            0nat
        })
    }
}

/// Count the occurrences of a coordinate in a vector.
pub fn count_coord(v: &Vec<Coord>, c: Coord) -> (n: usize)
    ensures
        n == coord_count(v@, c),
{
    let mut n: usize = 0;
    let mut i: usize = 0;
    while i < v.len()
        invariant
            0 <= i <= v@.len(),
            n == coord_count(v@.take(i as int), c),
            n <= i,
        decreases v@.len() - i,
    {
        proof {
            assert(v@.take(i + 1).drop_last() =~= v@.take(i as int));
            assert(v@.take(i + 1).last() == v@[i as int]);
        }
        if v[i] == c {
            n = n + 1;
        }
        i = i + 1;
    }
    proof {
        assert(v@.take(v@.len() as int) =~= v@);
    }
    n
}

/// An improper intersection at `c` counts as an error exactly when `c`
/// occurs at least twice among the inner (non-endpoint) coordinates of the
/// linestrings: such a meeting is not a legitimate endpoint junction.
pub open spec fn improper_error(segs: Seq<Segment>, inner: Seq<Coord>, c: Coord) -> bool {
    pair_improper(segs, c) && coord_count(inner, c) >= 2
}

/// The sweep point is an error point of the network: a proper crossing, or a
/// counted improper intersection.
pub open spec fn point_error(segs: Seq<Segment>, inner: Seq<Coord>, p: SweepPoint) -> bool {
    proper_only(segs, p) || (exists|c: Coord|
        p == spec_sweep_of_coord(c) && #[trigger] improper_error(segs, inner, c))
}

/// Report the intersections of a linestring network that are not endpoint
/// junctions.
///
/// The point bucket holds every proper crossing point together with every
/// improper intersection whose coordinate occurs at least twice among
/// inner-linestring coordinates; the linestring bucket holds every collinear
/// overlap as a two-coordinate linestring. The verdict is `Valid` exactly
/// when both sets are empty.
#[verifier::rlimit(100)]
#[verifier::spinoff_prover]
pub fn must_not_intersect(linestrings: &Vec<LineString>) -> (r: TopologyResult)
    requires
        forall|i: int| 0 <= i < linestrings@.len() ==> (#[trigger] linestrings@[i]).wf(),
    ensures
        ({
            let segs = flat_segments(ls_views(linestrings@));
            let inner = flat_inner_points(ls_views(linestrings@));
            &&& (r is Valid <==> ((forall|p: SweepPoint| !(#[trigger] point_error(segs, inner, p)))
                && (forall|t: Segment| !(#[trigger] pair_overlap(segs, t)))))
            &&& r is Errors ==> {
                let v = r->Errors_0@;
                &&& 1 <= v.len() <= 2
                &&& (v[0] is Point || v[0] is LineString)
                &&& v[0] is Point ==> {
                    &&& v[0]->Point_0@.len() > 0
                    &&& no_dups(v[0]->Point_0@)
                    &&& forall|p: SweepPoint| #[trigger]
                        v[0]->Point_0@.contains(p) <==> point_error(segs, inner, p)
                }
                &&& v[v.len() - 1] is LineString ==> {
                    let lv = v[v.len() - 1]->LineString_0@;
                    &&& lv.len() > 0
                    &&& crate::rule::must_not_overlap::distinct_ls_views(lv)
                    &&& forall|k: int|
                        0 <= k < lv.len() ==> exists|t: Segment|
                            pair_overlap(segs, t) && (#[trigger] lv[k])@ == seq![t.a, t.b]
                    &&& forall|t: Segment| #[trigger]
                        pair_overlap(segs, t) ==> exists|k: int|
                            0 <= k < lv.len() && (#[trigger] lv[k])@ == seq![t.a, t.b]
                }
                &&& (exists|p: SweepPoint| #[trigger] point_error(segs, inner, p)) <==> v[0]
                    is Point
                &&& (exists|t: Segment| #[trigger] pair_overlap(segs, t)) <==> v[v.len() - 1]
                    is LineString
                &&& v.len() == 2 ==> v[0] is Point && v[1] is LineString
            }
        }),
{
    let inner_points = linestring_inner_points(linestrings);
    let segs = explode_linestrings(linestrings);
    let (overlaps, proper, improper) = intersections(&segs);
    let ghost segsv = flat_segments(ls_views(linestrings@));
    let ghost innerv = flat_inner_points(ls_views(linestrings@));
    let points = collect_error_points(
        proper,
        improper,
        &inner_points,
        Ghost(segsv),
        Ghost(innerv),
    );
    let ghost pred_p = |p: SweepPoint| point_error(segsv, innerv, p);
    proof {
        assert forall|p: SweepPoint| #[trigger] points@.contains(p) <==> pred_p(p) by {
            assert(pred_p(p) == point_error(segsv, innerv, p));
        }
    }
    let point_verdict = sweep_bucket(points, Ghost(pred_p));
    let ghost pred_l = |t: Segment| pair_overlap(segsv, t);
    proof {
        assert forall|t: Segment| #[trigger] overlaps@.contains(t) <==> pred_l(t) by {
            assert(pred_l(t) == pair_overlap(segsv, t));
        }
    }
    let line_verdict = segments_bucket(overlaps, Ghost(pred_l));
    proof {
        assert forall|p: SweepPoint| pred_p(p) == point_error(segsv, innerv, p) by {}
        assert forall|t: Segment| pred_l(t) == pair_overlap(segsv, t) by {}
    }
    match (point_verdict, line_verdict) {
        (TopologyResult::Valid, TopologyResult::Valid) => TopologyResult::Valid,
        (TopologyResult::Errors(v), TopologyResult::Valid) => {
            proof {
                let p0 = choose|p: SweepPoint| #[trigger] pred_p(p);
                assert(point_error(segsv, innerv, p0));
            }
            TopologyResult::Errors(v)
        },
        (TopologyResult::Valid, TopologyResult::Errors(w)) => {
            proof {
                let t0 = choose|t: Segment| #[trigger] pred_l(t);
                assert(pair_overlap(segsv, t0));
            }
            TopologyResult::Errors(w)
        },
        (TopologyResult::Errors(mut v), TopologyResult::Errors(mut w)) => {
            proof {
                let p0 = choose|p: SweepPoint| #[trigger] pred_p(p);
                assert(point_error(segsv, innerv, p0));
                let t0 = choose|t: Segment| #[trigger] pred_l(t);
                assert(pair_overlap(segsv, t0));
            }
            let bucket = w.pop().unwrap();
            v.push(bucket);
            TopologyResult::Errors(v)
        },
    }
}

/// Gather the error points: the proper crossings and the improper
/// intersections whose coordinate occurs at least twice among the inner
/// coordinates.
#[verifier::rlimit(100)]
#[verifier::spinoff_prover]
fn collect_error_points(
    proper: Vec<SweepPoint>,
    improper: Vec<Coord>,
    inner_points: &Vec<Coord>,
    Ghost(segsv): Ghost<Seq<Segment>>,
    Ghost(innerv): Ghost<Seq<Coord>>,
) -> (points: Vec<SweepPoint>)
    requires
        forall|p: SweepPoint| #[trigger] proper@.contains(p) <==> proper_only(segsv, p),
        forall|c: Coord| #[trigger] improper@.contains(c) <==> pair_improper(segsv, c),
        no_dups(proper@),
        no_dups(improper@),
        inner_points@ == innerv,
    ensures
        no_dups(points@),
        forall|p: SweepPoint| #[trigger] points@.contains(p) <==> point_error(segsv, innerv, p),
{
    let mut points: Vec<SweepPoint> = proper;
    let n: usize = improper.len();
    let mut k: usize = 0;
    while k < n
        invariant
            n == improper@.len(),
            inner_points@ == innerv,
            forall|c: Coord| #[trigger] improper@.contains(c) <==> pair_improper(segsv, c),
            no_dups(improper@),
            0 <= k <= n,
            forall|p: SweepPoint| #[trigger]
                points@.contains(p) <==> (proper_only(segsv, p) || (exists|c: Coord|
                    p == spec_sweep_of_coord(c) && improper@.take(k as int).contains(c)
                        && #[trigger] coord_count(innerv, c) >= 2)),
            no_dups(points@),
        decreases n - k,
    {
        let ghost prefix = improper@.take(k as int);
        let ghost next = improper@.take(k as int + 1);
        proof {
            assert(next[k as int] == improper@[k as int]);
            assert(forall|m: int| 0 <= m < k ==> prefix[m] == next[m]);
            assert(forall|c: Coord| prefix.contains(c) ==> next.contains(c));
        }
        let c = improper[k];
        let cnt = count_coord(inner_points, c);
        if cnt >= 2 {
            push_unique_sweep(&mut points, SweepPoint::from_coord(c));
        }
        proof {
            let ck = improper@[k as int];
            assert forall|p: SweepPoint| #[trigger] points@.contains(p) implies (proper_only(
                segsv,
                p,
            ) || (exists|c2: Coord|
                p == spec_sweep_of_coord(c2) && next.contains(c2) && #[trigger] coord_count(
                    innerv,
                    c2,
                ) >= 2)) by {
                if coord_count(innerv, ck) >= 2 && p == spec_sweep_of_coord(ck) {
                    assert(next.contains(ck));
                } else if proper_only(segsv, p) {
                } else if exists|c2: Coord|
                    p == spec_sweep_of_coord(c2) && prefix.contains(c2) && #[trigger] coord_count(
                        innerv,
                        c2,
                    ) >= 2 {
                    let c2 = choose|c2: Coord|
                        p == spec_sweep_of_coord(c2) && prefix.contains(c2)
                            && #[trigger] coord_count(innerv, c2) >= 2;
                    assert(next.contains(c2));
                }
            }
            assert forall|p: SweepPoint|
                (proper_only(segsv, p) || (exists|c2: Coord|
                    p == spec_sweep_of_coord(c2) && next.contains(c2) && #[trigger] coord_count(
                        innerv,
                        c2,
                    ) >= 2)) implies #[trigger] points@.contains(p) by {
                if proper_only(segsv, p) {
                } else {
                    let c2 = choose|c2: Coord|
                        p == spec_sweep_of_coord(c2) && next.contains(c2) && #[trigger] coord_count(
                            innerv,
                            c2,
                        ) >= 2;
                    let m = choose|m: int| 0 <= m < next.len() && next[m] == c2;
                    if m == k as int {
                        assert(c2 == ck);
                    } else {
                        assert(prefix[m] == c2);
                        assert(prefix.contains(c2));
                    }
                }
            }
        }
        k = k + 1;
    }
    proof {
        assert(improper@.take(n as int) =~= improper@);
        assert forall|p: SweepPoint| #[trigger] points@.contains(p) <==> point_error(
            segsv,
            innerv,
            p,
        ) by {
            if points@.contains(p) {
                if !proper_only(segsv, p) {
                    let c = choose|c: Coord|
                        p == spec_sweep_of_coord(c) && improper@.contains(c)
                            && #[trigger] coord_count(innerv, c) >= 2;
                    assert(pair_improper(segsv, c));
                    assert(improper_error(segsv, innerv, c));
                }
            } else {
                if point_error(segsv, innerv, p) {
                    if !proper_only(segsv, p) {
                        let c = choose|c: Coord|
                            p == spec_sweep_of_coord(c) && #[trigger] improper_error(
                                segsv,
                                innerv,
                                c,
                            );
                        assert(improper@.contains(c));
                        assert(points@.contains(p));
                    }
                }
            }
        }
    }
    points
}

} // verus!

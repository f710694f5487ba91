//! The `must-not-have-dangles` rule: a linestring endpoint with no improper
//! incidence on the rest of the network is a dangle.

use vstd::prelude::*;

use crate::coord::Coord;
use crate::geometry::{
    explode_linestrings, flat_endpoints, flat_segments, linestring_endpoints, ls_views, LineString,
};
use crate::rat::{spec_sweep_of_coord, SweepPoint};
use crate::result::{TopologyError, TopologyResult};
use crate::sweep::{contains_coord_vec, intersections, no_dups, pair_improper, push_unique_sweep};

verus! {

/// Build the verdict for a set of offending sweep points: `Valid` for the
/// empty set, else a single point bucket.
pub fn sweep_bucket(
    reported: Vec<SweepPoint>,
    Ghost(pred): Ghost<spec_fn(SweepPoint) -> bool>,
) -> (r: TopologyResult)
    requires
        forall|p: SweepPoint| #[trigger] reported@.contains(p) <==> pred(p),
        no_dups(reported@),
    ensures
        r is Valid <==> (forall|p: SweepPoint| !(#[trigger] pred(p))),
        r is Errors ==> {
            let v = r->Errors_0@;
            &&& v.len() == 1
            &&& v[0] is Point
            &&& v[0]->Point_0@.len() > 0
            &&& no_dups(v[0]->Point_0@)
            &&& forall|p: SweepPoint| #[trigger] v[0]->Point_0@.contains(p) <==> pred(p)
        },
{
    if reported.len() == 0 {
        proof {
            assert forall|p: SweepPoint| !(#[trigger] pred(p)) by {
                if pred(p) {
                    assert(reported@.contains(p));
                }
            }
        }
        TopologyResult::Valid
    } else {
        proof {
            assert(reported@.contains(reported@[0]));
        }
        let mut errors: Vec<TopologyError> = Vec::new();
        errors.push(TopologyError::Point(reported));
        TopologyResult::Errors(errors)
    }
}

/// Report every linestring endpoint that is not an improper intersection of
/// the segment network.
///
/// An endpoint where another linestring's segment touches is an improper
/// single-point intersection of two distinct segments, so it is not a
/// dangle; an endpoint with no such incidence is. The verdict is `Valid`
/// exactly when every endpoint carries an improper incidence; otherwise the
/// single point bucket holds each dangling coordinate exactly once.
pub fn must_not_have_dangles(linestrings: &Vec<LineString>) -> (r: TopologyResult)
    requires
        forall|i: int| 0 <= i < linestrings@.len() ==> (#[trigger] linestrings@[i]).wf(),
    ensures
        ({
            let ends = flat_endpoints(ls_views(linestrings@));
            let segs = flat_segments(ls_views(linestrings@));
            &&& (r is Valid <==> (forall|k: int|
                0 <= k < ends.len() ==> pair_improper(segs, #[trigger] ends[k])))
            &&& r is Errors ==> {
                let v = r->Errors_0@;
                &&& v.len() == 1
                &&& v[0] is Point
                &&& v[0]->Point_0@.len() > 0
                &&& no_dups(v[0]->Point_0@)
                &&& forall|c: Coord| #[trigger]
                    v[0]->Point_0@.contains(spec_sweep_of_coord(c)) <==> (ends.contains(c)
                        && !pair_improper(segs, c))
                &&& forall|p: SweepPoint| #[trigger]
                    v[0]->Point_0@.contains(p) ==> exists|c: Coord| p == spec_sweep_of_coord(c)
            }
        }),
{
    let endpoints = linestring_endpoints(linestrings);
    let segs = explode_linestrings(linestrings);
    let (_overlaps, _proper, improper) = intersections(&segs);
    let ghost ends = flat_endpoints(ls_views(linestrings@));
    let ghost segsv = flat_segments(ls_views(linestrings@));
    let mut dangles: Vec<SweepPoint> = Vec::new();
    let n: usize = endpoints.len();
    let mut k: usize = 0;
    while k < n
        invariant
            n == endpoints@.len(),
            endpoints@ == ends,
            segs@ == segsv,
            forall|c: Coord| #[trigger] improper@.contains(c) <==> pair_improper(segsv, c),
            0 <= k <= n,
            forall|c: Coord| #[trigger]
                dangles@.contains(spec_sweep_of_coord(c)) <==> (ends.take(k as int).contains(c)
                    && !pair_improper(segsv, c)),
            forall|p: SweepPoint| #[trigger]
                dangles@.contains(p) ==> exists|c: Coord| p == spec_sweep_of_coord(c),
            no_dups(dangles@),
        decreases n - k,
    {
        let ghost prefix = ends.take(k as int);
        let ghost next = ends.take(k as int + 1);
        proof {
            assert(next[k as int] == ends[k as int]);
            assert(forall|m: int| 0 <= m < k ==> prefix[m] == next[m]);
        }
        let is_improper = contains_coord_vec(&improper, &endpoints[k]);
        if !is_improper {
            push_unique_sweep(&mut dangles, SweepPoint::from_coord(endpoints[k]));
        }
        proof {
            assert forall|c: Coord| #[trigger]
                dangles@.contains(spec_sweep_of_coord(c)) implies (next.contains(c)
                && !pair_improper(segsv, c)) by {
                if !is_improper && c == ends[k as int] {
                    assert(next[k as int] == c);
                } else {
                    assert(prefix.contains(c));
                    let m = choose|m: int| 0 <= m < prefix.len() && prefix[m] == c;
                    assert(next[m] == c);
                }
            }
            assert forall|c: Coord|
                (next.contains(c) && !pair_improper(segsv, c)) implies #[trigger]
                dangles@.contains(spec_sweep_of_coord(c)) by {
                let m = choose|m: int| 0 <= m < next.len() && next[m] == c;
                if m == k as int {
                    assert(!is_improper);
                } else {
                    assert(prefix[m] == c);
                    assert(prefix.contains(c));
                }
            }
        }
        k = k + 1;
    }
    proof {
        assert(ends.take(n as int) =~= ends);
    }
    let ghost pred = |p: SweepPoint|
        exists|c: Coord|
            p == spec_sweep_of_coord(c) && #[trigger] ends.contains(c) && !pair_improper(segsv, c);
    proof {
        assert forall|p: SweepPoint| #[trigger] dangles@.contains(p) <==> pred(p) by {
            if dangles@.contains(p) {
                let c = choose|c: Coord| p == spec_sweep_of_coord(c);
                assert(dangles@.contains(spec_sweep_of_coord(c)));
                assert(ends.contains(c) && !pair_improper(segsv, c));
            }
            if pred(p) {
                let c = choose|c: Coord|
                    p == spec_sweep_of_coord(c) && #[trigger] ends.contains(c) && !pair_improper(
                        segsv,
                        c,
                    );
                assert(dangles@.contains(spec_sweep_of_coord(c)));
            }
        }
    }
    let r = sweep_bucket(dangles, Ghost(pred));
    proof {
        if r is Valid {
            assert forall|k2: int| 0 <= k2 < ends.len() implies pair_improper(
                segsv,
                #[trigger] ends[k2],
            ) by {
                if !pair_improper(segsv, ends[k2]) {
                    assert(ends.contains(ends[k2]));
                    assert(pred(spec_sweep_of_coord(ends[k2])));
                }
            }
        } else {
            let p0 = choose|p: SweepPoint| #[trigger] pred(p);
            let c0 = choose|c: Coord|
                p0 == spec_sweep_of_coord(c) && #[trigger] ends.contains(c) && !pair_improper(
                    segsv,
                    c,
                );
            let k0 = choose|m: int| 0 <= m < ends.len() && ends[m] == c0;
            assert(!pair_improper(segsv, ends[k0]));
        }
        if r is Errors {
            let v = r->Errors_0@;
            assert forall|c: Coord| #[trigger]
                v[0]->Point_0@.contains(spec_sweep_of_coord(c)) <==> (ends.contains(c)
                    && !pair_improper(segsv, c)) by {
                if v[0]->Point_0@.contains(spec_sweep_of_coord(c)) {
                    assert(pred(spec_sweep_of_coord(c)));
                    let c2 = choose|c2: Coord|
                        spec_sweep_of_coord(c) == spec_sweep_of_coord(c2) && #[trigger]
                        ends.contains(c2) && !pair_improper(segsv, c2);
                    assert(c2 == c);
                }
                if ends.contains(c) && !pair_improper(segsv, c) {
                    assert(pred(spec_sweep_of_coord(c)));
                }
            }
            assert forall|p: SweepPoint| #[trigger] v[0]->Point_0@.contains(p) implies exists|
                c: Coord,
            | p == spec_sweep_of_coord(c) by {
                assert(pred(p));
                let c = choose|c: Coord|
                    p == spec_sweep_of_coord(c) && #[trigger] ends.contains(c) && !pair_improper(
                        segsv,
                        c,
                    );
            }
        }
    }
    r
}

} // verus!
